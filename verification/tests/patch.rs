use magog::assoc::AssocMap;
use magog::geom::ivec2;
use magog::map_tile::MapTile;
use magog::patch::{BadPatchChar, FlatPatch, PatchData, Spawn};

/// Split a patch document into its legend and its map, the way the data
/// files write them: a `:legend` header, indented `letter name` lines, then
/// the map.
fn read_patch(doc: &str) -> (PatchData, String) {
    let mut legend = AssocMap::new();
    let mut map_lines = Vec::new();
    let mut in_legend = false;
    for line in doc.split('\n') {
        if line == ":legend" {
            in_legend = true;
            continue;
        }
        if in_legend && line.starts_with("  ") {
            let entry = &line[2..];
            let mut parts = entry.splitn(2, ' ');
            let c = parts.next().unwrap().chars().next().unwrap();
            let name = parts.next().unwrap().to_string();
            legend.insert(c, Spawn::new(name));
            continue;
        }
        in_legend = false;
        map_lines.push(line);
    }
    (PatchData { legend }, map_lines.join("\n"))
}

/// Write a patch document back: legend sorted by letter, then the map.
fn write_patch(data: &PatchData, map: &str) -> String {
    let mut entries: Vec<(char, String)> = (0..data.legend.len())
        .map(|i| (data.legend.key_at(i), data.legend.value_at(i).name().to_string()))
        .collect();
    entries.sort();
    let mut out = String::from(":legend\n");
    for (c, name) in entries {
        out.push_str(&format!("  {} {}\n", c, name));
    }
    out.push_str(map);
    out
}

fn parse_doc(doc: &str) -> FlatPatch {
    let (data, map) = read_patch(doc);
    FlatPatch::parse(&data, &map).unwrap()
}

fn terrain_of(p: &FlatPatch) -> Vec<((i32, i32), MapTile)> {
    (0..p.terrain.len())
        .map(|i| {
            let k = p.terrain.key_at(i);
            ((k.x, k.y), *p.terrain.value_at(i))
        })
        .collect()
}

fn spawns_of(p: &FlatPatch) -> Vec<((i32, i32), String)> {
    (0..p.spawns.len())
        .map(|i| {
            let k = p.spawns.key_at(i);
            ((k.x, k.y), p.spawns.value_at(i).name().to_string())
        })
        .collect()
}

#[test]
fn patch_roundtrip() {
    const PATCH: &str = "\
:legend
  a archon
  x xorn
\u{a0}###
##a##
#..x#
##@##
\u{a0}###";

    let p = parse_doc(PATCH);
    let (data, map) = p.to_text();
    let reser = write_patch(&data, &map);
    assert_eq!(PATCH, reser.trim_end());
}

#[test]
fn legend_assign() {
    const PATCH: &str = "\
:legend
  x alien-one
  y alien-two
  z alien-three
\u{a0}###
##x##
#yz.#
##@##
\u{a0}###";

    let p = parse_doc(PATCH);
    let (data, map) = p.to_text();
    let reser = write_patch(&data, &map);
    let p2 = parse_doc(&reser);
    assert_eq!(terrain_of(&p), terrain_of(&p2));
    assert_eq!(spawns_of(&p), spawns_of(&p2));
    assert_eq!(p.entrance, p2.entrance);
}

#[test]
fn parse_rejects_unknown_char() {
    let data = PatchData { legend: AssocMap::new() };
    let r = FlatPatch::parse(&data, "##\n#q");
    assert_eq!(r.err(), Some(BadPatchChar('q')));
}

#[test]
fn parse_places_cells_at_grid_positions() {
    let mut legend = AssocMap::new();
    legend.insert('o', Spawn::new("ogre".to_string()));
    let data = PatchData { legend };
    let p = FlatPatch::parse(&data, " #\n@o").unwrap();
    assert_eq!(p.entrance, Some(ivec2(0, 1)));
    assert_eq!(
        terrain_of(&p),
        vec![((1, 0), MapTile::Wall), ((0, 1), MapTile::Ground), ((1, 1), MapTile::Ground)]
    );
    assert_eq!(spawns_of(&p), vec![((1, 1), "ogre".to_string())]);
}

#[test]
fn to_text_uses_initial_letter_of_spawn_name() {
    // The legend letter comes from `char::is_alphabetic` picking the first
    // letter of the name, skipping the digit.
    let mut p = FlatPatch::new();
    p.set_terrain(ivec2(0, 0), MapTile::Ground);
    p.add_spawn(ivec2(1, 0), Spawn::new("9lives-cat".to_string()));
    let (data, map) = p.to_text();
    assert_eq!(map, ".l");
    assert_eq!(data.legend.len(), 1);
    assert_eq!(data.legend.key_at(0), 'l');
    assert_eq!(data.legend.value_at(0).name(), "9lives-cat");
}

#[test]
fn to_text_picks_a_free_letter_on_clash() {
    let mut p = FlatPatch::new();
    p.add_spawn(ivec2(0, 0), Spawn::new("goblin".to_string()));
    p.add_spawn(ivec2(1, 0), Spawn::new("gnome".to_string()));
    let (data, map) = p.to_text();
    assert_eq!(data.legend.len(), 2);
    let first: Vec<char> = map.chars().collect();
    assert_eq!(first[0], 'g');
    assert_ne!(first[1], 'g');
    // The second letter stands for the second spawn.
    let c = first[1];
    let i = (0..data.legend.len()).find(|&i| data.legend.key_at(i) == c).unwrap();
    assert_eq!(data.legend.value_at(i).name(), "gnome");
}

#[test]
fn to_text_clashing_initials_take_letters_from_the_front_of_the_alphabet() {
    // Taking 'g' moves 'A' into its slot, so the next free letters handed
    // out are 'B' and then 'C'.
    let mut p = FlatPatch::new();
    p.add_spawn(ivec2(0, 0), Spawn::new("goblin".to_string()));
    p.add_spawn(ivec2(1, 0), Spawn::new("giant".to_string()));
    p.add_spawn(ivec2(2, 0), Spawn::new("gnome".to_string()));
    p.add_spawn(ivec2(3, 0), Spawn::new("goblin".to_string()));
    let (data, map) = p.to_text();
    assert_eq!(map, "gBCg");
    assert_eq!(data.legend.len(), 3);
}

#[test]
fn merge_overlays_terrain_at_offset() {
    let mut a = FlatPatch::new();
    a.set_terrain(ivec2(0, 0), MapTile::Wall);
    let mut b = FlatPatch::new();
    b.set_terrain(ivec2(0, 0), MapTile::Ground);
    b.set_terrain(ivec2(1, 0), MapTile::Door);
    a.merge(ivec2(1, 0), b);
    assert_eq!(terrain_of(&a), vec![((0, 0), MapTile::Wall), ((1, 0), MapTile::Ground), ((2, 0), MapTile::Door)]);
}

#[test]
fn exit_tile_and_spawn_lettered_x_do_not_reread() {
    // The one case the reread law leaves out: the exit character doubles as
    // the legend letter of a spawn named with an initial 'X'.
    let mut p = FlatPatch::new();
    p.set_terrain(ivec2(0, 0), MapTile::Exit);
    p.set_terrain(ivec2(1, 0), MapTile::Ground);
    p.add_spawn(ivec2(1, 0), Spawn::new("Xorn".to_string()));
    let (data, map) = p.to_text();
    assert_eq!(map, "XX");
    let back = FlatPatch::parse(&data, &map).unwrap();
    assert!(back.spawns.get(&ivec2(0, 0)).is_some());
    // Without exit tiles the same spawn reads back.
    let mut q = FlatPatch::new();
    q.set_terrain(ivec2(0, 0), MapTile::Wall);
    q.set_terrain(ivec2(1, 0), MapTile::Ground);
    q.add_spawn(ivec2(1, 0), Spawn::new("Xorn".to_string()));
    let (data, map) = q.to_text();
    assert_eq!(map, "#X");
    let back = FlatPatch::parse(&data, &map).unwrap();
    assert_eq!(back.spawns.get(&ivec2(1, 0)).unwrap().name(), "Xorn");
    assert_eq!(back.terrain.get(&ivec2(0, 0)), Some(&MapTile::Wall));
}
