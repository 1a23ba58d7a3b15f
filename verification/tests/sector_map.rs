use magog::assoc::AssocMap;
use magog::geom::{ivec2, ivec3};
use magog::sector_map::{char_grid, SectorMap};
use rand::SeedableRng;

fn map_of(text: &str) -> SectorMap {
    let mut m = SectorMap::empty();
    m.map = text.to_string();
    m
}

#[test]
fn stair_maps() {
    let up = SectorMap::upstairs();
    assert_eq!(up.map, "###\n#<#\n#.#");
    assert_eq!(up.find_upstairs(), Some(ivec2(1, 1)));
    assert_eq!(up.find_downstairs(), None);
    let down = SectorMap::downstairs();
    assert_eq!(down.map, "#.#\n#>#\n#_#\n###");
    assert_eq!(down.find_downstairs(), Some(ivec2(1, 1)));
    assert_eq!(down.dim(), ivec2(3, 4));
}

#[test]
fn grid_skips_whitespace() {
    let cells = char_grid(" a\n\tb c");
    assert_eq!(cells, vec![(ivec2(1, 0), 'a'), (ivec2(1, 1), 'b'), (ivec2(3, 1), 'c')]);
}

#[test]
fn entrances_in_reading_order() {
    let m = map_of("#@#\n@.@");
    assert_eq!(m.entrances(), vec![ivec2(1, 0), ivec2(0, 1), ivec2(2, 1)]);
    assert_eq!(map_of("###").entrances(), vec![]);
}

#[test]
fn dim_covers_all_cells() {
    assert_eq!(map_of("").dim(), ivec2(0, 0));
    assert_eq!(map_of("#\n   #\n#").dim(), ivec2(4, 3));
}

#[test]
fn border_and_inside_split() {
    let m = map_of("###\n#.#\n###");
    let (border, inside) = m.border_and_inside();
    assert_eq!(inside.len(), 1);
    assert_eq!(inside.key_at(0), ivec2(1, 1));
    assert_eq!(*inside.value_at(0), '.');
    assert_eq!(border.len(), 8);
    assert_eq!(border.key_at(0), ivec2(0, 0));
}

#[test]
fn room_shape() {
    let r = SectorMap::room(5, 3);
    assert_eq!(r.map, "#+++#\n+...+\n#+++#");
}

#[test]
fn sampled_rooms_are_odd_sized() {
    let mut rng = rand::rngs::StdRng::seed_from_u64(7);
    for _ in 0..20 {
        let r = SectorMap::sample(&mut rng);
        let d = r.dim();
        assert!(d.x % 2 == 1 && (5..=11).contains(&d.x));
        assert!(d.y % 2 == 1 && (5..=11).contains(&d.y));
        assert!(r.map.starts_with('#'));
    }
}

#[test]
fn spawns_from_legend() {
    let mut legend = AssocMap::new();
    legend.insert('g', "goblin".to_string());
    let mut m = map_of("#g\n.g");
    m.legend = legend;
    let s = m.spawns(&ivec3(10, 20, -1));
    let got: Vec<_> = s.iter().map(|(l, sp)| (*l, sp.name().to_string())).collect();
    assert_eq!(
        got,
        vec![(ivec3(11, 20, -1), "goblin".to_string()), (ivec3(11, 21, -1), "goblin".to_string())]
    );
}
