use magog::geom::{ivec2, ivec3, Cube, Rect};
use magog::stairs::{snap_stairwell_position, snap_to_chessboard3, BadStairs, Lot};
use magog::assoc::AssocMap;
use magog::map_tile::MapTile;
use magog::patch::{FlatPatch, PatchData, Spawn};
use magog::text::is_whitespace;

#[test]
fn whitespace_matches_std_for_every_char() {
    for n in 0..=0x10ffffu32 {
        if let Some(c) = char::from_u32(n) {
            assert_eq!(is_whitespace(c), c.is_whitespace(), "{n:#x}");
        }
    }
}

#[test]
fn text_goes_by_characters() {
    // Map columns count characters, not bytes: the gore tile is two bytes.
    let mut legend = AssocMap::new();
    legend.insert('ж', Spawn::new("жук".to_string()));
    let p = FlatPatch::parse(&PatchData { legend }, "§ж.").unwrap();
    assert_eq!(p.terrain.get(&ivec2(0, 0)), Some(&MapTile::Gore));
    assert_eq!(p.terrain.get(&ivec2(1, 0)), Some(&MapTile::Ground));
    assert_eq!(p.terrain.get(&ivec2(2, 0)), Some(&MapTile::Ground));
    assert_eq!(p.spawns.get(&ivec2(1, 0)).unwrap().name(), "жук");
    // Writing it back keeps the characters; the lowercase Cyrillic initial
    // is not among the legend letters, so the first free one is used.
    let (data, map) = p.to_text();
    assert_eq!(map, "§A.");
    assert_eq!(data.legend.key_at(0), 'A');
    assert_eq!(data.legend.value_at(0).name(), "жук");
}

#[test]
fn chessboard_snapping() {
    let b = Rect::new(ivec2(0, 0), ivec2(16, 16));
    // Even parity goes to white squares, odd to black.
    assert_eq!(snap_to_chessboard3(0, &b, ivec2(1, 1)), ivec2(2, 2));
    assert_eq!(snap_to_chessboard3(1, &b, ivec2(1, 1)), ivec2(6, 2));
    // Wraps around the bounds.
    assert_eq!(snap_to_chessboard3(0, &b, ivec2(13, 1)), ivec2(2, 2));
    assert_eq!(snap_to_chessboard3(1, &b, ivec2(13, 1)), ivec2(14, 2));
}

#[test]
fn stairwells_alternate_between_levels() {
    let a = snap_stairwell_position(ivec3(20, 20, 0));
    let b = snap_stairwell_position(ivec3(20, 20, -2));
    assert_ne!(a, b);
    assert_eq!(snap_stairwell_position(a), a);
    assert_eq!(snap_stairwell_position(b), b);
}

#[test]
fn lot_validates_stairs() {
    let v = Cube::new(ivec3(0, 0, 0), ivec3(48, 40, 1));
    let good = snap_stairwell_position(ivec3(20, 20, 0));
    let lot = Lot::new(v, 0b0101, Some(good), None).unwrap();
    assert_eq!(lot.exit(1), None);
    assert!(lot.exit(0).is_some());
    assert!(lot.exit(2).is_some());
    let bad = ivec3(good.x + 1, good.y, 0);
    assert_eq!(
        Lot::new(v, 0, Some(bad), None),
        Err(BadStairs { found: bad, expected: snap_stairwell_position(bad) })
    );
}

#[test]
fn lot_exits_are_edge_centers_of_the_lot() {
    // A lot one sector east: its corner is (48, 0, 0).
    let v = Cube::new(ivec3(48, 0, 0), ivec3(96, 40, 1));
    let lot = Lot::new(v, 0b1111, None, None).unwrap();
    assert_eq!(lot.exit(0), Some(ivec3(72, 0, 0)));
    assert_eq!(lot.exit(1), Some(ivec3(95, 20, 0)));
    assert_eq!(lot.exit(2), Some(ivec3(72, 39, 0)));
    assert_eq!(lot.exit(3), Some(ivec3(48, 20, 0)));
}
