use std::collections::{HashMap, HashSet};

use magog::block::{BadBlockChar, Block};
use magog::char_atlas::Atlas;
use magog::environs::{Environs, Terrain};
use magog::geom::{ivec3, IVec3};

#[test]
fn char_atlas_roundtrip() {
    let items = vec![
        (ivec3(0, 0, 0), 'a'),
        (ivec3(5, 3, 0), 'b'),
        (ivec3(5, 3, 0), 'c'),
        (ivec3(2, 2, 0), '\0'),
        (ivec3(-3, -4, 1), 'd'),
        (ivec3(60, 1, 0), 'e'),
        (ivec3(1, 1, 0), ' '),
    ];
    let atlas = Atlas::from_cells(&items);
    let got: HashSet<(IVec3, char)> = atlas.cells().into_iter().collect();
    let want: HashSet<(IVec3, char)> = [
        (ivec3(0, 0, 0), 'a'),
        (ivec3(5, 3, 0), 'c'),
        (ivec3(-3, -4, 1), 'd'),
        (ivec3(60, 1, 0), 'e'),
    ]
    .into_iter()
    .collect();
    assert_eq!(got, want);
}

#[test]
fn terrain_roundtrip_through_atlas() {
    let mut t = Terrain::new();
    let blocks = [Block::Stone, Block::Grass, Block::Water, Block::Door, Block::SplatteredRock];
    for (i, b) in blocks.iter().enumerate() {
        t.set_voxel(&ivec3(i as i32 * 7 - 10, i as i32 * 3, -(i as i32)), Some(*b));
    }
    t.set_voxel(&ivec3(100, 100, 2), None);
    let atlas = t.to_atlas();
    let back = Terrain::from_atlas(&atlas).unwrap();
    for (i, b) in blocks.iter().enumerate() {
        assert_eq!(back.voxel(&ivec3(i as i32 * 7 - 10, i as i32 * 3, -(i as i32))), Some(*b));
    }
    assert_eq!(back.voxel(&ivec3(100, 100, 2)), None);
    assert_eq!(back.voxel(&ivec3(1, 1, 1)), None);
    // Decoded cells show each set voxel once.
    let cells: HashMap<IVec3, char> = atlas.cells().into_iter().collect();
    assert_eq!(cells.len(), 6);
    assert_eq!(cells[&ivec3(100, 100, 2)], '_');
    assert_eq!(cells[&ivec3(-10, 0, 0)], '*');
}

#[test]
fn terrain_from_atlas_rejects_unknown_chars() {
    let atlas = Atlas::from_cells(&vec![(ivec3(0, 0, 0), '*'), (ivec3(1, 0, 0), 'Q')]);
    assert_eq!(Terrain::from_atlas(&atlas).err(), Some(BadBlockChar('Q')));
}
