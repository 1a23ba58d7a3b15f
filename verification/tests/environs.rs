use magog::block::{Block, Tile};
use magog::environs::{Environs, Terrain};
use magog::geom::{ivec3, Cube, IVec3};
use magog::patch::Spawn;
use magog::sector_map::SectorMap;

fn floor_at(t: &mut Terrain, x: i32, y: i32, z: i32, b: Block) {
    t.set_voxel(&ivec3(x, y, z - 1), Some(b));
}

#[test]
fn tiles_from_voxels() {
    let mut t = Terrain::new();
    // Regular floor.
    floor_at(&mut t, 0, 0, 0, Block::Grass);
    assert_eq!(ivec3(0, 0, 0).tile(&t), Tile::Surface(ivec3(0, 0, 0), Block::Grass));
    // Raised floor.
    t.set_voxel(&ivec3(1, 0, 0), Some(Block::Stone));
    assert_eq!(ivec3(1, 0, 0).tile(&t), Tile::Surface(ivec3(1, 0, 1), Block::Stone));
    // Depressed floor.
    t.set_voxel(&ivec3(2, 0, -2), Some(Block::Water));
    assert_eq!(ivec3(2, 0, 0).tile(&t), Tile::Surface(ivec3(2, 0, -1), Block::Water));
    // Void.
    assert_eq!(ivec3(3, 0, 0).tile(&t), Tile::Void);
    // Wall, with a door anywhere in the stack winning.
    for z in -1..=1 {
        t.set_voxel(&ivec3(4, 0, z), Some(Block::Stone));
        t.set_voxel(&ivec3(5, 0, z), Some(Block::Stone));
    }
    t.set_voxel(&ivec3(5, 0, 1), Some(Block::Door));
    assert_eq!(ivec3(4, 0, 0).tile(&t), Tile::Wall(Block::Stone));
    assert_eq!(ivec3(5, 0, 0).tile(&t), Tile::Wall(Block::Door));
    assert_eq!(ivec3(2, 0, 0).snap_above_floor(&t), ivec3(2, 0, -1));
    assert_eq!(ivec3(3, 0, 0).snap_above_floor(&t), ivec3(3, 0, 0));
}

#[test]
fn interior_walls() {
    let mut t = Terrain::new();
    for x in 0..3 {
        for y in 0..3 {
            for z in -1..=1 {
                t.set_voxel(&ivec3(x, y, z), Some(Block::Stone));
            }
        }
    }
    assert!(ivec3(1, 1, 0).is_interior_wall(&t));
    assert!(!ivec3(0, 1, 0).is_interior_wall(&t));
    t.set_voxel(&ivec3(1, 1, 0), None);
    assert!(!ivec3(1, 1, 0).is_interior_wall(&t));
    assert_eq!(t.voxel(&ivec3(1, 1, 0)), None);
    assert_eq!(t.voxel(&ivec3(1, 1, 1)), Some(Block::Stone));
}

#[test]
fn area_map_of_terrain_and_spawns() {
    let mut t = Terrain::new();
    for x in 0..4 {
        floor_at(&mut t, x, 0, 0, Block::Stone);
    }
    floor_at(&mut t, 2, 0, 0, Block::Water);
    for z in -1..=1 {
        t.set_voxel(&ivec3(0, 1, z), Some(Block::Stone));
        t.set_voxel(&ivec3(1, 1, z), Some(Block::Glass));
    }
    let volume = Cube::new(ivec3(0, 0, 0), ivec3(4, 2, 1));
    let spawns: Vec<(IVec3, Spawn)> = vec![
        (ivec3(1, 0, 0), Spawn::new("goblin".to_string())),
        (ivec3(3, 0, 0), Spawn::new("rat".to_string())),
        (ivec3(3, 1, 0), Spawn::new("goblin".to_string())),
        (ivec3(9, 9, 0), Spawn::new("outside".to_string())),
    ];
    let m = SectorMap::from_area(&t, &volume, &spawns);
    assert_eq!(m.map, ".A~B\n#|_A\n");
    assert_eq!(m.legend.len(), 2);
    assert_eq!(m.legend.key_at(0), 'A');
    assert_eq!(m.legend.value_at(0), "goblin");
    assert_eq!(m.legend.key_at(1), 'B');
    assert_eq!(m.legend.value_at(1), "rat");
}

#[test]
fn walking_steps_and_connectivity() {
    let mut t = Terrain::new();
    // A floor around the origin at z = 0.
    for x in -2..=2 {
        for y in -2..=2 {
            floor_at(&mut t, x, y, 0, Block::Stone);
        }
    }
    // A step up to the east and a step down to the south.
    t.set_voxel(&ivec3(1, 0, 0), Some(Block::Stone));
    t.set_voxel(&ivec3(0, 1, -1), None);
    t.set_voxel(&ivec3(0, 1, -2), Some(Block::Grass));
    // A hole to the west can not be walked into.
    t.set_voxel(&ivec3(-1, 0, -1), None);
    assert!(ivec3(0, 0, 0).can_be_stood_in(&t));
    assert_eq!(ivec3(0, 0, 0).walk_step(&t, magog::geom::ivec2(1, 0)), Some(ivec3(1, 0, 1)));
    assert_eq!(ivec3(0, 0, 0).walk_step(&t, magog::geom::ivec2(0, 1)), Some(ivec3(0, 1, -1)));
    assert_eq!(ivec3(0, 0, 0).walk_step(&t, magog::geom::ivec2(0, -1)), Some(ivec3(0, -1, 0)));
    assert_eq!(ivec3(0, 0, 0).walk_step(&t, magog::geom::ivec2(-1, 0)), None);
    // North, east, south, west are bits 0 to 3.
    assert_eq!(ivec3(0, 0, 0).high_connectivity(&t), 0b0010);
    assert_eq!(ivec3(0, 0, 0).low_connectivity(&t), 0b0100);
}

#[test]
fn transparent_volume_skips_opaque_voxels() {
    let mut t = Terrain::new();
    t.set_voxel(&ivec3(0, 0, 1), Some(Block::Glass));
    t.set_voxel(&ivec3(0, 0, -1), Some(Block::Stone));
    assert_eq!(ivec3(0, 0, 0).transparent_volume(&t), vec![ivec3(0, 0, 1), ivec3(0, 0, 0)]);
    t.set_voxel(&ivec3(0, 0, 0), Some(Block::Door));
    assert_eq!(ivec3(0, 0, 0).transparent_volume(&t), vec![ivec3(0, 0, 1)]);
}
