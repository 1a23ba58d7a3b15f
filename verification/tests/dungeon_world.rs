use magog::geom::{ivec2, ivec3, IVec2};
use magog::map_tile::MapTile;
use magog::mapgen::{SpawnKind, MAX_DEPTH};
use magog::patch::{FlatPatch, Spawn};
use magog::world::World;
use rand::rngs::StdRng;
use rand::SeedableRng;

fn picker(kind: SpawnKind, depth: u32, _rng: &mut StdRng) -> Spawn {
    match kind {
        SpawnKind::Creature => Spawn::new(format!("orc-{depth}")),
        SpawnKind::Item => Spawn::new(format!("ring-{depth}")),
    }
}

fn two_levels() -> World {
    let mut upper = FlatPatch::new();
    upper.set_terrain(ivec2(0, 0), MapTile::Ground);
    upper.set_terrain(ivec2(1, 0), MapTile::Downstairs);
    upper.add_spawn(ivec2(0, 0), Spawn::new("rat".to_string()));
    let mut lower = FlatPatch::new();
    lower.set_terrain(ivec2(1, -1), MapTile::Upstairs);
    lower.set_terrain(ivec2(0, 0), MapTile::Wall);
    lower.add_spawn(ivec2(1, -1), Spawn::new("bat".to_string()));
    lower.entrance = Some(ivec2(1, -1));
    World::from_levels(vec![(ivec3(10, 20, -1), upper), (ivec3(10, 20, -2), lower)])
}

#[test]
fn world_tiles_read_back_level_cells() {
    let w = two_levels();
    assert_eq!(w.tile(ivec3(10, 20, -1)), Some(MapTile::Ground));
    assert_eq!(w.tile(ivec3(11, 20, -1)), Some(MapTile::Downstairs));
    assert_eq!(w.tile(ivec3(11, 19, -2)), Some(MapTile::Upstairs));
    assert_eq!(w.tile(ivec3(10, 20, -2)), Some(MapTile::Wall));
    // A cell of no level, and a plane with no level.
    assert_eq!(w.tile(ivec3(12, 20, -1)), None);
    assert_eq!(w.tile(ivec3(10, 20, -3)), None);
}

#[test]
fn world_spawns_are_placed_level_by_level() {
    let w = two_levels();
    let sp: Vec<(magog::geom::IVec3, String)> =
        w.spawns().into_iter().map(|(p, s)| (p, s.name().to_string())).collect();
    assert_eq!(
        sp,
        vec![(ivec3(10, 20, -1), "rat".to_string()), (ivec3(11, 19, -2), "bat".to_string())]
    );
}

#[test]
fn world_entrance_is_the_first_levels_entrance() {
    let w = two_levels();
    assert_eq!(w.entrance(), Some(ivec3(11, 19, -2)));
    let empty = World::from_levels(vec![(ivec3(0, 0, -1), FlatPatch::new())]);
    assert_eq!(empty.entrance(), None);
    assert_eq!(empty.spawns().len(), 0);
}

#[test]
fn later_level_overwrites_a_shared_cell() {
    let mut a = FlatPatch::new();
    a.set_terrain(ivec2(0, 0), MapTile::Ground);
    let mut b = FlatPatch::new();
    b.set_terrain(ivec2(0, 0), MapTile::Wall);
    let w = World::from_levels(vec![(ivec3(0, 0, 0), a), (ivec3(0, 0, 0), b)]);
    assert_eq!(w.tile(ivec3(0, 0, 0)), Some(MapTile::Wall));
}

#[test]
fn patch_tiles_are_its_terrain() {
    let mut p = FlatPatch::new();
    p.set_terrain(ivec2(2, 3), MapTile::Door);
    p.add_spawn(ivec2(2, 3), Spawn::new("imp".to_string()));
    p.set_terrain(ivec2(0, 0), MapTile::Grass);
    let t: Vec<(IVec2, MapTile)> = p.tiles();
    assert_eq!(t, vec![(ivec2(2, 3), MapTile::Door), (ivec2(0, 0), MapTile::Grass)]);
}

#[test]
fn generated_world_stairs_connect_levels() {
    let mut built = 0;
    for seed in 0..6 {
        let mut rng = StdRng::seed_from_u64(seed);
        let w = match World::generate(&mut rng, &picker) {
            Ok(w) => w,
            Err(e) => {
                assert_eq!(e.level.depth as usize, e.levels.len() + 1);
                assert!(e.level.generate_downstairs);
                continue;
            }
        };
        built += 1;
        let mut downs = 0;
        for z in 1..MAX_DEPTH as i32 {
            // Find the downstairs of level z and check the upstairs below it.
            for y in -10..50 {
                for x in -10..60 {
                    if w.tile(ivec3(x, y, -z)) == Some(MapTile::Downstairs) {
                        downs += 1;
                        assert_eq!(w.tile(ivec3(x, y - 1, -z - 1)), Some(MapTile::Upstairs));
                    }
                }
            }
        }
        assert_eq!(downs, MAX_DEPTH - 1);
        let e = w.entrance().unwrap();
        assert_eq!(e.z, -1);
        for (p, s) in w.spawns() {
            assert!(p.z <= -1 && p.z >= -(MAX_DEPTH as i32));
            let depth = -p.z;
            assert!(s.name().ends_with(&format!("-{depth}")));
        }
    }
    assert!(built > 0);
}
