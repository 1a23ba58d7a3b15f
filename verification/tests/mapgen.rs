use magog::geom::{ivec2, ivec3, IVec2, Rect};
use magog::map_tile::MapTile;
use magog::mapgen::{generate_levels, Level, SpawnKind, MAX_DEPTH};
use magog::patch::{FlatPatch, Spawn};
use rand::rngs::StdRng;
use rand::SeedableRng;

fn picker(kind: SpawnKind, depth: u32, _rng: &mut StdRng) -> Spawn {
    match kind {
        SpawnKind::Creature => Spawn::new(format!("goblin-{depth}")),
        SpawnKind::Item => Spawn::new(format!("sword-{depth}")),
    }
}

fn cells(p: &FlatPatch) -> Vec<(IVec2, MapTile)> {
    (0..p.terrain.len()).map(|i| (p.terrain.key_at(i), *p.terrain.value_at(i))).collect()
}

fn tile(p: &FlatPatch, pos: IVec2) -> Option<MapTile> {
    p.terrain.get(&pos).copied()
}

#[test]
fn rooms_are_walled_rectangles() {
    let level = Level::new(2);
    for seed in 0..30 {
        let mut rng = StdRng::seed_from_u64(seed);
        let room = level.room(&mut rng, &picker);
        let ground: Vec<IVec2> = cells(&room)
            .into_iter()
            .filter(|(_, t)| *t == MapTile::Ground)
            .map(|(p, _)| p)
            .collect();
        let w = ground.iter().map(|p| p.x).max().unwrap() + 1;
        let h = ground.iter().map(|p| p.y).max().unwrap() + 1;
        assert!((2..=10).contains(&w) && (2..=10).contains(&h));
        assert_eq!(ground.len() as i32, w * h);
        assert_eq!(room.terrain.len() as i32, w * h + 4);
        for c in [ivec2(-1, -1), ivec2(w, -1), ivec2(-1, h), ivec2(w, h)] {
            assert_eq!(tile(&room, c), Some(MapTile::Wall));
        }
        let e = room.entrance.unwrap();
        assert!(e.x >= 0 && e.x < w && e.y >= 0 && e.y < h);
        for i in 0..room.spawns.len() {
            let p = room.spawns.key_at(i);
            assert!(p != e);
            assert_eq!(tile(&room, p), Some(MapTile::Ground));
            let name = room.spawns.value_at(i).name();
            assert!(name == "goblin-2" || name == "sword-2");
        }
        assert_eq!(room.bounds(), Rect::new(ivec2(0, 0), ivec2(w, h)));
    }
}

#[test]
fn bounds_skip_walls() {
    let mut p = FlatPatch::new();
    assert_eq!(p.bounds(), Rect::new(ivec2(0, 0), ivec2(0, 0)));
    p.set_terrain(ivec2(-5, -5), MapTile::Wall);
    p.set_terrain(ivec2(2, 3), MapTile::Ground);
    p.set_terrain(ivec2(4, 1), MapTile::Water);
    p.set_terrain(ivec2(9, 9), MapTile::Wall);
    assert_eq!(p.bounds(), Rect::new(ivec2(2, 1), ivec2(5, 4)));
}

#[test]
fn patch_clone_is_equal() {
    let mut p = FlatPatch::new();
    p.set_terrain(ivec2(1, 1), MapTile::Door);
    p.add_spawn(ivec2(1, 1), Spawn::new("orc".to_string()));
    p.entrance = Some(ivec2(1, 1));
    let q = p.clone();
    assert_eq!(cells(&q), cells(&p));
    assert_eq!(q.spawns.value_at(0).name(), "orc");
    assert_eq!(q.entrance, Some(ivec2(1, 1)));
}

#[test]
fn depth_admits_shallower_seeds() {
    let level = Level::new(3);
    assert!(level.admits(0));
    assert!(level.admits(3));
    assert!(!level.admits(4));
}

#[test]
fn builders_set_fields() {
    let level = Level::new(5).upstairs_at(ivec2(3, 4)).with_downstairs();
    assert_eq!(level.depth, 5);
    assert_eq!(level.upstairs, Some(ivec2(3, 4)));
    assert!(level.generate_downstairs);
    let plain = Level::new(1);
    assert_eq!(plain.upstairs, None);
    assert!(!plain.generate_downstairs);
}

fn check_level(level: &Level, m: &FlatPatch) {
    let all = cells(m);
    for (p, _) in &all {
        let near_up = match level.upstairs {
            Some(u) => (p.x - u.x).abs() <= 3 && (p.y - u.y).abs() <= 3,
            None => false,
        };
        assert!(near_up || (p.x >= -2 && p.x < 50 && p.y >= -2 && p.y < 42));
    }
    if let Some(u) = level.upstairs {
        assert_eq!(tile(m, u), Some(MapTile::Upstairs));
    }
    if let Some(e) = m.entrance {
        assert!(tile(m, e).unwrap().is_walkable());
    }
    let downs: Vec<IVec2> =
        all.iter().filter(|(_, t)| *t == MapTile::Downstairs).map(|(p, _)| *p).collect();
    if level.generate_downstairs {
        assert_eq!(downs.len(), 1);
        let d = downs[0];
        assert!(d.y > 8 && d.y < 32);
        assert_eq!(tile(m, ivec2(d.x, d.y - 1)), Some(MapTile::Ground));
        for w in [(-1, 0), (1, 0), (-1, 1), (0, 1), (1, 1)] {
            assert_eq!(tile(m, ivec2(d.x + w.0, d.y + w.1)), Some(MapTile::Wall));
        }
        assert_eq!(m.downstairs_pos(), Some(d));
    } else {
        assert!(downs.is_empty());
        assert_eq!(m.downstairs_pos(), None);
    }
}

#[test]
fn levels_keep_their_stairs() {
    let mut generated = 0;
    for seed in 0..12 {
        let mut rng = StdRng::seed_from_u64(seed);
        let level = Level::new(1 + seed as u32 % 8).upstairs_at(ivec2(20, 15)).with_downstairs();
        match level.sample(&mut rng, &picker) {
            Ok(m) => {
                check_level(&level, &m);
                generated += 1;
            }
            Err(e) => {
                // The built map has no stairwell spot away from the edges.
                assert!(e.map.downstair_positions().iter().all(|p| p.y <= 8 || p.y >= 32));
                assert_eq!(tile(&e.map, ivec2(20, 15)), Some(MapTile::Upstairs));
            }
        }
    }
    assert!(generated > 0);
}

#[test]
fn level_without_stairs() {
    for seed in 0..6 {
        let mut rng = StdRng::seed_from_u64(100 + seed);
        let level = Level::new(1);
        let m = level.sample(&mut rng, &picker).unwrap();
        check_level(&level, &m);
        // The rooms hold open ground and the first room gives the entrance.
        assert!(m.open_area().len() >= 4);
        assert!(m.entrance.is_some());
    }
}

#[test]
fn dungeon_stairs_line_up() {
    let mut built = 0;
    for seed in 0..6 {
        let mut rng = StdRng::seed_from_u64(seed);
        let levels = match generate_levels(&mut rng, &picker) {
            Ok(v) => v,
            Err(e) => {
                assert_eq!(e.level.depth as usize, e.levels.len() + 1);
                assert!(e.level.generate_downstairs);
                assert!(e.map.downstair_positions().iter().all(|p| p.y <= 8 || p.y >= 32));
                continue;
            }
        };
        built += 1;
        assert_eq!(levels.len(), MAX_DEPTH as usize);
        for (i, (origin, m)) in levels.iter().enumerate() {
            assert_eq!(*origin, ivec3(0, 0, -(i as i32 + 1)));
            if i + 1 < levels.len() {
                let d = m.downstairs_pos().unwrap();
                assert!(d.y > 8 && d.y < 32);
                let below = &levels[i + 1].1;
                assert_eq!(tile(below, ivec2(d.x, d.y - 1)), Some(MapTile::Upstairs));
            } else {
                assert_eq!(m.downstairs_pos(), None);
            }
        }
    }
    assert!(built > 0);
}

#[test]
fn room_from_lays_out_the_drawn_room() {
    let imp = (ivec2(2, 1), Spawn::new("imp".to_string()));
    let room = Level::room_from(3, 2, ivec2(1, 0), vec![imp]);
    assert_eq!(
        cells(&room),
        vec![
            (ivec2(-1, -1), MapTile::Wall),
            (ivec2(3, -1), MapTile::Wall),
            (ivec2(-1, 2), MapTile::Wall),
            (ivec2(3, 2), MapTile::Wall),
            (ivec2(0, 0), MapTile::Ground),
            (ivec2(1, 0), MapTile::Ground),
            (ivec2(2, 0), MapTile::Ground),
            (ivec2(0, 1), MapTile::Ground),
            (ivec2(1, 1), MapTile::Ground),
            (ivec2(2, 1), MapTile::Ground),
        ]
    );
    assert_eq!(room.entrance, Some(ivec2(1, 0)));
    assert_eq!(room.spawns.len(), 1);
    assert_eq!(room.spawns.key_at(0), ivec2(2, 1));
    assert_eq!(room.spawns.value_at(0).name(), "imp");
}

#[test]
fn downstairs_goes_below_an_open_cell_away_from_the_edges() {
    let level = Level::new(1).with_downstairs();
    let mut rng = StdRng::seed_from_u64(7);
    // A single open cell high up leaves no spot: the map stays as it was.
    let mut high = FlatPatch::new();
    high.set_terrain(ivec2(10, 3), MapTile::Ground);
    assert!(!level.add_downstairs(&mut high, &mut rng));
    assert_eq!(cells(&high), vec![(ivec2(10, 3), MapTile::Ground)]);
    // One in the middle gets the stairs right below it.
    let mut mid = FlatPatch::new();
    mid.set_terrain(ivec2(10, 20), MapTile::Ground);
    assert!(level.add_downstairs(&mut mid, &mut rng));
    assert_eq!(tile(&mid, ivec2(10, 21)), Some(MapTile::Downstairs));
    assert_eq!(tile(&mid, ivec2(10, 20)), Some(MapTile::Ground));
    for c in [ivec2(9, 21), ivec2(11, 21), ivec2(9, 22), ivec2(10, 22), ivec2(11, 22)] {
        assert_eq!(tile(&mid, c), Some(MapTile::Wall));
    }
}

#[test]
fn level_without_upstairs_holds_a_walled_room() {
    for seed in 0..6 {
        let mut rng = StdRng::seed_from_u64(300 + seed);
        let m = Level::new(2).sample(&mut rng, &picker).unwrap();
        let open = |x: i32, y: i32| tile(&m, ivec2(x, y)).map_or(false, |t| t.is_walkable());
        let wall = |x: i32, y: i32| tile(&m, ivec2(x, y)) == Some(MapTile::Wall);
        let mut found = false;
        for y in 0..40 {
            for x in 0..48 {
                for w in 2..=10 {
                    for h in 2..=10 {
                        if x + w > 48 || y + h > 40 || found {
                            continue;
                        }
                        let corners = wall(x - 1, y - 1) && wall(x + w, y - 1)
                            && wall(x - 1, y + h) && wall(x + w, y + h);
                        if corners && (0..h).all(|j| (0..w).all(|i| open(x + i, y + j))) {
                            found = true;
                        }
                    }
                }
            }
        }
        assert!(found);
    }
}

#[test]
fn generated_levels_keep_the_spawns_of_their_rooms() {
    let mut total = 0;
    for seed in 0..20 {
        let mut rng = StdRng::seed_from_u64(500 + seed);
        let m = Level::new(3).sample(&mut rng, &picker).unwrap();
        for i in 0..m.spawns.len() {
            let p = m.spawns.key_at(i);
            assert!(tile(&m, p).map_or(false, |t| t.is_walkable()));
            let name = m.spawns.value_at(i).name();
            assert!(name == "goblin-3" || name == "sword-3");
            total += 1;
        }
    }
    assert!(total > 0);
}
