use magog::assoc::AssocMap;
use magog::data::{GenericSector, Region};
use magog::geom::{ivec2, ivec3, Cube, IVec2, IVec3};
use magog::sector_map::SectorMap;
use magog::skeleton::{
    build_skeleton, construct_lot, default_down_stairs, Segment, SegmentMap, SkeletonError,
};
use magog::stairs::snap_stairwell_position;
use magog::unfold::UnfoldError;

fn map_of(text: &str) -> SectorMap {
    let mut m = SectorMap::empty();
    m.map = text.to_string();
    m
}

/// A map with a single character at the given position.
fn map_with(c: char, at: IVec2) -> SectorMap {
    let mut text = String::new();
    for y in 0..=at.y {
        for x in 0..=at.x {
            text.push(if x == at.x && y == at.y { c } else { '.' });
        }
        if y < at.y {
            text.push('\n');
        }
    }
    map_of(&text)
}

fn segment<'a>(skel: &'a AssocMap<IVec3, Segment>, p: IVec3) -> &'a Segment {
    skel.get(&p).expect("segment")
}

#[test]
fn site_over_dungeon_levels() {
    let regions = vec![(
        ivec2(0, 0),
        vec![
            Region::Site(map_of("..\n.@")),
            Region::Repeat(3, Box::new(Region::Generate(GenericSector::Dungeon))),
        ],
    )];
    let (start, skel) = build_skeleton(7, &regions).unwrap();
    assert_eq!(start, ivec3(1, 1, 0));
    assert_eq!(skel.len(), 4);
    let keys: Vec<IVec3> = (0..skel.len()).map(|i| skel.key_at(i)).collect();
    assert_eq!(keys, vec![ivec3(0, 0, 0), ivec3(0, 0, -1), ivec3(0, 0, -2), ivec3(0, 0, -3)]);

    let top = segment(&skel, ivec3(0, 0, 0));
    assert!(matches!(top.map, SegmentMap::Prefab(_)));
    assert_eq!(top.connected_down, None);
    assert!(!top.connected_north && !top.connected_west);

    for z in [-1, -2] {
        let s = segment(&skel, ivec3(0, 0, z));
        assert!(matches!(s.map, SegmentMap::Generate(GenericSector::Dungeon)));
        let level = Cube::level_at(ivec3(0, 0, z));
        let d = s.connected_down.unwrap();
        assert_eq!(d, default_down_stairs(7, level));
        assert_eq!(d.z, level.min.z - 1);
        assert_eq!(snap_stairwell_position(d), d);
    }
    assert_eq!(segment(&skel, ivec3(0, 0, -3)).connected_down, None);

    let lot = construct_lot(&skel, ivec3(0, 0, -2));
    assert_eq!(lot.volume, Cube::level_at(ivec3(0, 0, -2)));
    assert_eq!(lot.sides, 0);
    assert_eq!(lot.up, segment(&skel, ivec3(0, 0, -1)).connected_down);
    assert_eq!(lot.down, segment(&skel, ivec3(0, 0, -2)).connected_down);
}

#[test]
fn prefab_downstairs_connects() {
    let regions = vec![(
        ivec2(1, 0),
        vec![Region::Site(map_of("@.\n.>")), Region::Generate(GenericSector::Dungeon)],
    )];
    let (start, skel) = build_skeleton(3, &regions).unwrap();
    assert_eq!(start, ivec3(48, 0, 0));
    assert_eq!(segment(&skel, ivec3(1, 0, 0)).connected_down, Some(ivec3(49, 1, -1)));
}

#[test]
fn second_start_is_refused() {
    let regions = vec![(ivec2(0, 0), vec![Region::Site(map_of("@.@"))])];
    assert!(matches!(build_skeleton(1, &regions), Err(SkeletonError::SecondStart)));
    let regions = vec![
        (ivec2(0, 0), vec![Region::Site(map_of("@"))]),
        (ivec2(2, 0), vec![Region::Site(map_of("@"))]),
    ];
    assert!(matches!(build_skeleton(1, &regions), Err(SkeletonError::SecondStart)));
}

#[test]
fn missing_start_is_refused() {
    let regions = vec![(ivec2(0, 0), vec![Region::Generate(GenericSector::Dungeon)])];
    assert!(matches!(build_skeleton(1, &regions), Err(SkeletonError::NoStart)));
}

#[test]
fn misaligned_prefab_upstairs_is_refused() {
    let regions = vec![(
        ivec2(0, 0),
        vec![
            Region::Site(map_of("@")),
            Region::Generate(GenericSector::Dungeon),
            Region::Hall(SectorMap::upstairs()),
        ],
    )];
    match build_skeleton(1, &regions) {
        Err(SkeletonError::MisalignedUpstairs(region, found, expected)) => {
            assert_eq!(region, ivec3(0, 0, -2));
            assert_eq!(found, ivec3(1, 1, -3));
            assert_eq!(expected, snap_stairwell_position(found));
            assert_ne!(expected, found);
        }
        _ => panic!("expected a misaligned upstairs"),
    }
}

#[test]
fn aligned_prefab_upstairs_is_used() {
    let corner = Cube::level_at(ivec3(0, 0, -1)).min;
    let q = snap_stairwell_position(ivec3(corner.x + 10, corner.y + 10, corner.z - 1));
    let hall = map_with('<', ivec2(q.x - corner.x, q.y - corner.y));
    let regions = vec![(
        ivec2(0, 0),
        vec![Region::Site(map_of("@")), Region::Generate(GenericSector::Dungeon), Region::Hall(hall)],
    )];
    let (_, skel) = build_skeleton(1, &regions).unwrap();
    assert_eq!(segment(&skel, ivec3(0, 0, -1)).connected_down, Some(q));
}

#[test]
fn surface_site_underground_is_refused() {
    let regions = vec![(
        ivec2(0, 0),
        vec![
            Region::Generate(GenericSector::Dungeon),
            Region::Branch(vec![Region::Site(map_of("@"))]),
        ],
    )];
    assert!(matches!(
        build_skeleton(1, &regions),
        Err(SkeletonError::Unfold(UnfoldError::SurfaceSitesUnderground))
    ));
}

#[test]
fn branch_columns_link_sideways() {
    let regions = vec![(
        ivec2(5, 5),
        vec![
            Region::Site(map_of("@")),
            Region::Branch(vec![Region::Generate(GenericSector::Dungeon)]),
            Region::Generate(GenericSector::Dungeon),
        ],
    )];
    let (_, skel) = build_skeleton(11, &regions).unwrap();
    assert_eq!(skel.len(), 3);
    for i in 0..skel.len() {
        let p = skel.key_at(i);
        let s = skel.value_at(i);
        if s.connected_north {
            assert!(skel.contains_key(&ivec3(p.x, p.y - 1, p.z)));
        }
        if s.connected_west {
            assert!(skel.contains_key(&ivec3(p.x - 1, p.y, p.z)));
        }
    }
}

#[test]
fn consecutive_default_stairs_apart() {
    for seed in [0u64, 1, 99, 12345] {
        for z in -5..5 {
            for x in -2..3 {
                let s = Cube::level_at(ivec3(x, 1, z));
                let above = Cube::level_at(ivec3(x, 1, z + 1));
                let a = default_down_stairs(seed, above);
                let b = default_down_stairs(seed, s);
                assert!(a.x != b.x || a.y != b.y);
                assert_eq!(snap_stairwell_position(b), b);
                assert!(b.x >= s.min.x && b.x < s.max.x && b.y >= s.min.y && b.y < s.max.y);
            }
        }
    }
}
