use magog::assoc::AssocMap;
use magog::data::{GenericSector, Region};
use magog::geom::{ivec2, ivec3, IVec2, IVec3};
use magog::sector_map::SectorMap;
use magog::unfold::{unfold, UnfoldError};

fn kinds(out: &AssocMap<IVec3, Region>) -> Vec<(IVec3, &'static str)> {
    (0..out.len())
        .map(|i| {
            let k = match out.value_at(i) {
                Region::Generate(GenericSector::Dungeon) => "dungeon",
                Region::Generate(_) => "generate",
                Region::Site(_) => "site",
                Region::Hall(_) => "hall",
                _ => "layout",
            };
            (out.key_at(i), k)
        })
        .collect()
}

#[test]
fn unfold_stacks_repeats_downwards() {
    let slice = vec![
        Region::Generate(GenericSector::Grassland),
        Region::Repeat(2, Box::new(Region::Generate(GenericSector::Dungeon))),
        Region::Hall(SectorMap::upstairs()),
    ];
    let mut out = AssocMap::new();
    let mut shafts: Vec<IVec2> = Vec::new();
    assert_eq!(unfold(1, ivec3(3, 4, 0), &mut out, &mut shafts, &slice), Ok(()));
    assert_eq!(
        kinds(&out),
        vec![
            (ivec3(3, 4, 0), "generate"),
            (ivec3(3, 4, -1), "dungeon"),
            (ivec3(3, 4, -2), "dungeon"),
            (ivec3(3, 4, -3), "hall"),
        ]
    );
    assert_eq!(shafts, vec![ivec2(3, 4)]);
}

#[test]
fn unfold_raises_stacked_sites_above_ground() {
    let slice = vec![
        Region::Site(SectorMap::upstairs()),
        Region::Site(SectorMap::downstairs()),
        Region::Generate(GenericSector::Dungeon),
    ];
    let mut out = AssocMap::new();
    let mut shafts = Vec::new();
    assert_eq!(unfold(1, ivec3(0, 0, 0), &mut out, &mut shafts, &slice), Ok(()));
    assert_eq!(
        kinds(&out),
        vec![(ivec3(0, 0, 1), "site"), (ivec3(0, 0, 0), "site"), (ivec3(0, 0, -1), "dungeon")]
    );
}

#[test]
fn unfold_refuses_sites_underground() {
    let slice = vec![Region::Site(SectorMap::upstairs())];
    let mut out = AssocMap::new();
    let mut shafts = Vec::new();
    assert_eq!(
        unfold(1, ivec3(0, 0, -1), &mut out, &mut shafts, &slice),
        Err(UnfoldError::SurfaceSitesUnderground)
    );
    assert_eq!(out.len(), 0);
}

#[test]
fn unfold_branches_to_a_free_neighbor() {
    let slice = vec![
        Region::Generate(GenericSector::Grassland),
        Region::Branch(vec![Region::Generate(GenericSector::Dungeon)]),
        Region::Generate(GenericSector::Dungeon),
    ];
    let mut out = AssocMap::new();
    let mut shafts = Vec::new();
    assert_eq!(unfold(9, ivec3(10, 10, 0), &mut out, &mut shafts, &slice), Ok(()));
    let k = kinds(&out);
    assert_eq!(k.len(), 3);
    assert_eq!(k[0], (ivec3(10, 10, 0), "generate"));
    // The branch starts beside the column, at the level it branches off.
    let (b, kind) = k[1];
    assert_eq!(kind, "dungeon");
    assert_eq!(b.z, -1);
    assert_eq!((b.x - 10).abs() + (b.y - 10).abs(), 1);
    assert_eq!(k[2], (ivec3(10, 10, -1), "dungeon"));
    assert_eq!(shafts, vec![ivec2(10, 10), ivec2(b.x, b.y)]);
}

#[test]
fn unfold_needs_room_for_branch() {
    let slice = vec![Region::Branch(vec![Region::Generate(GenericSector::Dungeon)])];
    let mut out = AssocMap::new();
    let mut shafts = vec![ivec2(0, -1), ivec2(1, 0), ivec2(0, 1), ivec2(-1, 0)];
    assert_eq!(
        unfold(0, ivec3(0, 0, 0), &mut out, &mut shafts, &slice),
        Err(UnfoldError::NoRoomForBranch)
    );
}

#[test]
fn region_counts_and_kinds() {
    let r = Region::Repeat(3, Box::new(Region::Repeat(2, Box::new(Region::Site(SectorMap::upstairs())))));
    assert_eq!(r.count(), 6);
    assert_eq!(r.height(), 6);
    assert!(r.is_site());
    assert!(r.is_prefab());
    assert_eq!(Region::Branch(vec![]).count(), 0);
    assert_eq!(Region::Site(SectorMap::upstairs()).fixed_upstairs(), Some(ivec2(1, 1)));
    assert_eq!(Region::Generate(GenericSector::Forest).fixed_upstairs(), None);
}
