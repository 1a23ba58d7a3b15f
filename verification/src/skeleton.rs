//! The world skeleton: which sectors of the world exist, how each gets its
//! map and how sectors connect to their neighbors and the levels below.

use vstd::prelude::*;

use vstd::string::StrSliceExecFns;

use crate::rng::{draw_seeded, place_seed, seed_for_place, seeded_draw};
use crate::assoc::{AssocMap, keys_distinct, lemma_key_index, seq_get, seq_has_key, seq_insert, seq_key_index};
use crate::data::{GenericSector, Region};
use crate::geom::{Cube, IVec2, IVec3, Rect, ivec3, spec_ivec2, spec_ivec3};
use crate::sector_map::{SectorMap, cells_of, first_position, lemma_cells_bounded_len, positions_of};
use crate::unfold::{
    RegionView, UnfoldError, region_view, tree_ok, unfold, unfold_bounds, unfold_spec, views,
};
use crate::zone::{level_basis, spec_cell};
use crate::location::{LEVEL_DEPTH, SECTOR_HEIGHT, SECTOR_WIDTH, spec_sector};
use crate::stairs::{
    Lot, chessboard_ok, lemma_snap_to_chessboard, spec_snap_to_chessboard, lemma_stairwells_apart, snap_stairwell_position,
    spec_snap_stairwell, square_color, stairwell_bounds, stairwell_ok, stairs_error,
};

verus! {

/// A level-sized box: a sector of the lattice, `LEVEL_DEPTH` deep, with the
/// layer below it and its stairwell snapping in the `i32` range.
pub open spec fn level_box(s: Cube) -> bool {
    &&& s.max.x - s.min.x == SECTOR_WIDTH
    &&& s.max.y - s.min.y == SECTOR_HEIGHT
    &&& s.max.z - s.min.z == LEVEL_DEPTH
    &&& s.min.x % SECTOR_WIDTH == 0
    &&& s.min.y % SECTOR_HEIGHT == 0
    &&& s.min.z % LEVEL_DEPTH == 0
    &&& s.max.x + 3 <= i32::MAX
    &&& s.min.z > i32::MIN
}

/// The point of the layer just below a level where its default downstairs
/// is looked for: drawn by the generator seeded for the world seed and the
/// level's corner.
pub open spec fn stair_scatter(seed: u64, s: Cube) -> IVec3 {
    let k = place_seed(seed, s.min);
    spec_ivec3(
        s.min.x + (seeded_draw(k, 48) % 48) as int,
        s.min.y + (seeded_draw(k ^ 1u64, 40) % 40) as int,
        s.min.z - 1,
    )
}

/// Default downstairs position of a level.
pub open spec fn spec_default_down_stairs(seed: u64, s: Cube) -> IVec3 {
    spec_snap_stairwell(stair_scatter(seed, s))
}

/// Default downstairs position of a level for a given world seed: a point
/// of the layer below the level, snapped to the stairwell grid.
pub fn default_down_stairs(seed: u64, s: Cube) -> (r: IVec3)
    requires
        level_box(s),
    ensures
        r == spec_default_down_stairs(seed, s),
{
    let k = seed_for_place(seed, s.min);
    let dx = draw_seeded(k, 48);
    let dy = draw_seeded(k ^ 1u64, 40);
    let p = ivec3(s.min.x + dx as i32, s.min.y + dy as i32, s.min.z - 1);
    snap_stairwell_position(p)
}

/// A point inside a sector has that sector.
proof fn lemma_same_sector(a: int, r: int, w: int)
    requires
        w > 0,
        a % w == 0,
        0 <= r < w,
    ensures
        (a + r) / w * w == a,
{
    assert((a + r) / w == a / w) by (nonlinear_arith)
        requires
            w > 0,
            a % w == 0,
            0 <= r < w,
    ;
    assert(a / w * w == a) by (nonlinear_arith)
        requires
            w > 0,
            a % w == 0,
    ;
}

/// A point at the center of a square of the right color inside the bounds
/// stays where it is when snapped.
proof fn lemma_chessboard_fixed(parity: int, b: Rect, pos: IVec2)
    requires
        chessboard_ok(b),
        b.spec_contains(pos),
        (pos.x - b.min.x) % 4 == 2,
        (pos.y - b.min.y) % 4 == 2,
        square_color(b.min, pos) == parity % 2,
    ensures
        spec_snap_to_chessboard(parity, b, pos) == pos,
{
    let o = b.min;
    let w = b.max.x - b.min.x;
    let h = b.max.y - b.min.y;
    let cx = ((pos.x - o.x) / 4) * 4 + 2;
    let cy = ((pos.y - o.y) / 4) * 4 + 2;
    assert(cx == pos.x - o.x);
    assert(cy == pos.y - o.y);
    vstd::arithmetic::div_mod::lemma_small_mod(cx as nat, w as nat);
    vstd::arithmetic::div_mod::lemma_small_mod(cy as nat, h as nat);
}

/// Snapping a stairwell position keeps its level and its sector, gives even
/// coordinates at least four cells inside the sector, and leaves an
/// already snapped position in place.
#[verifier::spinoff_prover]
pub proof fn lemma_snap_stairwell_fixed(loc: IVec3)
    requires
        stairwell_ok(loc),
    ensures
        spec_snap_stairwell(spec_snap_stairwell(loc)) == spec_snap_stairwell(loc),
        spec_snap_stairwell(loc).z == loc.z,
        spec_sector(spec_snap_stairwell(loc)) == spec_sector(loc),
        spec_snap_stairwell(loc).x % 2 == 0,
        spec_snap_stairwell(loc).y % 2 == 0,
        spec_sector(loc).x + 4 <= spec_snap_stairwell(loc).x < spec_sector(loc).x + SECTOR_WIDTH - 4,
        spec_sector(loc).y + 4 <= spec_snap_stairwell(loc).y < spec_sector(loc).y + SECTOR_HEIGHT - 4,
{
    let kx = loc.x as int / SECTOR_WIDTH as int;
    let ky = loc.y as int / SECTOR_HEIGHT as int;
    assert((kx * 48) % 2 == 0) by (nonlinear_arith);
    assert((ky * 40) % 2 == 0) by (nonlinear_arith);
    let q = spec_snap_stairwell(loc);
    let b = stairwell_bounds(loc);
    let s = spec_sector(loc);
    let parity = loc.z as int / LEVEL_DEPTH as int;
    let p2 = spec_ivec2(loc.x as int, loc.y as int);
    lemma_snap_to_chessboard(parity, b, p2);
    let r = spec_snap_to_chessboard(parity, b, p2);
    assert(q == spec_ivec3(r.x as int, r.y as int, loc.z as int));
    lemma_same_sector(s.x as int, q.x - s.x, SECTOR_WIDTH as int);
    lemma_same_sector(s.y as int, q.y - s.y, SECTOR_HEIGHT as int);
    assert(spec_sector(q) == s);
    assert(stairwell_bounds(q) == b);
    let qq = spec_ivec2(q.x as int, q.y as int);
    assert(qq == r);
    lemma_chessboard_fixed(parity, b, qq);
}

/// The default downstairs of a level and that of the level above it never
/// share a horizontal position, so the level's own up and down stairwells
/// stay apart.
pub proof fn lemma_default_stairs_apart(seed: u64, s: Cube, above: Cube)
    requires
        level_box(s),
        level_box(above),
        above.min == spec_ivec3(s.min.x as int, s.min.y as int, s.min.z + LEVEL_DEPTH),
    ensures
        spec_default_down_stairs(seed, above).x != spec_default_down_stairs(seed, s).x
            || spec_default_down_stairs(seed, above).y != spec_default_down_stairs(seed, s).y,
{
    let a = stair_scatter(seed, above);
    let b = stair_scatter(seed, s);
    lemma_same_sector(s.min.x as int, a.x - s.min.x, SECTOR_WIDTH as int);
    lemma_same_sector(s.min.y as int, a.y - s.min.y, SECTOR_HEIGHT as int);
    lemma_same_sector(s.min.x as int, b.x - s.min.x, SECTOR_WIDTH as int);
    lemma_same_sector(s.min.y as int, b.y - s.min.y, SECTOR_HEIGHT as int);
    assert((a.z as int / LEVEL_DEPTH as int) % 2 != (b.z as int / LEVEL_DEPTH as int) % 2) by {
        let k = s.min.z / 2;
        assert(s.min.z == 2 * k);
        assert(a.z == 2 * k + 1);
        assert(b.z == 2 * k - 1);
    }
    lemma_stairwells_apart(a, b);
}

/// Why the world skeleton could not be built.
#[derive(Copy, Clone, PartialEq, Eq, Structural, Debug)]
pub enum SkeletonError {
    /// A column of regions could not be unfolded.
    Unfold(UnfoldError),
    /// The prefab level below the region at the first position fixes its
    /// upstairs at the second position, off the stairwell grid; the third
    /// is the closest grid position.
    MisalignedUpstairs(IVec3, IVec3, IVec3),
    /// The scenario defines more than one start location.
    SecondStart,
    /// The scenario defines no start location.
    NoStart,
    /// A region lies too far out, or its prefab map is too large, for the
    /// world's coordinates.
    OutOfRange(IVec3),
}

/// How a sector of the skeleton gets its map.
pub enum SegmentMap {
    /// Generated by the given procedural generator.
    Generate(GenericSector),
    /// A prefab map laid out from the sector's corner.
    Prefab(SectorMap),
}

/// A sector of the world skeleton and its connections. Sideways
/// connections are given towards north and west only; the opposite ones
/// are found on the neighboring segments.
pub struct Segment {
    pub connected_north: bool,
    pub connected_west: bool,
    /// Where the stairwell down to the level below goes, if there is one.
    pub connected_down: Option<IVec3>,
    pub map: SegmentMap,
}

/// What a segment's map is made from.
pub ghost enum SegmentMapView {
    Generate(GenericSector),
    Prefab((Seq<char>, Seq<char>, Seq<(char, String)>)),
}

/// A segment as a mathematical value.
pub open spec fn segment_view(s: Segment) -> (bool, bool, Option<IVec3>, SegmentMapView) {
    (
        s.connected_north,
        s.connected_west,
        s.connected_down,
        match s.map {
            SegmentMap::Generate(g) => SegmentMapView::Generate(g),
            SegmentMap::Prefab(m) => SegmentMapView::Prefab(m@),
        },
    )
}

/// Segments by lattice position, as mathematical values.
pub open spec fn skeleton_views(s: Seq<(IVec3, Segment)>) -> Seq<
    (IVec3, (bool, bool, Option<IVec3>, SegmentMapView)),
> {
    s.map_values(|e: (IVec3, Segment)| (e.0, segment_view(e.1)))
}

/// Lattice positions near enough to the origin for every location the
/// skeleton computes from them.
pub open spec fn grid_ok(p: IVec3) -> bool {
    -0x10_0000 <= p.x <= 0x10_0000 && -0x10_0000 <= p.y <= 0x10_0000 && -0x10_0000 <= p.z
        <= 0x10_0000
}

/// A lattice position moved by a delta.
pub open spec fn moved(p: IVec3, dx: int, dy: int, dz: int) -> IVec3 {
    spec_ivec3(p.x + dx, p.y + dy, p.z + dz)
}

/// Lowest corner of the level at lattice position `p`.
pub open spec fn level_corner(p: IVec3) -> IVec3 {
    spec_ivec3(SECTOR_WIDTH * p.x, SECTOR_HEIGHT * p.y, LEVEL_DEPTH * p.z)
}

/// The sector at `p` connects sideways to its neighbor `n` when `n` holds a
/// region and one of the two is the top of its column.
pub open spec fn side_link(b: Seq<(IVec3, RegionView)>, p: IVec3, n: IVec3) -> bool {
    seq_has_key(b, n) && (!seq_has_key(b, moved(p, 0, 0, 1)) || !seq_has_key(b, moved(n, 0, 0, 1)))
}

/// The prefab map of a region, if it has one.
pub open spec fn view_map(v: RegionView) -> Option<(Seq<char>, Seq<char>, Seq<(char, String)>)> {
    match v {
        RegionView::Site(m) => Some(m),
        RegionView::Hall(m) => Some(m),
        _ => None,
    }
}

/// A region without a prefab map, or with one small enough for the grid.
pub open spec fn view_small(v: RegionView) -> bool {
    match view_map(v) {
        Some(m) => m.1.len() <= 0x10_0000,
        None => true,
    }
}

/// Upstairs position that a region's prefab map fixes, if any.
pub open spec fn view_fixed_upstairs(v: RegionView) -> Option<IVec2> {
    match view_map(v) {
        Some(m) => first_position(cells_of(m.1), '<'),
        None => None,
    }
}

/// Where the sector at `p`, holding `v`, connects down: nowhere without a
/// region below or for a prefab; to the upstairs that a prefab below fixes,
/// which must sit on the stairwell grid; otherwise to the default
/// downstairs of the level.
pub open spec fn down_link(seed: u64, b: Seq<(IVec3, RegionView)>, p: IVec3, v: RegionView) -> Result<
    Option<IVec3>,
    SkeletonError,
> {
    let below = moved(p, 0, 0, -1);
    match seq_get(b, below) {
        None => Ok(None),
        Some(a) => if view_map(v) is Some {
            Ok(None)
        } else if !view_small(a) {
            Err(SkeletonError::OutOfRange(below))
        } else {
            match view_fixed_upstairs(a) {
                Some(pos) => {
                    let c = level_corner(p);
                    let loc = spec_ivec3(c.x + pos.x, c.y + pos.y, c.z - 1);
                    if loc != spec_snap_stairwell(loc) {
                        Err(SkeletonError::MisalignedUpstairs(below, loc, spec_snap_stairwell(loc)))
                    } else {
                        Ok(Some(loc))
                    }
                },
                None => Ok(Some(spec_default_down_stairs(seed, spec_cell(level_basis(), p)))),
            }
        },
    }
}

/// Start location after going through the entrances of a prefab map laid
/// out from `c`: the first entrance found becomes the start, any other is
/// an error.
pub open spec fn start_fold(start: Option<IVec3>, es: Seq<IVec2>, c: IVec3) -> Result<
    Option<IVec3>,
    SkeletonError,
>
    decreases es.len(),
{
    if es.len() == 0 {
        Ok(start)
    } else {
        match start_fold(start, es.drop_last(), c) {
            Ok(None) => Ok(Some(spec_ivec3(c.x + es.last().x, c.y + es.last().y, c.z as int))),
            Ok(Some(_)) => Err(SkeletonError::SecondStart),
            Err(e) => Err(e),
        }
    }
}

/// Skeleton state: the start location found so far and the segments.
pub type SkeletonState = (Option<IVec3>, Seq<(IVec3, (bool, bool, Option<IVec3>, SegmentMapView))>);

/// Add the segment for the region `v` at `p` of the unfolded branch `b`.
#[verifier::opaque]
pub open spec fn entry_step(
    seed: u64,
    b: Seq<(IVec3, RegionView)>,
    p: IVec3,
    v: RegionView,
    st: SkeletonState,
) -> Result<SkeletonState, SkeletonError> {
    if !grid_ok(p) {
        Err(SkeletonError::OutOfRange(p))
    } else {
        match down_link(seed, b, p, v) {
            Err(e) => Err(e),
            Ok(down) => match v {
                RegionView::Generate(g) => Ok(
                    (
                        st.0,
                        seq_insert(
                            st.1,
                            p,
                            (
                                side_link(b, p, moved(p, 0, -1, 0)),
                                side_link(b, p, moved(p, -1, 0, 0)),
                                down,
                                SegmentMapView::Generate(g),
                            ),
                        ),
                    ),
                ),
                RegionView::Layout => Ok(st),
                _ => {
                    let m = view_map(v).unwrap();
                    if m.1.len() > 0x10_0000 {
                        Err(SkeletonError::OutOfRange(p))
                    } else {
                        let c = level_corner(p);
                        match start_fold(st.0, positions_of(cells_of(m.1), '@'), c) {
                            Err(e) => Err(e),
                            Ok(s2) => Ok(
                                (
                                    s2,
                                    seq_insert(
                                        st.1,
                                        p,
                                        (
                                            false,
                                            false,
                                            match first_position(cells_of(m.1), '>') {
                                                Some(q) => Some(spec_ivec3(c.x + q.x, c.y + q.y, c.z - 1)),
                                                None => None,
                                            },
                                            SegmentMapView::Prefab(m),
                                        ),
                                    ),
                                ),
                            ),
                        }
                    }
                },
            },
        }
    }
}

/// A listed position of a character is the position of one of the cells.
proof fn lemma_position_member(cells: Seq<(IVec2, char)>, c: char, j: int)
    requires
        0 <= j < positions_of(cells, c).len(),
    ensures
        exists|k: int| 0 <= k < cells.len() && (#[trigger] cells[k]).0 == positions_of(cells, c)[j],
    decreases cells.len(),
{
    let u = cells.drop_last();
    if j < positions_of(u, c).len() {
        lemma_position_member(u, c, j);
        let k = choose|k: int| 0 <= k < u.len() && (#[trigger] u[k]).0 == positions_of(u, c)[j];
        assert(cells[k] == u[k]);
    } else {
        assert(cells[cells.len() - 1].0 == positions_of(cells, c)[j]);
    }
}

/// Positions of characters in a small map are small.
proof fn lemma_small_positions(m: Seq<char>, c: char, j: int)
    requires
        m.len() <= 0x10_0000,
        0 <= j < positions_of(cells_of(m), c).len(),
    ensures
        0 <= positions_of(cells_of(m), c)[j].x < 0x10_0000,
        0 <= positions_of(cells_of(m), c)[j].y < 0x10_0000,
{
    lemma_position_member(cells_of(m), c, j);
    lemma_cells_bounded_len(m);
    let k = choose|k: int|
        0 <= k < cells_of(m).len() && (#[trigger] cells_of(m)[k]).0 == positions_of(cells_of(m), c)[j];
    assert(0 <= cells_of(m)[k].0.x < m.len());
}

/// Looking up entries commutes with taking their views.
proof fn lemma_skeleton_insert(s: Seq<(IVec3, Segment)>, k: IVec3, v: Segment)
    requires
        keys_distinct(s),
    ensures
        skeleton_views(seq_insert(s, k, v)) == seq_insert(skeleton_views(s), k, segment_view(v)),
{
    let w = skeleton_views(s);
    assert forall|i: int, j: int| 0 <= i < j < w.len() implies (#[trigger] w[i]).0 != (#[trigger] w[j]).0 by {
        assert(s[i].0 != s[j].0);
    }
    assert forall|i: int| 0 <= i < s.len() implies (#[trigger] w[i]).0 == s[i].0 by {}
    assert(seq_has_key(s, k) == seq_has_key(w, k)) by {
        if seq_has_key(s, k) {
            let i = choose|i: int| 0 <= i < s.len() && (#[trigger] s[i]).0 == k;
            assert(w[i].0 == k);
        }
        if seq_has_key(w, k) {
            let i = choose|i: int| 0 <= i < w.len() && (#[trigger] w[i]).0 == k;
            assert(s[i].0 == k);
        }
    }
    if seq_has_key(s, k) {
        let i = seq_key_index(s, k);
        lemma_key_index(s, i);
        lemma_key_index(w, i);
        assert(seq_key_index(w, k) == i);
        assert(skeleton_views(s.update(i, (k, v))) =~= w.update(i, (k, segment_view(v))));
    } else {
        assert(skeleton_views(s.push((k, v))) =~= w.push((k, segment_view(v))));
    }
}

/// The level at a lattice position near the origin is a level box with the
/// expected corner.
proof fn lemma_level_cell(p: IVec3)
    requires
        grid_ok(p),
    ensures
        level_box(spec_cell(level_basis(), p)),
        spec_cell(level_basis(), p).min == level_corner(p),
        crate::geom::in_i32(SECTOR_WIDTH * p.x) && crate::geom::in_i32(SECTOR_WIDTH * (p.x + 1)),
        crate::geom::in_i32(SECTOR_HEIGHT * p.y) && crate::geom::in_i32(SECTOR_HEIGHT * (p.y + 1)),
        crate::geom::in_i32(LEVEL_DEPTH * p.z) && crate::geom::in_i32(LEVEL_DEPTH * (p.z + 1)),
{
    let b = level_basis();
    assert(b.x == 48 && b.y == 40 && b.z == 2);
    let c = spec_cell(b, p);
    assert(c.min.x == 48 * p.x);
    assert(c.max.x == 48 * (p.x + 1));
    assert(c.min.y == 40 * p.y);
    assert(c.max.y == 40 * (p.y + 1));
    assert(c.min.z == 2 * p.z);
    assert(c.max.z == 2 * (p.z + 1));
    assert((48 * p.x) % 48 == 0) by (nonlinear_arith);
    assert((40 * p.y) % 40 == 0) by (nonlinear_arith);
    assert((2 * p.z) % 2 == 0) by (nonlinear_arith);
}

/// Add the segment for the region at index `i` of an unfolded branch.
#[verifier::loop_isolation(false)]
fn add_segment(
    seed: u64,
    branch: &AssocMap<IVec3, Region>,
    i: usize,
    start: &mut Option<IVec3>,
    skeleton: &mut AssocMap<IVec3, Segment>,
) -> (r: Result<(), SkeletonError>)
    requires
        branch.wf(),
        old(skeleton).wf(),
        i < branch@.len(),
    ensures
        final(skeleton).wf(),
        match entry_step(
            seed,
            views(branch@),
            branch@[i as int].0,
            region_view(branch@[i as int].1),
            (*old(start), skeleton_views(old(skeleton)@)),
        ) {
            Err(e) => r == Err::<(), SkeletonError>(e),
            Ok(st) => r is Ok && *final(start) == st.0 && skeleton_views(final(skeleton)@) == st.1,
        },
{
    reveal(entry_step);
    let ghost b = views(branch@);
    let p = branch.key_at(i);
    let r = branch.value_at(i);
    proof {
        lemma_key_index(branch@, i as int);
        assert(b[i as int] == (p, region_view(*r)));
        assert forall|q: IVec3| #[trigger] seq_has_key(b, q) == seq_has_key(branch@, q) by {
            if seq_has_key(b, q) {
                let k = choose|k: int| 0 <= k < b.len() && (#[trigger] b[k]).0 == q;
                assert(branch@[k].0 == q);
            }
            if seq_has_key(branch@, q) {
                let k = choose|k: int| 0 <= k < branch@.len() && (#[trigger] branch@[k]).0 == q;
                assert(b[k].0 == q);
            }
        }
    }
    if !(-0x10_0000 <= p.x && p.x <= 0x10_0000 && -0x10_0000 <= p.y && p.y <= 0x10_0000
        && -0x10_0000 <= p.z && p.z <= 0x10_0000) {
        return Err(SkeletonError::OutOfRange(p));
    }
    proof {
        lemma_level_cell(p);
    }
    let s = Cube::level_at(p);
    let origin = s.min;
    let below = ivec3(p.x, p.y, p.z - 1);
    let prefab = match r {
        Region::Site(_) | Region::Hall(_) => true,
        _ => false,
    };
    let down: Option<IVec3> = match branch.get(&below) {
        None => None,
        Some(a) => {
            proof {
                let k = seq_key_index(branch@, below);
                lemma_key_index(branch@, k);
                assert(b[k] == (below, region_view(*a)));
                lemma_key_index(b, k);
                assert(seq_get(b, below) == Some(region_view(*a)));
            }
            if prefab {
                None
            } else {
                let small = match a {
                    Region::Site(m) | Region::Hall(m) => m.map.as_str().unicode_len() <= 0x10_0000,
                    _ => true,
                };
                if !small {
                    return Err(SkeletonError::OutOfRange(below));
                }
                match a.fixed_upstairs() {
                    Some(pos) => {
                        proof {
                            let m = view_map(region_view(*a)).unwrap();
                            lemma_small_positions(m.1, '<', 0);
                        }
                        let loc = ivec3(origin.x + pos.x, origin.y + pos.y, origin.z - 1);
                        let aligned = snap_stairwell_position(loc);
                        if loc != aligned {
                            return Err(SkeletonError::MisalignedUpstairs(below, loc, aligned));
                        }
                        Some(loc)
                    },
                    None => Some(default_down_stairs(seed, s)),
                }
            }
        },
    };
    proof {
        if seq_get(branch@, below) is None {
            if seq_has_key(b, below) {
                assert(seq_has_key(branch@, below));
            }
        }
    }
    assert(down_link(seed, b, p, region_view(*r)) == Ok::<Option<IVec3>, SkeletonError>(down));
    let up = ivec3(p.x, p.y, p.z + 1);
    let is_top = !branch.contains_key(&up);
    let n = ivec3(p.x, p.y - 1, p.z);
    let w = ivec3(p.x - 1, p.y, p.z);
    let connected_north = branch.contains_key(&n) && (is_top || !branch.contains_key(
        &ivec3(n.x, n.y, n.z + 1),
    ));
    let connected_west = branch.contains_key(&w) && (is_top || !branch.contains_key(
        &ivec3(w.x, w.y, w.z + 1),
    ));
    assert(connected_north == side_link(b, p, moved(p, 0, -1, 0)));
    assert(connected_west == side_link(b, p, moved(p, -1, 0, 0)));
    match r {
        Region::Generate(g) => {
            let seg = Segment {
                connected_north,
                connected_west,
                connected_down: down,
                map: SegmentMap::Generate(*g),
            };
            proof {
                lemma_skeleton_insert(skeleton@, p, seg);
            }
            skeleton.insert(p, seg);
            Ok(())
        },
        Region::Site(m) | Region::Hall(m) => {
            if m.map.as_str().unicode_len() > 0x10_0000 {
                return Err(SkeletonError::OutOfRange(p));
            }
            let es = m.entrances();
            let ghost st0 = *start;
            let ne = es.len();
            let mut k: usize = 0;
            while k < ne
                invariant
                    ne == es@.len(),
                    k <= ne,
                    es@ == positions_of(cells_of(m.map@), '@'),
                    m.map@.len() <= 0x10_0000,
                    origin == level_corner(p),
                    grid_ok(p),
                    start_fold(st0, es@.take(k as int), origin) == Ok::<
                        Option<IVec3>,
                        SkeletonError,
                    >(*start),
                decreases ne - k,
            {
                proof {
                    lemma_small_positions(m.map@, '@', k as int);
                    assert(es@.take(k + 1).drop_last() == es@.take(k as int));
                }
                let e = es[k];
                if start.is_none() {
                    *start = Some(ivec3(origin.x + e.x, origin.y + e.y, origin.z));
                } else {
                    assert(start_fold(st0, es@.take(k + 1), origin) == Err::<
                        Option<IVec3>,
                        SkeletonError,
                    >(SkeletonError::SecondStart));
                    proof {
                        lemma_start_fold_err(st0, es@, origin, k as int + 1);
                    }
                    return Err(SkeletonError::SecondStart);
                }
                k += 1;
            }
            assert(es@.take(ne as int) == es@);
            let d = match m.find_downstairs() {
                Some(q) => {
                    proof {
                        lemma_small_positions(m.map@, '>', 0);
                    }
                    Some(ivec3(origin.x + q.x, origin.y + q.y, origin.z - 1))
                },
                None => None,
            };
            let seg = Segment {
                connected_north: false,
                connected_west: false,
                connected_down: d,
                map: SegmentMap::Prefab(m.clone()),
            };
            proof {
                lemma_skeleton_insert(skeleton@, p, seg);
            }
            skeleton.insert(p, seg);
            Ok(())
        },
        _ => Ok(()),
    }
}

/// Once going through the entrances fails, it fails the same way to the
/// end.
proof fn lemma_start_fold_err(start: Option<IVec3>, es: Seq<IVec2>, c: IVec3, k: int)
    requires
        0 <= k <= es.len(),
        start_fold(start, es.take(k), c) is Err,
    ensures
        start_fold(start, es, c) == start_fold(start, es.take(k), c),
    decreases es.len() - k,
{
    if k < es.len() {
        assert(es.take(k + 1).drop_last() == es.take(k));
        lemma_start_fold_err(start, es, c, k + 1);
    } else {
        assert(es.take(k) == es);
    }
}

/// Add the segments for the first `n` regions of the unfolded branch `b`.
pub open spec fn branch_fold(seed: u64, b: Seq<(IVec3, RegionView)>, n: int, st: SkeletonState) -> Result<
    SkeletonState,
    SkeletonError,
>
    decreases n,
{
    if n <= 0 {
        Ok(st)
    } else {
        match branch_fold(seed, b, n - 1, st) {
            Err(e) => Err(e),
            Ok(st2) => entry_step(seed, b, b[n - 1].0, b[n - 1].1, st2),
        }
    }
}

/// Unfold the first `n` scenario regions in turn, sharing the shaft
/// positions, and add the segments of each unfolded branch.
pub open spec fn regions_fold(seed: u64, rs: Seq<(IVec2, Seq<Region>)>, n: int) -> Result<
    (SkeletonState, Seq<IVec2>),
    SkeletonError,
>
    decreases n,
{
    if n <= 0 {
        Ok(((None, Seq::empty()), Seq::empty()))
    } else {
        match regions_fold(seed, rs, n - 1) {
            Err(e) => Err(e),
            Ok((st, shafts)) => {
                let u = unfold_spec(
                    seed,
                    spec_ivec3(rs[n - 1].0.x as int, rs[n - 1].0.y as int, 0),
                    Seq::empty(),
                    shafts,
                    rs[n - 1].1,
                );
                match u.0 {
                    Err(e) => Err(SkeletonError::Unfold(e)),
                    Ok(_) => match branch_fold(seed, u.1, u.1.len() as int, st) {
                        Err(e) => Err(e),
                        Ok(st2) => Ok((st2, u.2)),
                    },
                }
            },
        }
    }
}

/// The skeleton built from the scenario's regions: the start location and
/// the segments, or the first error met; a scenario without a start
/// location is an error too.
pub open spec fn spec_build_skeleton(seed: u64, rs: Seq<(IVec2, Seq<Region>)>) -> Result<
    (IVec3, Seq<(IVec3, (bool, bool, Option<IVec3>, SegmentMapView))>),
    SkeletonError,
> {
    match regions_fold(seed, rs, rs.len() as int) {
        Err(e) => Err(e),
        Ok((st, _)) => match st.0 {
            None => Err(SkeletonError::NoStart),
            Some(p) => Ok((p, st.1)),
        },
    }
}

/// The scenario regions as sequences.
pub open spec fn region_seqs(rs: Seq<(IVec2, Vec<Region>)>) -> Seq<(IVec2, Seq<Region>)> {
    rs.map_values(|e: (IVec2, Vec<Region>)| (e.0, e.1@))
}

proof fn lemma_branch_fold_err(seed: u64, b: Seq<(IVec3, RegionView)>, n: int, m: int, st: SkeletonState)
    requires
        0 <= n <= m,
        branch_fold(seed, b, n, st) is Err,
    ensures
        branch_fold(seed, b, m, st) == branch_fold(seed, b, n, st),
    decreases m - n,
{
    if n < m {
        lemma_branch_fold_err(seed, b, n, m - 1, st);
    }
}

proof fn lemma_regions_fold_err(seed: u64, rs: Seq<(IVec2, Seq<Region>)>, n: int, m: int)
    requires
        0 <= n <= m,
        regions_fold(seed, rs, n) is Err,
    ensures
        regions_fold(seed, rs, m) == regions_fold(seed, rs, n),
    decreases m - n,
{
    if n < m {
        lemma_regions_fold_err(seed, rs, n, m - 1);
    }
}

/// Add the segments of every region of an unfolded branch, in order.
fn add_branch(
    seed: u64,
    branch: &AssocMap<IVec3, Region>,
    start: &mut Option<IVec3>,
    skeleton: &mut AssocMap<IVec3, Segment>,
) -> (r: Result<(), SkeletonError>)
    requires
        branch.wf(),
        old(skeleton).wf(),
    ensures
        final(skeleton).wf(),
        match branch_fold(
            seed,
            views(branch@),
            branch@.len() as int,
            (*old(start), skeleton_views(old(skeleton)@)),
        ) {
            Err(e) => r == Err::<(), SkeletonError>(e),
            Ok(st) => r is Ok && *final(start) == st.0 && skeleton_views(final(skeleton)@) == st.1,
        },
{
    let ghost b = views(branch@);
    let ghost st0: SkeletonState = (*start, skeleton_views(skeleton@));
    assert(b.len() == branch@.len());
    let nb = branch.len();
    let mut j: usize = 0;
    while j < nb
        invariant
            nb == branch@.len(),
            b == views(branch@),
            b.len() == nb,
            st0 == (*old(start), skeleton_views(old(skeleton)@)),
            branch.wf(),
            j <= nb,
            skeleton.wf(),
            branch_fold(seed, b, j as int, st0) == Ok::<SkeletonState, SkeletonError>(
                (*start, skeleton_views(skeleton@)),
            ),
        decreases nb - j,
    {
        assert(b[j as int] == (branch@[j as int].0, region_view(branch@[j as int].1)));
        let ghost pre: SkeletonState = (*start, skeleton_views(skeleton@));
        assert(branch_fold(seed, b, j as int + 1, st0) == entry_step(
            seed,
            b,
            b[j as int].0,
            b[j as int].1,
            pre,
        ));
        match add_segment(seed, branch, j, start, skeleton) {
            Err(e) => {
                proof {
                    assert(branch_fold(seed, b, j as int + 1, st0) == Err::<SkeletonState, SkeletonError>(e));
                    lemma_branch_fold_err(seed, b, j as int + 1, b.len() as int, st0);
                    assert(branch_fold(seed, views(branch@), branch@.len() as int, st0) == Err::<
                        SkeletonState,
                        SkeletonError,
                    >(e));
                    assert(st0 == (*old(start), skeleton_views(old(skeleton)@)));
                }
                return Err(e);
            },
            Ok(()) => {},
        }
        j += 1;
    }
    Ok(())
}

/// Build the world skeleton from the scenario's regions, given as the
/// positions of the scenario map and the column of regions at each:
/// unfold every column, sharing the shaft positions, and make a segment for
/// every unfolded region; the scenario's one entrance is the start
/// location.
pub fn build_skeleton(seed: u64, regions: &Vec<(IVec2, Vec<Region>)>) -> (r: Result<
    (IVec3, AssocMap<IVec3, Segment>),
    SkeletonError,
>)
    requires
        forall|i: int|
            0 <= i < regions@.len() ==> tree_ok((#[trigger] regions@[i]).1@, 0) && unfold_bounds(
                spec_ivec3(regions@[i].0.x as int, regions@[i].0.y as int, 0),
                regions@[i].1@,
            ),
    ensures
        match spec_build_skeleton(seed, region_seqs(regions@)) {
            Err(e) => r matches Err(e2) && e2 == e,
            Ok((p, k)) => r matches Ok((p2, m)) && p2 == p && m.wf() && skeleton_views(m@) == k,
        },
{
    let ghost rs = region_seqs(regions@);
    let mut start: Option<IVec3> = None;
    let mut skeleton: AssocMap<IVec3, Segment> = AssocMap::new();
    let mut shafts: Vec<IVec2> = Vec::new();
    assert(skeleton_views(skeleton@) =~= Seq::empty());
    let n = regions.len();
    let mut i: usize = 0;
    while i < n
        invariant
            n == regions@.len(),
            rs == region_seqs(regions@),
            i <= n,
            forall|k: int|
                0 <= k < regions@.len() ==> tree_ok((#[trigger] regions@[k]).1@, 0) && unfold_bounds(
                    spec_ivec3(regions@[k].0.x as int, regions@[k].0.y as int, 0),
                    regions@[k].1@,
                ),
            skeleton.wf(),
            shafts@.no_duplicates(),
            regions_fold(seed, rs, i as int) == Ok::<(SkeletonState, Seq<IVec2>), SkeletonError>(
                ((start, skeleton_views(skeleton@)), shafts@),
            ),
        decreases n - i,
    {
        let p = regions[i].0;
        let slice = regions[i].1.as_slice();
        assert(rs[i as int] == (p, slice@));
        let mut branch: AssocMap<IVec3, Region> = AssocMap::new();
        assert(views(branch@) =~= Seq::empty());
        let ghost st0: SkeletonState = (start, skeleton_views(skeleton@));
        let top = ivec3(p.x, p.y, 0);
        assert(top == spec_ivec3(p.x as int, p.y as int, 0));
        let ghost u = unfold_spec(seed, top, Seq::empty(), shafts@, slice@);
        match unfold(seed, top, &mut branch, &mut shafts, slice) {
            Err(e) => {
                proof {
                    lemma_regions_fold_err(seed, rs, i as int + 1, n as int);
                }
                return Err(SkeletonError::Unfold(e));
            },
            Ok(()) => {},
        }
        let ghost b = views(branch@);
        assert(b == u.1);
        match add_branch(seed, &branch, &mut start, &mut skeleton) {
            Err(e) => {
                proof {
                    lemma_regions_fold_err(seed, rs, i as int + 1, n as int);
                }
                return Err(e);
            },
            Ok(()) => {},
        }
        assert(regions_fold(seed, rs, i as int + 1) == Ok::<(SkeletonState, Seq<IVec2>), SkeletonError>(
            ((start, skeleton_views(skeleton@)), shafts@),
        ));
        i += 1;
    }
    match start {
        None => Err(SkeletonError::NoStart),
        Some(p) => Ok((p, skeleton)),
    }
}

/// Segment views by lattice position.
pub type SkeletonView = Seq<(IVec3, (bool, bool, Option<IVec3>, SegmentMapView))>;

/// North (`north`) or west connection flag of the segment at `q`; false
/// where there is no segment.
pub open spec fn side_flag(k: SkeletonView, q: IVec3, north: bool) -> bool {
    match seq_get(k, q) {
        Some(s) => if north {
            s.0
        } else {
            s.1
        },
        None => false,
    }
}

/// Where the segment at `q` connects down, if there is one.
pub open spec fn down_of(k: SkeletonView, q: IVec3) -> Option<IVec3> {
    match seq_get(k, q) {
        Some(s) => s.2,
        None => None,
    }
}

/// Connection bits of the lot at `p`, in the order north, east, south and
/// west: its own north and west flags, and the west flag of the segment to
/// the east and the north flag of the one to the south.
pub open spec fn lot_sides(k: SkeletonView, p: IVec3) -> int {
    (if side_flag(k, p, true) {
        1int
    } else {
        0
    }) + (if side_flag(k, moved(p, 1, 0, 0), false) {
        2int
    } else {
        0
    }) + (if side_flag(k, moved(p, 0, 1, 0), true) {
        4int
    } else {
        0
    }) + (if side_flag(k, p, false) {
        8int
    } else {
        0
    })
}

/// A stairwell position, if any, that lies on the stairwell grid.
pub open spec fn on_grid(l: Option<IVec3>) -> bool {
    l matches Some(x) ==> stairwell_ok(x) && x == spec_snap_stairwell(x)
}

/// Look up the segment at a lattice position: its north and west flags and
/// where it connects down.
fn segment_at(skeleton: &AssocMap<IVec3, Segment>, q: IVec3) -> (r: (bool, bool, Option<IVec3>))
    requires
        skeleton.wf(),
    ensures
        r.0 == side_flag(skeleton_views(skeleton@), q, true),
        r.1 == side_flag(skeleton_views(skeleton@), q, false),
        r.2 == down_of(skeleton_views(skeleton@), q),
{
    let ghost k = skeleton_views(skeleton@);
    proof {
        assert forall|i: int, j: int| 0 <= i < j < k.len() implies (#[trigger] k[i]).0 != (
        #[trigger] k[j]).0 by {
            assert(skeleton@[i].0 != skeleton@[j].0);
        }
    }
    match skeleton.find(&q) {
        Some(i) => {
            proof {
                lemma_key_index(k, i as int);
                assert(k[i as int].0 == q);
            }
            let seg = skeleton.value_at(i);
            (seg.connected_north, seg.connected_west, seg.connected_down)
        },
        None => {
            proof {
                if seq_has_key(k, q) {
                    let i = choose|i: int| 0 <= i < k.len() && (#[trigger] k[i]).0 == q;
                    assert(skeleton@[i].0 == q);
                }
            }
            (false, false, None)
        },
    }
}

/// The lot for generating the level at lattice position `p`: its volume,
/// its sideways connections, the upstairs where the level above connects
/// down, and the downstairs where this level connects down. The stairwells
/// must lie on the stairwell grid.
pub fn construct_lot(skeleton: &AssocMap<IVec3, Segment>, p: IVec3) -> (r: Lot)
    requires
        skeleton.wf(),
        grid_ok(moved(p, 1, 1, 1)),
        grid_ok(p),
        on_grid(down_of(skeleton_views(skeleton@), moved(p, 0, 0, 1))),
        on_grid(down_of(skeleton_views(skeleton@), p)),
    ensures
        r == (Lot {
            volume: spec_cell(level_basis(), p),
            sides: lot_sides(skeleton_views(skeleton@), p) as u8,
            up: down_of(skeleton_views(skeleton@), moved(p, 0, 0, 1)),
            down: down_of(skeleton_views(skeleton@), p),
        }),
{
    proof {
        lemma_level_cell(p);
    }
    let own = segment_at(skeleton, p);
    let east = segment_at(skeleton, ivec3(p.x + 1, p.y, p.z));
    let south = segment_at(skeleton, ivec3(p.x, p.y + 1, p.z));
    let above = segment_at(skeleton, ivec3(p.x, p.y, p.z + 1));
    let mut sides: u8 = 0;
    if own.0 {
        sides += 1;
    }
    if east.1 {
        sides += 2;
    }
    if south.0 {
        sides += 4;
    }
    if own.1 {
        sides += 8;
    }
    let volume = Cube::level_at(p);
    let up = above.2;
    let down = own.2;
    match Lot::new(volume, sides, up, down) {
        Ok(lot) => lot,
        Err(_) => {
            proof {
                assert(stairs_error(up, down) is None);
            }
            Lot { volume, sides, up, down }
        },
    }
}

/// Every generated segment connects down, if at all, on the stairwell grid.
pub open spec fn generated_downs_on_grid(k: SkeletonView) -> bool {
    forall|i: int|
        0 <= i < k.len() && (#[trigger] k[i]).1.3 is Generate ==> on_grid(k[i].1.2)
}

/// The default downstairs of a level near the origin lies on the grid.
proof fn lemma_default_on_grid(seed: u64, p: IVec3)
    requires
        grid_ok(p),
    ensures
        on_grid(Some(spec_default_down_stairs(seed, spec_cell(level_basis(), p)))),
{
    lemma_level_cell(p);
    let s = spec_cell(level_basis(), p);
    let x = stair_scatter(seed, s);
    assert(stairwell_ok(x));
    lemma_snap_stairwell_fixed(x);
    lemma_snap_to_chessboard(
        x.z as int / LEVEL_DEPTH as int,
        stairwell_bounds(x),
        spec_ivec2(x.x as int, x.y as int),
    );
}

/// Adding a segment keeps generated segments' stairwells on the grid.
proof fn lemma_entry_on_grid(
    seed: u64,
    b: Seq<(IVec3, RegionView)>,
    p: IVec3,
    v: RegionView,
    st: SkeletonState,
)
    requires
        generated_downs_on_grid(st.1),
        entry_step(seed, b, p, v, st) is Ok,
    ensures
        generated_downs_on_grid(entry_step(seed, b, p, v, st).unwrap().1),
{
    reveal(entry_step);
    let below = moved(p, 0, 0, -1);
    let k = st.1;
    if let RegionView::Generate(g) = v {
        let down = down_link(seed, b, p, v).unwrap();
        assert(on_grid(down)) by {
            if let Some(a) = seq_get(b, below) {
                if let Some(pos) = view_fixed_upstairs(a) {
                    let m = view_map(a).unwrap();
                    lemma_small_positions(m.1, '<', 0);
                } else {
                    lemma_default_on_grid(seed, p);
                }
            }
        }
        let seg = (
            side_link(b, p, moved(p, 0, -1, 0)),
            side_link(b, p, moved(p, -1, 0, 0)),
            down,
            SegmentMapView::Generate(g),
        );
        let k2 = seq_insert(k, p, seg);
        assert forall|i: int| 0 <= i < k2.len() && (#[trigger] k2[i]).1.3 is Generate implies on_grid(
            k2[i].1.2,
        ) by {
            if seq_has_key(k, p) {
                let j = seq_key_index(k, p);
                if i != j {
                    assert(k2[i] == k[i]);
                }
            } else if i < k.len() {
                assert(k2[i] == k[i]);
            }
        }
    } else if view_map(v) is Some {
        let m = view_map(v).unwrap();
        let k2 = entry_step(seed, b, p, v, st).unwrap().1;
        assert forall|i: int| 0 <= i < k2.len() && (#[trigger] k2[i]).1.3 is Generate implies on_grid(
            k2[i].1.2,
        ) by {
            if seq_has_key(k, p) {
                let j = seq_key_index(k, p);
                if i != j {
                    assert(k2[i] == k[i]);
                }
            } else if i < k.len() {
                assert(k2[i] == k[i]);
            }
        }
    }
}

proof fn lemma_branch_on_grid(seed: u64, b: Seq<(IVec3, RegionView)>, n: int, st: SkeletonState)
    requires
        generated_downs_on_grid(st.1),
        branch_fold(seed, b, n, st) is Ok,
    ensures
        generated_downs_on_grid(branch_fold(seed, b, n, st).unwrap().1),
    decreases n,
{
    if n > 0 {
        lemma_branch_on_grid(seed, b, n - 1, st);
        let st2 = branch_fold(seed, b, n - 1, st).unwrap();
        lemma_entry_on_grid(seed, b, b[n - 1].0, b[n - 1].1, st2);
    }
}

proof fn lemma_regions_on_grid(seed: u64, rs: Seq<(IVec2, Seq<Region>)>, n: int)
    requires
        regions_fold(seed, rs, n) is Ok,
    ensures
        generated_downs_on_grid(regions_fold(seed, rs, n).unwrap().0.1),
    decreases n,
{
    if n > 0 {
        lemma_regions_on_grid(seed, rs, n - 1);
        let (st, shafts) = regions_fold(seed, rs, n - 1).unwrap();
        let u = unfold_spec(
            seed,
            spec_ivec3(rs[n - 1].0.x as int, rs[n - 1].0.y as int, 0),
            Seq::empty(),
            shafts,
            rs[n - 1].1,
        );
        lemma_branch_on_grid(seed, u.1, u.1.len() as int, st);
    }
}

/// In a skeleton built from a scenario, every generated sector connects
/// down, if at all, at a stairwell position on the stairwell grid, so the
/// lots built around generated sectors always accept their stairwells.
pub proof fn lemma_skeleton_stairs_on_grid(seed: u64, rs: Seq<(IVec2, Seq<Region>)>)
    requires
        spec_build_skeleton(seed, rs) is Ok,
    ensures
        generated_downs_on_grid(spec_build_skeleton(seed, rs).unwrap().1),
{
    lemma_regions_on_grid(seed, rs, rs.len() as int);
}

} // verus!
