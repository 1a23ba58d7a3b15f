//! Procedural generation of dungeon levels: rectangular rooms joined by dug
//! tunnels, with stairwells to the levels above and below.

use vstd::prelude::*;

use rand::rngs::StdRng;

use crate::assoc::{
    AssocMap, keys_distinct, lemma_insert_get, lemma_key_index, seq_get, seq_has_key, seq_insert,
    seq_key_index,
};
use crate::geom::{IVec2, IVec3, Rect, abs, dir8, ivec2, ivec3, spec_ivec2};
use crate::location::{SECTOR_HEIGHT, SECTOR_WIDTH};
use crate::map_tile::MapTile;
use crate::patch::{FlatPatch, Spawn, first_downstairs, keys_shiftable, lemma_first_downstairs, lemma_merge_values, lemma_merge_keys, lemma_merge_placed, lemma_merge_shifted, lemma_merge_untouched, lemma_names_merge, open_in, opens_square, placeable_at, seq_merge, spawn_names, stair_positions, stair_spot_ok, tunnel_steps, walkable_positions, well_inside};
use crate::rng::{choose_point, shuffle_points};
use crate::rng::{gen_range_i32, one_chance_in};

verus! {

/// What kind of entity a room cell spawns.
#[derive(Copy, Clone, PartialEq, Eq, Structural, Debug)]
pub enum SpawnKind {
    Creature,
    Item,
}

/// Parameters of a generated dungeon level.
#[derive(Copy, Clone, Debug)]
pub struct Level {
    /// Dungeon depth, greater depth has more powerful monsters and items.
    pub depth: u32,
    /// Upstairs position to generate into the map.
    pub upstairs: Option<IVec2>,
    /// True if map should include a downstairs exit.
    pub generate_downstairs: bool,
}

/// Interior cell of a `w` by `h` room at the origin.
pub open spec fn in_room(p: IVec2, w: int, h: int) -> bool {
    0 <= p.x < w && 0 <= p.y < h
}

/// Corner cell just outside a `w` by `h` room at the origin.
pub open spec fn room_corner(p: IVec2, w: int, h: int) -> bool {
    (p.x == -1 || p.x == w) && (p.y == -1 || p.y == h)
}

/// `r` is a `w` by `h` room: ground on every interior cell, undiggable wall
/// on the four corners and nothing else; its entrance lies inside, and so
/// does every spawn, none of them on the entrance.
pub open spec fn is_room(r: FlatPatch, w: int, h: int) -> bool {
    &&& 2 <= w <= 10 && 2 <= h <= 10
    &&& r.wf()
    &&& forall|p: IVec2| in_room(p, w, h) ==> seq_get(r.terrain@, p) == Some(MapTile::Ground)
    &&& forall|p: IVec2| room_corner(p, w, h) ==> seq_get(r.terrain@, p) == Some(MapTile::Wall)
    &&& forall|i: int|
        0 <= i < r.terrain@.len() ==> in_room((#[trigger] r.terrain@[i]).0, w, h) || room_corner(
            r.terrain@[i].0,
            w,
            h,
        )
    &&& r.entrance matches Some(e) && in_room(e, w, h) && forall|i: int|
        0 <= i < r.spawns@.len() ==> in_room((#[trigger] r.spawns@[i]).0, w, h)
            && r.spawns@[i].0 != e
}

/// `s` is something that `pick` can make for some kind of spawn at the
/// given depth, drawing from the level's generator.
pub open spec fn made_by<F: Fn(SpawnKind, u32, &mut StdRng) -> Spawn>(pick: F, depth: u32, s: Spawn) -> bool {
    exists|k: SpawnKind, g: &mut StdRng| #[trigger] pick.ensures((k, depth, g), s)
}

/// Every spawn of a map has a name that `ok` accepts.
pub open spec fn names_ok(sp: Seq<(IVec2, Spawn)>, ok: spec_fn(Seq<char>) -> bool) -> bool {
    forall|i: int| 0 <= i < sp.len() ==> ok((#[trigger] sp[i]).1@)
}

/// Names of the spawns that `pick` can make at a depth.
pub open spec fn picked_name<F: Fn(SpawnKind, u32, &mut StdRng) -> Spawn>(pick: F, depth: u32) -> spec_fn(
    Seq<char>,
) -> bool {
    |n: Seq<char>| exists|s: Spawn| made_by(pick, depth, s) && s@ == n
}

/// Spawns with the same names pass the same name test.
proof fn lemma_names_ok_same(x: Seq<(IVec2, Spawn)>, y: Seq<(IVec2, Spawn)>, ok: spec_fn(Seq<char>) -> bool)
    requires
        spawn_names(x) == spawn_names(y),
        names_ok(y, ok),
    ensures
        names_ok(x, ok),
{
    assert forall|i: int| 0 <= i < x.len() implies ok((#[trigger] x[i]).1@) by {
        assert(spawn_names(x).len() == x.len());
        assert(spawn_names(y).len() == y.len());
        assert(spawn_names(x)[i] == (x[i].0, x[i].1@));
        assert(spawn_names(y)[i] == (y[i].0, y[i].1@));
    }
}

/// Merging maps whose spawns pass a name test gives spawns that pass it.
proof fn lemma_merge_names_ok(
    a: Seq<(IVec2, Spawn)>,
    o: Seq<(IVec2, Spawn)>,
    off: IVec2,
    m: Seq<(IVec2, Spawn)>,
    ok: spec_fn(Seq<char>) -> bool,
)
    requires
        names_ok(a, ok),
        names_ok(o, ok),
        spawn_names(m) == spawn_names(seq_merge(a, o, off)),
    ensures
        names_ok(m, ok),
{
    let r = seq_merge(a, o, off);
    assert forall|i: int| 0 <= i < r.len() implies ok((#[trigger] r[i]).1@) by {
        lemma_merge_values(a, o, off, i);
    }
    lemma_names_ok_same(m, r, ok);
}

impl Level {
    pub fn new(depth: u32) -> (r: Level)
        ensures
            r.depth == depth,
            r.upstairs is None,
            !r.generate_downstairs,
    {
        Level { depth, upstairs: None, generate_downstairs: false }
    }

    pub fn upstairs_at(self, pos: IVec2) -> (r: Level)
        ensures
            r.depth == self.depth,
            r.upstairs == Some(pos),
            r.generate_downstairs == self.generate_downstairs,
    {
        Level { upstairs: Some(pos), ..self }
    }

    pub fn with_downstairs(self) -> (r: Level)
        ensures
            r.depth == self.depth,
            r.upstairs == self.upstairs,
            r.generate_downstairs,
    {
        Level { generate_downstairs: true, ..self }
    }

    /// Whether an entity that first appears at `min_depth` may spawn on this
    /// level.
    pub fn admits(&self, min_depth: u32) -> (r: bool)
        ensures
            r == (min_depth <= self.depth),
    {
        min_depth <= self.depth
    }

    /// Generate a random rectangular room, 2 to 10 cells on a side, with a
    /// spawn on about one interior cell in sixty, an item one time in three
    /// and a creature otherwise, each made by `pick` for this level's depth.
    pub fn room<F: Fn(SpawnKind, u32, &mut StdRng) -> Spawn>(&self, rng: &mut StdRng, pick: &F) -> (r: FlatPatch)
        requires
            forall|k: SpawnKind, d: u32, g: &mut StdRng| pick.requires((k, d, g)),
        ensures
            exists|w: int, h: int| is_room(r, w, h),
            forall|i: int|
                0 <= i < r.spawns@.len() ==> made_by(*pick, self.depth, #[trigger] r.spawns@[i].1),
    {
        let w = gen_range_i32(rng, 2, 11);
        let h = gen_range_i32(rng, 2, 11);
        let e = ivec2(gen_range_i32(rng, 0, w), gen_range_i32(rng, 0, h));
        let mut spawns: Vec<(IVec2, Spawn)> = Vec::new();
        let mut y: i32 = 0;
        while y < h
            invariant
                2 <= w <= 10,
                2 <= h <= 10,
                0 <= y <= h,
                in_room(e, w as int, h as int),
                forall|k: SpawnKind, d: u32, g: &mut StdRng| pick.requires((k, d, g)),
                keys_distinct(spawns@),
                forall|i: int|
                    0 <= i < spawns@.len() ==> in_room((#[trigger] spawns@[i]).0, w as int, h as int)
                        && spawns@[i].0 != e && spawns@[i].0.y < y,
                forall|i: int|
                    0 <= i < spawns@.len() ==> made_by(*pick, self.depth, #[trigger] spawns@[i].1),
            decreases h - y,
        {
            let mut x: i32 = 0;
            while x < w
                invariant
                    2 <= w <= 10,
                    2 <= h <= 10,
                    0 <= y < h,
                    0 <= x <= w,
                    in_room(e, w as int, h as int),
                    forall|k: SpawnKind, d: u32, g: &mut StdRng| pick.requires((k, d, g)),
                    keys_distinct(spawns@),
                    forall|i: int|
                        0 <= i < spawns@.len() ==> in_room((#[trigger] spawns@[i]).0, w as int, h as int)
                            && spawns@[i].0 != e && (spawns@[i].0.y < y || (spawns@[i].0.y == y
                            && spawns@[i].0.x < x)),
                    forall|i: int|
                        0 <= i < spawns@.len() ==> made_by(*pick, self.depth, #[trigger] spawns@[i].1),
                decreases w - x,
            {
                let p = ivec2(x, y);
                if one_chance_in(rng, 60) && !(p.x == e.x && p.y == e.y) {
                    let kind = if one_chance_in(rng, 3) {
                        SpawnKind::Item
                    } else {
                        SpawnKind::Creature
                    };
                    let s = pick(kind, self.depth, rng);
                    let ghost before = spawns@;
                    spawns.push((p, s));
                    proof {
                        assert(spawns@[before.len() as int] == (p, s));
                        assert(made_by(*pick, self.depth, s));
                        assert forall|i: int, j: int| 0 <= i < j < spawns@.len() implies (#[trigger] spawns@[i]).0
                            != (#[trigger] spawns@[j]).0 by {
                            if j < before.len() {
                                assert(spawns@[i] == before[i]);
                                assert(spawns@[j] == before[j]);
                            } else {
                                assert(spawns@[i] == before[i]);
                            }
                        }
                        assert forall|i: int| 0 <= i < spawns@.len() implies made_by(
                            *pick,
                            self.depth,
                            #[trigger] spawns@[i].1,
                        ) by {
                            if i < before.len() {
                                assert(spawns@[i] == before[i]);
                            }
                        }
                    }
                }
                x += 1;
            }
            y += 1;
        }
        Level::room_from(w, h, e, spawns)
    }

    /// The `w` by `h` room at the origin: ground on its interior cells,
    /// undiggable wall on its four corners, set first, then the interior row
    /// by row; its entrance at `e` and the given spawns in their order.
    pub fn room_from(w: i32, h: i32, e: IVec2, spawns: Vec<(IVec2, Spawn)>) -> (r: FlatPatch)
        requires
            2 <= w <= 10,
            2 <= h <= 10,
            in_room(e, w as int, h as int),
            keys_distinct(spawns@),
            forall|i: int|
                0 <= i < spawns@.len() ==> in_room((#[trigger] spawns@[i]).0, w as int, h as int)
                    && spawns@[i].0 != e,
        ensures
            is_room(r, w as int, h as int),
            r.entrance == Some(e),
            r.spawns@ == spawns@,
    {
        let mut ret = FlatPatch::new();

        // Set corners as undiggable.
        let c1 = ivec2(-1, -1);
        let c2 = ivec2(w, -1);
        let c3 = ivec2(-1, h);
        let c4 = ivec2(w, h);
        let ghost s0 = ret.terrain@;
        ret.set_terrain(c1, MapTile::Wall);
        let ghost s1 = ret.terrain@;
        ret.set_terrain(c2, MapTile::Wall);
        let ghost s2 = ret.terrain@;
        ret.set_terrain(c3, MapTile::Wall);
        let ghost s3 = ret.terrain@;
        ret.set_terrain(c4, MapTile::Wall);
        proof {
            assert forall|q: IVec2| room_corner(q, w as int, h as int) implies seq_get(
                ret.terrain@,
                q,
            ) == Some(MapTile::Wall) by {
                lemma_insert_get(s0, c1, MapTile::Wall, q);
                lemma_insert_get(s1, c2, MapTile::Wall, q);
                lemma_insert_get(s2, c3, MapTile::Wall, q);
                lemma_insert_get(s3, c4, MapTile::Wall, q);
            }
            assert forall|i: int| 0 <= i < ret.terrain@.len() implies room_corner(
                (#[trigger] ret.terrain@[i]).0,
                w as int,
                h as int,
            ) by {
                lemma_key_index(ret.terrain@, i);
                let q = ret.terrain@[i].0;
                lemma_insert_get(s0, c1, MapTile::Wall, q);
                lemma_insert_get(s1, c2, MapTile::Wall, q);
                lemma_insert_get(s2, c3, MapTile::Wall, q);
                lemma_insert_get(s3, c4, MapTile::Wall, q);
            }
        }
        ret.entrance = Some(e);

        let mut y: i32 = 0;
        while y < h
            invariant
                2 <= w <= 10,
                2 <= h <= 10,
                0 <= y <= h,
                ret.wf(),
                ret.entrance == Some(e),
                ret.spawns@ == Seq::<(IVec2, Spawn)>::empty(),
                forall|q: IVec2| room_corner(q, w as int, h as int) ==> seq_get(ret.terrain@, q)
                    == Some(MapTile::Wall),
                forall|q: IVec2|
                    in_room(q, w as int, h as int) && q.y < y ==> seq_get(ret.terrain@, q) == Some(
                        MapTile::Ground,
                    ),
                forall|i: int|
                    0 <= i < ret.terrain@.len() ==> in_room(
                        (#[trigger] ret.terrain@[i]).0,
                        w as int,
                        h as int,
                    ) || room_corner(ret.terrain@[i].0, w as int, h as int),
            decreases h - y,
        {
            let mut x: i32 = 0;
            while x < w
                invariant
                    2 <= w <= 10,
                    2 <= h <= 10,
                    0 <= y < h,
                    0 <= x <= w,
                    ret.wf(),
                    ret.entrance == Some(e),
                    ret.spawns@ == Seq::<(IVec2, Spawn)>::empty(),
                    forall|q: IVec2| room_corner(q, w as int, h as int) ==> seq_get(ret.terrain@, q)
                        == Some(MapTile::Wall),
                    forall|q: IVec2|
                        in_room(q, w as int, h as int) && (q.y < y || (q.y == y && q.x < x))
                            ==> seq_get(ret.terrain@, q) == Some(MapTile::Ground),
                    forall|i: int|
                        0 <= i < ret.terrain@.len() ==> in_room(
                            (#[trigger] ret.terrain@[i]).0,
                            w as int,
                            h as int,
                        ) || room_corner(ret.terrain@[i].0, w as int, h as int),
                decreases w - x,
            {
                let p = ivec2(x, y);
                let ghost t0 = ret.terrain@;
                ret.set_terrain(p, MapTile::Ground);
                proof {
                    assert forall|q: IVec2|
                        room_corner(q, w as int, h as int) implies seq_get(ret.terrain@, q)
                        == Some(MapTile::Wall) by {
                        lemma_insert_get(t0, p, MapTile::Ground, q);
                    }
                    assert forall|q: IVec2|
                        in_room(q, w as int, h as int) && (q.y < y || (q.y == y && q.x < x + 1))
                            implies seq_get(ret.terrain@, q) == Some(MapTile::Ground) by {
                        lemma_insert_get(t0, p, MapTile::Ground, q);
                    }
                    assert forall|i: int| 0 <= i < ret.terrain@.len() implies in_room(
                        (#[trigger] ret.terrain@[i]).0,
                        w as int,
                        h as int,
                    ) || room_corner(ret.terrain@[i].0, w as int, h as int) by {
                        if i < t0.len() {
                            if seq_has_key(t0, p) {
                                let j = seq_key_index(t0, p);
                                if i != j {
                                    assert(ret.terrain@[i] == t0[i]);
                                }
                            } else {
                                assert(ret.terrain@[i] == t0[i]);
                            }
                        }
                    }
                }
                x += 1;
            }
            y += 1;
        }
        ret.spawns = AssocMap::from_entries(spawns);
        assert(is_room(ret, w as int, h as int));
        ret
    }
}

/// Cells where tunnels may be dug: the sector and a ring of one cell round
/// it.
pub open spec fn in_dig_area(p: IVec2) -> bool {
    -1 <= p.x <= SECTOR_WIDTH && -1 <= p.y <= SECTOR_HEIGHT
}

/// A tunnel may continue from `a` to `b`, both in the dig area.
pub open spec fn dig_step(t: Seq<(IVec2, MapTile)>, a: IVec2, b: IVec2) -> bool {
    in_dig_area(a) && in_dig_area(b) && tunnel_steps(t, a, 4).contains(b)
}

/// A tunnel from `start` to one of the goals: every later cell a dig step
/// on from the one before it.
pub open spec fn tunnel_path(
    t: Seq<(IVec2, MapTile)>,
    start: IVec2,
    goals: Seq<IVec2>,
    path: Seq<IVec2>,
) -> bool {
    &&& path.len() > 0
    &&& path[0] == start
    &&& goals.contains(path.last())
    &&& forall|i: int| 0 <= i < path.len() - 1 ==> dig_step(t, #[trigger] path[i], path[i + 1])
}

/// Taxicab distance between two points.
pub open spec fn taxi(a: IVec2, b: IVec2) -> int {
    abs(a.x - b.x) + abs(a.y - b.y)
}

/// Dig steps from `pos`, each at cost one.
fn dig_successors(map: &FlatPatch, pos: IVec2) -> (r: Vec<(IVec2, u32)>)
    requires
        map.wf(),
    ensures
        forall|j: int|
            0 <= j < r@.len() ==> (#[trigger] r@[j]).1 == 1 && dig_step(map.terrain@, pos, r@[j].0),
        forall|c: IVec2|
            dig_step(map.terrain@, pos, c) ==> exists|j: int| 0 <= j < r@.len() && (#[trigger] r@[j]).0 == c,
{
    let mut ret: Vec<(IVec2, u32)> = Vec::new();
    if !(-1 <= pos.x && pos.x <= SECTOR_WIDTH && -1 <= pos.y && pos.y <= SECTOR_HEIGHT) {
        return ret;
    }
    let steps = map.valid_tunnels_from(pos);
    let n = steps.len();
    let mut i: usize = 0;
    while i < n
        invariant
            map.wf(),
            in_dig_area(pos),
            n == steps@.len(),
            steps@ == tunnel_steps(map.terrain@, pos, 4),
            i <= n,
            forall|j: int|
                0 <= j < ret@.len() ==> (#[trigger] ret@[j]).1 == 1 && dig_step(
                    map.terrain@,
                    pos,
                    ret@[j].0,
                ),
            forall|k: int|
                0 <= k < i && in_dig_area(#[trigger] steps@[k]) ==> exists|j: int|
                    0 <= j < ret@.len() && (#[trigger] ret@[j]).0 == steps@[k],
        decreases n - i,
    {
        let c = steps[i];
        if -1 <= c.x && c.x <= SECTOR_WIDTH && -1 <= c.y && c.y <= SECTOR_HEIGHT {
            let ghost before = ret@;
            ret.push((c, 1));
            proof {
                assert(ret@[before.len() as int] == (c, 1u32));
                assert forall|k: int|
                    0 <= k < i + 1 && in_dig_area(#[trigger] steps@[k]) implies exists|j: int|
                    0 <= j < ret@.len() && (#[trigger] ret@[j]).0 == steps@[k] by {
                    if k < i {
                        let j = choose|j: int| 0 <= j < before.len() && (#[trigger] before[j]).0 == steps@[k];
                        assert(ret@[j] == before[j]);
                    } else {
                        assert(ret@[before.len() as int].0 == steps@[k]);
                    }
                }
            }
        }
        i += 1;
    }
    proof {
        assert forall|c: IVec2| dig_step(map.terrain@, pos, c) implies exists|j: int|
            0 <= j < ret@.len() && (#[trigger] ret@[j]).0 == c by {
            let k = choose|k: int| 0 <= k < steps@.len() && steps@[k] == c;
            assert(in_dig_area(steps@[k]));
        }
    }
    ret
}

/// Taxicab distance, capped at the largest `u32`.
fn taxi_distance(a: IVec2, b: IVec2) -> (r: u32)
    ensures
        r == if taxi(a, b) <= u32::MAX {
            taxi(a, b)
        } else {
            u32::MAX as int
        },
{
    let dx: i64 = a.x as i64 - b.x as i64;
    let dy: i64 = a.y as i64 - b.y as i64;
    let ax: i64 = if dx < 0 {
        -dx
    } else {
        dx
    };
    let ay: i64 = if dy < 0 {
        -dy
    } else {
        dy
    };
    let d: i64 = ax + ay;
    if d > u32::MAX as i64 {
        u32::MAX
    } else {
        d as u32
    }
}

/// Whether a point occurs in a list.
fn contains_point(v: &Vec<IVec2>, p: IVec2) -> (r: bool)
    ensures
        r == v@.contains(p),
{
    let n = v.len();
    let mut i: usize = 0;
    while i < n
        invariant
            n == v@.len(),
            i <= n,
            forall|j: int| 0 <= j < i ==> v@[j] != p,
        decreases n - i,
    {
        if v[i].x == p.x && v[i].y == p.y {
            assert(v@[i as int] == p);
            return true;
        }
        i += 1;
    }
    false
}

/// The path that `pathfinding::prelude::astar` finds on `terrain` from
/// `start` to a cell of `goals`, moving by dig steps at cost one and guided
/// by the taxicab distance to `end`; none if it finds no path.
pub uninterp spec fn astar_tunnel(
    terrain: Seq<(IVec2, MapTile)>,
    start: IVec2,
    end: IVec2,
    goals: Seq<IVec2>,
) -> Option<Seq<IVec2>>;

/// Calls `pathfinding::prelude::astar` from `start`, moving by
/// `dig_successors` at cost one a step, guided by the taxicab distance to
/// `end`, until a cell of `goals` is reached. The path it gives back begins
/// with the start node, ends with a node that its success test accepted, and
/// each node after the first was handed out by the successors function for
/// the node before it. The search is deterministic, so its outcome is named
/// by `astar_tunnel`. Since the dig steps stay in the finite dig area, the
/// search ends. astar adds the path cost to the heuristic in `u32`; the
/// bound on `end` keeps that sum, at most the taxicab distance from a cell
/// of the dig area plus the number of its cells, below `u32::MAX`. That the
/// path is a shortest one, and that nothing comes back only when no such
/// path exists, is left unsaid.
#[verifier::external_body]
fn find_tunnel(map: &FlatPatch, start: IVec2, end: IVec2, goals: &Vec<IVec2>) -> (r: Option<
    Vec<IVec2>,
>)
    requires
        map.wf(),
        -0x2000_0000 <= end.x <= 0x2000_0000,
        -0x2000_0000 <= end.y <= 0x2000_0000,
    ensures
        r matches Some(path) ==> tunnel_path(map.terrain@, start, goals@, path@),
        match r {
            Some(path) => astar_tunnel(map.terrain@, start, end, goals@) == Some(path@),
            None => astar_tunnel(map.terrain@, start, end, goals@) is None,
        },
{
    pathfinding::prelude::astar(
        &start,
        |p: &IVec2| dig_successors(map, *p),
        |p: &IVec2| taxi_distance(*p, end),
        |p: &IVec2| contains_point(goals, *p),
    ).map(|found| found.0)
}

/// No spot for a downstairs was found in the map a level built.
#[derive(Debug)]
pub struct NoDownstairsSpot {
    /// The map as built, before the downstairs was to be dug.
    pub map: FlatPatch,
}

/// The upstairs, if any, is far enough from the edges of the `i32` range
/// for its stairwell and the cells looked at around it.
pub open spec fn upstairs_fits(lv: Level) -> bool {
    lv.upstairs matches Some(u) ==> i32::MIN + 3 < u.x < i32::MAX - 3 && i32::MIN + 3 < u.y
        < i32::MAX - 3
}

/// A cell at most `m` cells outside the sector, or at most `d` cells from
/// the upstairs along both axes.
pub open spec fn level_cell(lv: Level, p: IVec2, m: int, d: int) -> bool {
    (-m <= p.x < SECTOR_WIDTH + m && -m <= p.y < SECTOR_HEIGHT + m) || (lv.upstairs matches Some(
        u,
    ) && abs(p.x - u.x) <= d && abs(p.y - u.y) <= d)
}

/// What holds of a level map while it is generated: it is well formed, its
/// cells lie in the dig area or next to the upstairs, the upstairs stands
/// where asked with a defined cell below it, the entrance is walkable, and
/// there is no downstairs yet.
pub open spec fn partial_level(lv: Level, m: FlatPatch) -> bool {
    &&& m.wf()
    &&& forall|i: int| 0 <= i < m.terrain@.len() ==> level_cell(lv, (#[trigger] m.terrain@[i]).0, 1, 1)
    &&& lv.upstairs matches Some(u) ==> upstairs_enclosed(m.terrain@, u)
    &&& m.entrance matches Some(e) ==> open_in(m.terrain@, e)
    &&& forall|q: IVec2| seq_get(m.terrain@, q) != Some(MapTile::Downstairs)
}

/// `q` is the upstairs at `u` or one of the cells around it that its
/// enclosure fixes.
pub open spec fn in_enclosure(u: IVec2, q: IVec2) -> bool {
    q == u || q == u.plus(spec_ivec2(0, 1)) || q == u.plus(spec_ivec2(-1, 0)) || q == u.plus(
        spec_ivec2(1, 0),
    ) || q == u.plus(spec_ivec2(-1, -1)) || q == u.plus(spec_ivec2(0, -1)) || q == u.plus(
        spec_ivec2(1, -1),
    )
}

/// The upstairs at `u`, with ground below it and undiggable wall on its
/// other sides.
pub open spec fn upstairs_enclosed(t: Seq<(IVec2, MapTile)>, u: IVec2) -> bool {
    &&& seq_get(t, u) == Some(MapTile::Upstairs)
    &&& seq_get(t, u.plus(spec_ivec2(0, 1))) == Some(MapTile::Ground)
    &&& seq_get(t, u.plus(spec_ivec2(-1, 0))) == Some(MapTile::Wall)
    &&& seq_get(t, u.plus(spec_ivec2(1, 0))) == Some(MapTile::Wall)
    &&& seq_get(t, u.plus(spec_ivec2(-1, -1))) == Some(MapTile::Wall)
    &&& seq_get(t, u.plus(spec_ivec2(0, -1))) == Some(MapTile::Wall)
    &&& seq_get(t, u.plus(spec_ivec2(1, -1))) == Some(MapTile::Wall)
}

/// Setting a walkable tile other than a stairway on a cell of the level
/// area that is not the upstairs keeps the level invariant and keeps walkable
/// cells walkable.
proof fn lemma_set_walkable(lv: Level, a: FlatPatch, b: FlatPatch, q: IVec2, tile: MapTile)
    requires
        partial_level(lv, a),
        tile.spec_is_walkable(),
        tile != MapTile::Downstairs,
        level_cell(lv, q, 1, 1),
        lv.upstairs matches Some(u) ==> !in_enclosure(u, q),
        b.wf(),
        b.terrain@ == seq_insert(a.terrain@, q, tile),
        b.entrance == a.entrance,
    ensures
        partial_level(lv, b),
        forall|x: IVec2| open_in(a.terrain@, x) ==> open_in(b.terrain@, x),
{
    assert forall|x: IVec2| open_in(a.terrain@, x) implies open_in(b.terrain@, x) by {
        lemma_insert_get(a.terrain@, q, tile, x);
    }
    assert forall|x: IVec2| seq_get(b.terrain@, x) != Some(MapTile::Downstairs) by {
        lemma_insert_get(a.terrain@, q, tile, x);
    }
    assert forall|i: int| 0 <= i < b.terrain@.len() implies level_cell(
        lv,
        (#[trigger] b.terrain@[i]).0,
        1,
        1,
    ) by {
        lemma_key_index(b.terrain@, i);
        let x = b.terrain@[i].0;
        lemma_insert_get(a.terrain@, q, tile, x);
        if x != q {
            let j = seq_key_index(a.terrain@, x);
            assert(a.terrain@[j].0 == x);
        }
    }
    if let Some(u) = lv.upstairs {
        lemma_insert_get(a.terrain@, q, tile, u);
        lemma_insert_get(a.terrain@, q, tile, u.plus(spec_ivec2(0, 1)));
        lemma_insert_get(a.terrain@, q, tile, u.plus(spec_ivec2(-1, 0)));
        lemma_insert_get(a.terrain@, q, tile, u.plus(spec_ivec2(1, 0)));
        lemma_insert_get(a.terrain@, q, tile, u.plus(spec_ivec2(-1, -1)));
        lemma_insert_get(a.terrain@, q, tile, u.plus(spec_ivec2(0, -1)));
        lemma_insert_get(a.terrain@, q, tile, u.plus(spec_ivec2(1, -1)));
    }
}

/// A cell with no terrain in a map under generation is not part of the
/// upstairs enclosure.
proof fn lemma_enclosure_defined(lv: Level, m: FlatPatch, q: IVec2)
    requires
        partial_level(lv, m),
        !seq_has_key(m.terrain@, q),
    ensures
        lv.upstairs matches Some(u) ==> !in_enclosure(u, q),
{
}

impl Level {
    /// A map holding only the upstairs, if there is one: the stairs, ground
    /// below them and undiggable wall on the other sides.
    fn start_map(&self) -> (r: FlatPatch)
        requires
            upstairs_fits(*self),
        ensures
            partial_level(*self, r),
            r.entrance is None,
            r.spawns@ == Seq::<(IVec2, Spawn)>::empty(),
            forall|x: IVec2| #[trigger] seq_get(r.terrain@, x) == start_cell(*self, x),
            self.upstairs is None ==> r.terrain@.len() == 0,
    {
        let mut ret = FlatPatch::new();
        if let Some(p) = self.upstairs {
            let cells = [
                ivec2(p.x, p.y + 1),
                ivec2(p.x - 1, p.y),
                ivec2(p.x + 1, p.y),
                ivec2(p.x - 1, p.y - 1),
                ivec2(p.x, p.y - 1),
                ivec2(p.x + 1, p.y - 1),
            ];
            let ghost s0 = ret.terrain@;
            ret.set_terrain(p, MapTile::Upstairs);
            let ghost s1 = ret.terrain@;
            ret.set_terrain(cells[0], MapTile::Ground);
            let ghost s2 = ret.terrain@;
            // Undiggable enclosure.
            ret.set_terrain(cells[1], MapTile::Wall);
            let ghost s3 = ret.terrain@;
            ret.set_terrain(cells[2], MapTile::Wall);
            let ghost s4 = ret.terrain@;
            ret.set_terrain(cells[3], MapTile::Wall);
            let ghost s5 = ret.terrain@;
            ret.set_terrain(cells[4], MapTile::Wall);
            let ghost s6 = ret.terrain@;
            ret.set_terrain(cells[5], MapTile::Wall);
            proof {
                let t = ret.terrain@;
                assert forall|x: IVec2| #[trigger] seq_get(t, x) == if x == p {
                    Some(MapTile::Upstairs)
                } else if x == cells[0] {
                    Some(MapTile::Ground)
                } else if x == cells[1] || x == cells[2] || x == cells[3] || x == cells[4] || x
                    == cells[5] {
                    Some(MapTile::Wall)
                } else {
                    None
                } by {
                    lemma_insert_get(s0, p, MapTile::Upstairs, x);
                    lemma_insert_get(s1, cells[0], MapTile::Ground, x);
                    lemma_insert_get(s2, cells[1], MapTile::Wall, x);
                    lemma_insert_get(s3, cells[2], MapTile::Wall, x);
                    lemma_insert_get(s4, cells[3], MapTile::Wall, x);
                    lemma_insert_get(s5, cells[4], MapTile::Wall, x);
                    lemma_insert_get(s6, cells[5], MapTile::Wall, x);
                }
                assert(p.plus(spec_ivec2(0, 1)) == cells[0]);
                assert(seq_get(t, cells[0]) == Some(MapTile::Ground));
                assert forall|i: int| 0 <= i < t.len() implies level_cell(
                    *self,
                    (#[trigger] t[i]).0,
                    1,
                    1,
                ) by {
                    lemma_key_index(t, i);
                    assert(seq_get(t, t[i].0) is Some);
                }
                assert forall|q: IVec2| seq_get(t, q) != Some(MapTile::Downstairs) by {
                    assert(seq_get(t, q) == seq_get(t, q));
                }
                assert(cells[1] == p.plus(spec_ivec2(-1, 0)));
                assert(cells[2] == p.plus(spec_ivec2(1, 0)));
                assert(cells[3] == p.plus(spec_ivec2(-1, -1)));
                assert(cells[4] == p.plus(spec_ivec2(0, -1)));
                assert(cells[5] == p.plus(spec_ivec2(1, -1)));
                assert forall|x: IVec2| #[trigger] seq_get(t, x) == start_cell(*self, x) by {
                    assert(seq_get(t, x) == seq_get(t, x));
                }
            }
        }
        ret
    }

    /// Dig a tunnel along `path` through `map`: the first cell that had to
    /// be opened and the last become doors, the cells between them ground.
    fn dig_tunnel(&self, map: &mut FlatPatch, path: &Vec<IVec2>)
        requires
            partial_level(*self, *old(map)),
            path@.len() > 0,
            open_in(old(map).terrain@, path@[0]),
            forall|i: int| 1 <= i < path@.len() ==> in_dig_area(#[trigger] path@[i]),
            forall|i: int|
                0 <= i < path@.len() ==> open_in(old(map).terrain@, #[trigger] path@[i])
                    || !seq_has_key(old(map).terrain@, path@[i]),
        ensures
            partial_level(*self, *final(map)),
            forall|x: IVec2| open_in(old(map).terrain@, x) ==> open_in(final(map).terrain@, x),
            final(map).spawns@ == old(map).spawns@,
            final(map).entrance == old(map).entrance,
            tunnel_dug(old(map).terrain@, final(map).terrain@, path@),
    {
        let ghost m0 = *map;
        let ghost t0 = map.terrain@;
        let ghost ps = path@;
        let mut prev: Option<IVec2> = None;
        let n = path.len();
        let mut i: usize = 0;
        while i < n
            invariant
                n == path@.len(),
                ps == path@,
                t0 == m0.terrain@,
                i <= n,
                n > 0,
                partial_level(*self, *map),
                partial_level(*self, m0),
                forall|k: int|
                    0 <= k < ps.len() ==> open_in(t0, #[trigger] ps[k]) || !seq_has_key(t0, ps[k]),
                open_in(map.terrain@, path@[0]),
                forall|k: int| 1 <= k < path@.len() ==> in_dig_area(#[trigger] path@[k]),
                forall|x: IVec2| open_in(m0.terrain@, x) ==> open_in(map.terrain@, x),
                map.spawns@ == m0.spawns@,
                map.entrance == m0.entrance,
                prev matches Some(q) ==> in_dig_area(q) && !seq_has_key(t0, q),
                forall|k: int| 0 <= k < i ==> open_in(map.terrain@, #[trigger] ps[k]),
                forall|k: int|
                    0 <= k < i && newly_dug(t0, ps, k) ==> seq_get(map.terrain@, #[trigger] ps[k])
                        == Some(
                        if first_dug(t0, ps, k) {
                            MapTile::Door
                        } else {
                            MapTile::Ground
                        },
                    ),
                forall|x: IVec2|
                    !dug_before(t0, ps, i as int, x) ==> #[trigger] seq_get(map.terrain@, x)
                        == seq_get(t0, x),
                prev is None ==> forall|k: int| 0 <= k < i ==> !newly_dug(t0, ps, k),
                prev matches Some(q) ==> exists|l: int|
                    0 <= l < i && newly_dug(t0, ps, l) && ps[l] == q && forall|j: int|
                        l < j < i ==> !newly_dug(t0, ps, j),
            decreases n - i,
        {
            let q = path[i];
            proof {
                if ps.take(i as int).contains(q) {
                    let k = choose|k: int| 0 <= k < i && ps.take(i as int)[k] == q;
                    assert(ps[k] == q);
                } else {
                    assert forall|k: int| 0 <= k < i implies ps[k] != q by {
                        assert(ps.take(i as int)[k] == ps[k]);
                    }
                    assert(!dug_before(t0, ps, i as int, q));
                }
            }
            if !map.is_open(q) {
                let ghost a = *map;
                assert(newly_dug(t0, ps, i as int));
                assert(!seq_has_key(t0, q));
                proof {
                    lemma_enclosure_defined(*self, m0, q);
                }
                assert(i != 0);
                assert(in_dig_area(path@[i as int]));
                let ghost tile = if prev.is_none() {
                    MapTile::Door
                } else {
                    MapTile::Ground
                };
                if prev.is_none() {
                    map.set_terrain(q, MapTile::Door);
                    proof {
                        lemma_set_walkable(*self, a, *map, q, MapTile::Door);
                    }
                } else {
                    map.set_terrain(q, MapTile::Ground);
                    proof {
                        lemma_set_walkable(*self, a, *map, q, MapTile::Ground);
                    }
                }
                proof {
                    assert(first_dug(t0, ps, i as int) == prev.is_none());
                    assert forall|x: IVec2| #[trigger] seq_get(map.terrain@, x) == if x == q {
                        Some(tile)
                    } else {
                        seq_get(a.terrain@, x)
                    } by {
                        lemma_insert_get(a.terrain@, q, tile, x);
                    }
                    assert forall|k: int| 0 <= k < i + 1 implies open_in(map.terrain@, #[trigger] ps[k]) by {
                        if k < i {
                            assert(open_in(a.terrain@, ps[k]));
                        }
                    }
                    assert forall|k: int|
                        0 <= k < i + 1 && newly_dug(t0, ps, k) implies seq_get(map.terrain@, #[trigger] ps[k])
                        == Some(
                        if first_dug(t0, ps, k) {
                            MapTile::Door
                        } else {
                            MapTile::Ground
                        },
                    ) by {
                        if k < i {
                            assert(ps.take(i as int)[k] == ps[k]);
                            assert(ps[k] != q);
                        }
                    }
                    assert forall|x: IVec2| !dug_before(t0, ps, i + 1, x) implies #[trigger] seq_get(
                        map.terrain@,
                        x,
                    ) == seq_get(t0, x) by {
                        if x == q {
                            assert(dug_before(t0, ps, i + 1, x));
                        } else {
                            assert(!dug_before(t0, ps, i as int, x));
                        }
                    }
                }
                prev = Some(q);
            } else {
                proof {
                    assert(!newly_dug(t0, ps, i as int));
                    assert forall|x: IVec2| !dug_before(t0, ps, i + 1, x) implies #[trigger] seq_get(
                        map.terrain@,
                        x,
                    ) == seq_get(t0, x) by {
                        assert(!dug_before(t0, ps, i as int, x));
                    }
                }
            }
            i += 1;
        }
        if let Some(q) = prev {
            let ghost a = *map;
            proof {
                lemma_enclosure_defined(*self, m0, q);
            }
            map.set_terrain(q, MapTile::Door);
            proof {
                lemma_set_walkable(*self, a, *map, q, MapTile::Door);
                let l = choose|l: int|
                    0 <= l < n && newly_dug(t0, ps, l) && ps[l] == q && forall|j: int|
                        l < j < n ==> !newly_dug(t0, ps, j);
                assert(last_dug(t0, ps, l));
                assert forall|x: IVec2| #[trigger] seq_get(map.terrain@, x) == if x == q {
                    Some(MapTile::Door)
                } else {
                    seq_get(a.terrain@, x)
                } by {
                    lemma_insert_get(a.terrain@, q, MapTile::Door, x);
                }
                assert forall|k: int| newly_dug(t0, ps, k) implies seq_get(map.terrain@, #[trigger] ps[k])
                    == Some(
                    if first_dug(t0, ps, k) || last_dug(t0, ps, k) {
                        MapTile::Door
                    } else {
                        MapTile::Ground
                    },
                ) by {
                    if k != l {
                        if k < l {
                            assert(ps.take(l)[k] == ps[k]);
                        } else {
                            assert(ps.take(k)[l] == ps[l]);
                        }
                        assert(ps[k] != q);
                        assert(!last_dug(t0, ps, k));
                    }
                }
                assert forall|i: int| 0 <= i < ps.len() implies open_in(map.terrain@, #[trigger] ps[i]) by {
                    assert(open_in(a.terrain@, ps[i]));
                }
                assert forall|x: IVec2| !dug_before(t0, ps, ps.len() as int, x) implies #[trigger] seq_get(
                    map.terrain@,
                    x,
                ) == seq_get(t0, x) by {
                    if x == q {
                        assert(dug_before(t0, ps, ps.len() as int, x));
                    }
                }
            }
        } else {
            proof {
                assert forall|k: int| newly_dug(t0, ps, k) implies seq_get(map.terrain@, #[trigger] ps[k])
                    == Some(
                    if first_dug(t0, ps, k) || last_dug(t0, ps, k) {
                        MapTile::Door
                    } else {
                        MapTile::Ground
                    },
                ) by {
                    assert(!newly_dug(t0, ps, k));
                }
            }
        }
    }
}

/// Cell `i` of the path is dug: it was not open at the start and does not
/// occur earlier on the path.
pub open spec fn newly_dug(t: Seq<(IVec2, MapTile)>, path: Seq<IVec2>, i: int) -> bool {
    0 <= i < path.len() && !open_in(t, path[i]) && !path.take(i).contains(path[i])
}

/// Cell `i` is the first one dug along the path.
pub open spec fn first_dug(t: Seq<(IVec2, MapTile)>, path: Seq<IVec2>, i: int) -> bool {
    newly_dug(t, path, i) && forall|j: int| 0 <= j < i ==> !newly_dug(t, path, j)
}

/// Cell `i` is the last one dug along the path.
pub open spec fn last_dug(t: Seq<(IVec2, MapTile)>, path: Seq<IVec2>, i: int) -> bool {
    newly_dug(t, path, i) && forall|j: int| i < j < path.len() ==> !newly_dug(t, path, j)
}

/// Position `x` is dug at one of the first `n` cells of the path.
pub open spec fn dug_before(t: Seq<(IVec2, MapTile)>, path: Seq<IVec2>, n: int, x: IVec2) -> bool {
    exists|k: int| 0 <= k < n && newly_dug(t, path, k) && path[k] == x
}

/// Terrain `t1` is `t0` with a tunnel dug along `path`: every cell of the
/// path is open, the first and last dug cells are doors, the other dug
/// cells ground, and nothing else changes.
pub open spec fn tunnel_dug(t0: Seq<(IVec2, MapTile)>, t1: Seq<(IVec2, MapTile)>, path: Seq<IVec2>) -> bool {
    &&& forall|i: int| 0 <= i < path.len() ==> open_in(t1, #[trigger] path[i])
    &&& forall|i: int|
        newly_dug(t0, path, i) ==> seq_get(t1, #[trigger] path[i]) == Some(
            if first_dug(t0, path, i) || last_dug(t0, path, i) {
                MapTile::Door
            } else {
                MapTile::Ground
            },
        )
    &&& forall|x: IVec2| !dug_before(t0, path, path.len() as int, x) ==> #[trigger] seq_get(t1, x)
        == seq_get(t0, x)
}

/// The sector's rectangle.
pub open spec fn sector() -> Rect {
    Rect { min: IVec2 { x: 0, y: 0 }, max: IVec2 { x: SECTOR_WIDTH, y: SECTOR_HEIGHT } }
}

/// A rectangle moved by an offset.
pub open spec fn shifted(b: Rect, p: IVec2) -> Rect {
    Rect { min: b.min.plus(p), max: b.max.plus(p) }
}

/// Positions in the sector where a rectangle `b`, moved there, lies
/// entirely inside the sector.
fn room_spots(b: Rect) -> (r: Vec<IVec2>)
    requires
        -100 <= b.min.x <= 100,
        -100 <= b.min.y <= 100,
        -100 <= b.max.x <= 100,
        -100 <= b.max.y <= 100,
    ensures
        forall|j: int|
            0 <= j < r@.len() ==> sector().spec_contains(#[trigger] r@[j])
                && sector().spec_contains_other(shifted(b, r@[j])),
        forall|p: IVec2|
            sector().spec_contains(p) && sector().spec_contains_other(shifted(b, p))
                ==> r@.contains(p),
{
    let area = Rect::sized(ivec2(SECTOR_WIDTH, SECTOR_HEIGHT));
    let mut ret: Vec<IVec2> = Vec::new();
    let mut y: i32 = 0;
    while y < SECTOR_HEIGHT
        invariant
            0 <= y <= SECTOR_HEIGHT,
            area == sector(),
            -100 <= b.min.x <= 100,
            -100 <= b.min.y <= 100,
            -100 <= b.max.x <= 100,
            -100 <= b.max.y <= 100,
            forall|j: int|
                0 <= j < ret@.len() ==> sector().spec_contains(#[trigger] ret@[j])
                    && sector().spec_contains_other(shifted(b, ret@[j])),
            forall|p: IVec2|
                sector().spec_contains(p) && sector().spec_contains_other(shifted(b, p)) && p.y
                    < y ==> ret@.contains(p),
        decreases SECTOR_HEIGHT - y,
    {
        let mut x: i32 = 0;
        while x < SECTOR_WIDTH
            invariant
                0 <= y < SECTOR_HEIGHT,
                0 <= x <= SECTOR_WIDTH,
                area == sector(),
                -100 <= b.min.x <= 100,
                -100 <= b.min.y <= 100,
                -100 <= b.max.x <= 100,
                -100 <= b.max.y <= 100,
                forall|j: int|
                    0 <= j < ret@.len() ==> sector().spec_contains(#[trigger] ret@[j])
                        && sector().spec_contains_other(shifted(b, ret@[j])),
                forall|p: IVec2|
                    sector().spec_contains(p) && sector().spec_contains_other(shifted(b, p)) && (
                    p.y < y || (p.y == y && p.x < x)) ==> ret@.contains(p),
            decreases SECTOR_WIDTH - x,
        {
            let p = ivec2(x, y);
            let moved = b.offset(p);
            if area.contains_other(&moved) {
                let ghost before = ret@;
                ret.push(p);
                proof {
                    assert(ret@[before.len() as int] == p);
                    assert forall|q: IVec2|
                        sector().spec_contains(q) && sector().spec_contains_other(shifted(b, q)) && (
                        q.y < y || (q.y == y && q.x < x + 1)) implies ret@.contains(q) by {
                        if q != p {
                            let j = choose|j: int| 0 <= j < before.len() && before[j] == q;
                            assert(ret@[j] == q);
                        }
                    }
                }
            }
            x += 1;
        }
        y += 1;
    }
    ret
}

/// Where a `w` by `h` room can stand in the sector.
pub open spec fn room_fits(p: IVec2, w: int, h: int) -> bool {
    0 <= p.x && p.x + w <= SECTOR_WIDTH && 0 <= p.y && p.y + h <= SECTOR_HEIGHT
}

/// A walkable cell makes the list of walkable positions nonempty.
proof fn lemma_walkable_nonempty(t: Seq<(IVec2, MapTile)>, i: int)
    requires
        0 <= i < t.len(),
        t[i].1.spec_is_walkable(),
    ensures
        walkable_positions(t).len() > 0,
    decreases t.len(),
{
    if i < t.len() - 1 {
        assert(t.drop_last()[i] == t[i]);
        lemma_walkable_nonempty(t.drop_last(), i);
    }
}

/// Listed walkable positions are keys holding walkable terrain.
proof fn lemma_walkable_member(t: Seq<(IVec2, MapTile)>, k: int)
    requires
        keys_distinct(t),
        0 <= k < walkable_positions(t).len(),
    ensures
        open_in(t, walkable_positions(t)[k]),
        exists|i: int| 0 <= i < t.len() && (#[trigger] t[i]).0 == walkable_positions(t)[k],
    decreases t.len(),
{
    let u = t.drop_last();
    let w = walkable_positions(t);
    assert forall|a: int, b: int| 0 <= a < b < u.len() implies (#[trigger] u[a]).0
        != (#[trigger] u[b]).0 by {
        assert(t[a].0 != t[b].0);
    }
    if k < walkable_positions(u).len() {
        lemma_walkable_member(u, k);
        let i = choose|i: int| 0 <= i < u.len() && (#[trigger] u[i]).0 == walkable_positions(u)[k];
        assert(t[i] == u[i]);
        lemma_key_index(t, i);
    } else {
        lemma_key_index(t, t.len() - 1);
    }
}

/// A tunnel step goes to an open cell or to one with no terrain.
proof fn lemma_tunnel_step_target(t: Seq<(IVec2, MapTile)>, pos: IVec2, n: int, b: IVec2)
    requires
        tunnel_steps(t, pos, n).contains(b),
    ensures
        open_in(t, b) || !seq_has_key(t, b),
    decreases n,
{
    if n > 0 {
        let prev = tunnel_steps(t, pos, n - 1);
        let p2 = pos.plus(crate::geom::dir4(n - 1));
        if prev.contains(b) {
            lemma_tunnel_step_target(t, pos, n - 1, b);
        } else {
            let j = choose|j: int| 0 <= j < tunnel_steps(t, pos, n).len() && tunnel_steps(t, pos, n)[j] == b;
            assert(crate::patch::tunnel_step_ok(t, pos, p2));
            if j < prev.len() {
                assert(prev[j] == b);
            }
            assert(b == p2);
            if !open_in(t, b) {
                let front = p2.minus(pos);
                let side = crate::patch::quarter_turn(front);
                assert(!(open_in(t, pos.plus(side)) && open_in(t, pos.plus(side).plus(front))));
            }
        }
    }
}

/// Merging cells of ground or wall that passed the placement check leaves a
/// cell of wall, ground or upstairs as it was.
proof fn lemma_merge_keeps(
    t: Seq<(IVec2, MapTile)>,
    sp: Seq<(IVec2, Spawn)>,
    o: Seq<(IVec2, MapTile)>,
    off: IVec2,
    x: IVec2,
)
    requires
        keys_distinct(t),
        keys_distinct(o),
        keys_shiftable(o, off),
        forall|i: int|
            0 <= i < o.len() ==> placeable_at(t, sp, (#[trigger] o[i]).0.plus(off), o[i].1),
        forall|i: int|
            0 <= i < o.len() ==> (#[trigger] o[i]).1 == MapTile::Ground || o[i].1 == MapTile::Wall,
        seq_get(t, x) == Some(MapTile::Wall) || seq_get(t, x) == Some(MapTile::Ground) || seq_get(
            t,
            x,
        ) == Some(MapTile::Upstairs),
    ensures
        seq_get(seq_merge(t, o, off), x) == seq_get(t, x),
{
    if exists|i: int| 0 <= i < o.len() && (#[trigger] o[i]).0.plus(off) == x {
        let i = choose|i: int| 0 <= i < o.len() && (#[trigger] o[i]).0.plus(off) == x;
        lemma_merge_shifted(t, o, off, i);
        assert(placeable_at(t, sp, o[i].0.plus(off), o[i].1));
    } else {
        lemma_merge_untouched(t, o, off, x);
    }
}

/// Merging a room that passed the placement check into a level map keeps
/// the level invariant and keeps walkable cells walkable.
proof fn lemma_place_room(
    lv: Level,
    a: FlatPatch,
    m: FlatPatch,
    room: FlatPatch,
    w: int,
    h: int,
    p: IVec2,
)
    requires
        partial_level(lv, a),
        is_room(room, w, h),
        room_fits(p, w, h),
        forall|i: int|
            0 <= i < room.terrain@.len() ==> placeable_at(
                a.terrain@,
                a.spawns@,
                (#[trigger] room.terrain@[i]).0.plus(p),
                room.terrain@[i].1,
            ),
        m.wf(),
        m.terrain@ == seq_merge(a.terrain@, room.terrain@, p),
        m.entrance == if a.entrance is None {
            Some(room.entrance.unwrap().plus(p))
        } else {
            a.entrance
        },
    ensures
        partial_level(lv, m),
        forall|x: IVec2| open_in(a.terrain@, x) ==> open_in(m.terrain@, x),
{
    let t = a.terrain@;
    let o = room.terrain@;
    assert(keys_shiftable(o, p)) by {
        assert forall|i: int| 0 <= i < o.len() implies (#[trigger] o[i]).0.can_add(p) by {
            assert(in_room(o[i].0, w, h) || room_corner(o[i].0, w, h));
        }
    }
    assert forall|x: IVec2| open_in(t, x) implies open_in(m.terrain@, x) by {
        lemma_merge_placed(t, a.spawns@, o, p, x);
    }
    assert forall|x: IVec2| seq_get(m.terrain@, x) != Some(MapTile::Downstairs) by {
        lemma_merge_keys(t, o, p, x);
        if exists|i: int| 0 <= i < o.len() && (#[trigger] o[i]).0.plus(p) == x {
            let i = choose|i: int| 0 <= i < o.len() && (#[trigger] o[i]).0.plus(p) == x;
            lemma_merge_shifted(t, o, p, i);
            lemma_key_index(o, i);
            assert(in_room(o[i].0, w, h) || room_corner(o[i].0, w, h));
        } else {
            lemma_merge_untouched(t, o, p, x);
        }
    }
    assert forall|i: int| 0 <= i < m.terrain@.len() implies level_cell(
        lv,
        (#[trigger] m.terrain@[i]).0,
        1,
        1,
    ) by {
        let x = m.terrain@[i].0;
        lemma_key_index(m.terrain@, i);
        lemma_merge_keys(t, o, p, x);
        if seq_has_key(t, x) {
            let j = seq_key_index(t, x);
            assert(t[j].0 == x);
        } else {
            let j = choose|j: int| 0 <= j < o.len() && (#[trigger] o[j]).0.plus(p) == x;
            assert(in_room(o[j].0, w, h) || room_corner(o[j].0, w, h));
        }
    }
    if let Some(u) = lv.upstairs {
        assert forall|i: int| 0 <= i < o.len() implies (#[trigger] o[i]).1 == MapTile::Ground
            || o[i].1 == MapTile::Wall by {
            lemma_key_index(o, i);
            assert(in_room(o[i].0, w, h) || room_corner(o[i].0, w, h));
        }
        lemma_merge_keeps(t, a.spawns@, o, p, u);
        lemma_merge_keeps(t, a.spawns@, o, p, u.plus(spec_ivec2(0, 1)));
        lemma_merge_keeps(t, a.spawns@, o, p, u.plus(spec_ivec2(-1, 0)));
        lemma_merge_keeps(t, a.spawns@, o, p, u.plus(spec_ivec2(1, 0)));
        lemma_merge_keeps(t, a.spawns@, o, p, u.plus(spec_ivec2(-1, -1)));
        lemma_merge_keeps(t, a.spawns@, o, p, u.plus(spec_ivec2(0, -1)));
        lemma_merge_keeps(t, a.spawns@, o, p, u.plus(spec_ivec2(1, -1)));
    }
    if let Some(e) = m.entrance {
        if a.entrance is None {
            let re = room.entrance.unwrap();
            assert(seq_get(o, re) == Some(MapTile::Ground));
            let i = seq_key_index(o, re);
            lemma_merge_shifted(t, o, p, i);
        } else {
            lemma_merge_placed(t, a.spawns@, o, p, e);
        }
    }
}

/// Cells of a room's walkable area moved by `p`: where a tunnel to the
/// room may end.
pub open spec fn shifted_goals(room: Seq<(IVec2, MapTile)>, p: IVec2) -> Seq<IVec2> {
    walkable_positions(room).map_values(|x: IVec2| x.plus(p))
}

/// The room with terrain `room` was put into the map `t` at `p` and joined
/// to it by the tunnel that astar finds from `start`, an open cell of `t`,
/// towards `end`, a walkable cell of the moved room, giving the terrain
/// `final_t`.
pub open spec fn tunnel_placed(
    t: Seq<(IVec2, MapTile)>,
    room: Seq<(IVec2, MapTile)>,
    p: IVec2,
    final_t: Seq<(IVec2, MapTile)>,
    start: IVec2,
    end: IVec2,
    path: Seq<IVec2>,
) -> bool {
    let m = seq_merge(t, room, p);
    &&& walkable_positions(t).contains(start)
    &&& shifted_goals(room, p).contains(end)
    &&& astar_tunnel(m, start, end, shifted_goals(room, p)) == Some(path)
    &&& tunnel_dug(m, final_t, path)
}

/// The room of terrain `o` can be dropped at `p` without clobbering the
/// map with terrain `t` and spawns `sp`.
pub open spec fn room_placeable(
    t: Seq<(IVec2, MapTile)>,
    sp: Seq<(IVec2, Spawn)>,
    o: Seq<(IVec2, MapTile)>,
    p: IVec2,
) -> bool {
    forall|i: int| 0 <= i < o.len() ==> placeable_at(t, sp, (#[trigger] o[i]).0.plus(p), o[i].1)
}

/// The room of terrain `o` does not go at `p`: it would clobber the map, or
/// the tunnel search from an open cell of the map to a cell of the moved
/// room found nothing.
pub open spec fn spot_refused(
    t: Seq<(IVec2, MapTile)>,
    sp: Seq<(IVec2, Spawn)>,
    o: Seq<(IVec2, MapTile)>,
    p: IVec2,
) -> bool {
    !room_placeable(t, sp, o, p) || exists|start: IVec2, end: IVec2|
        #![trigger astar_tunnel(seq_merge(t, o, p), start, end, shifted_goals(o, p))]
        walkable_positions(t).contains(start) && shifted_goals(o, p).contains(end) && astar_tunnel(
            seq_merge(t, o, p),
            start,
            end,
            shifted_goals(o, p),
        ) is None
}

/// No spot where a `w` by `h` room fits in the sector takes the room of
/// terrain `o`.
pub open spec fn room_refused(
    t: Seq<(IVec2, MapTile)>,
    sp: Seq<(IVec2, Spawn)>,
    o: Seq<(IVec2, MapTile)>,
    w: int,
    h: int,
) -> bool {
    forall|p: IVec2| room_fits(p, w, h) ==> #[trigger] spot_refused(t, sp, o, p)
}

/// A room does not go again where it already stands: its corner cell
/// would open a square of ground.
proof fn lemma_room_not_again(
    t: Seq<(IVec2, MapTile)>,
    sp: Seq<(IVec2, Spawn)>,
    o: Seq<(IVec2, MapTile)>,
    p: IVec2,
    w: int,
    h: int,
)
    requires
        room_terrain(o, w, h),
        room_at(t, p, w, h),
    ensures
        spot_refused(t, sp, o, p),
{
    let c = spec_ivec2(0, 0);
    assert(in_room(c, w, h));
    assert(seq_get(o, c) == Some(MapTile::Ground));
    let i = seq_key_index(o, c);
    assert(o[i].0 == c && o[i].1 == MapTile::Ground);
    let q = c.plus(p);
    assert(open_in(t, q));
    let e = spec_ivec2(1, 0);
    let se = spec_ivec2(1, 1);
    let s = spec_ivec2(0, 1);
    assert(in_room(e, w, h));
    assert(in_room(se, w, h));
    assert(in_room(s, w, h));
    assert(open_in(t, e.plus(p)));
    assert(open_in(t, se.plus(p)));
    assert(open_in(t, s.plus(p)));
    assert(q.plus(dir8(2)) == e.plus(p));
    assert(q.plus(dir8(3)) == se.plus(p));
    assert(q.plus(dir8(4)) == s.plus(p));
    assert(opens_square(t, q, 2));
    assert(!placeable_at(t, sp, o[i].0.plus(p), o[i].1));
    assert(!room_placeable(t, sp, o, p)) by {
        if room_placeable(t, sp, o, p) {
            assert(placeable_at(t, sp, o[i].0.plus(p), o[i].1));
        }
    }
}

/// The terrain of a `w` by `h` room at the origin: ground on every interior
/// cell, undiggable wall on the four corners and nothing else.
pub open spec fn room_terrain(o: Seq<(IVec2, MapTile)>, w: int, h: int) -> bool {
    &&& 2 <= w <= 10 && 2 <= h <= 10
    &&& keys_distinct(o)
    &&& forall|x: IVec2| in_room(x, w, h) ==> seq_get(o, x) == Some(MapTile::Ground)
    &&& forall|x: IVec2| room_corner(x, w, h) ==> seq_get(o, x) == Some(MapTile::Wall)
    &&& forall|i: int|
        0 <= i < o.len() ==> in_room((#[trigger] o[i]).0, w, h) || room_corner(o[i].0, w, h)
}

/// A `w` by `h` room stands at `p` in the terrain: inside the sector, its
/// cells open and its corners undiggable wall.
pub open spec fn room_at(t: Seq<(IVec2, MapTile)>, p: IVec2, w: int, h: int) -> bool {
    &&& 2 <= w <= 10 && 2 <= h <= 10
    &&& room_fits(p, w, h)
    &&& forall|x: IVec2| in_room(x, w, h) ==> open_in(t, #[trigger] x.plus(p))
    &&& forall|x: IVec2| room_corner(x, w, h) ==> seq_get(t, #[trigger] x.plus(p)) == Some(MapTile::Wall)
}

/// Names of the spawns of a map, by position.
pub type SpawnNames = Seq<(IVec2, Seq<char>)>;

/// What a level map holds while it is built: its terrain and the names of
/// its spawns.
pub type LevelCells = (Seq<(IVec2, MapTile)>, SpawnNames);

/// The map `b` is `a` with the room of terrain `o` and spawns `os` put at
/// `p`: the room's spawns, each inside the room and passing the name test
/// `ok`, merged into the map's at the room's place; its terrain dropped as
/// it is where `a` has no open cell, otherwise joined to an open cell of `a`
/// by the tunnel that astar finds.
pub open spec fn room_put(
    a: LevelCells,
    b: LevelCells,
    o: Seq<(IVec2, MapTile)>,
    os: SpawnNames,
    p: IVec2,
    w: int,
    h: int,
    ok: spec_fn(Seq<char>) -> bool,
) -> bool {
    &&& room_terrain(o, w, h)
    &&& room_fits(p, w, h)
    &&& forall|i: int| 0 <= i < os.len() ==> in_room((#[trigger] os[i]).0, w, h) && ok(os[i].1)
    &&& b.1 == seq_merge(a.1, os, p)
    &&& if walkable_positions(a.0).len() == 0 {
        b.0 == seq_merge(a.0, o, p)
    } else {
        exists|start: IVec2, end: IVec2, path: Seq<IVec2>| #[trigger] tunnel_placed(a.0, o, p, b.0, start, end, path)
    }
}

/// The map `b` is `a` with one more room put in.
pub open spec fn room_added(a: LevelCells, b: LevelCells, ok: spec_fn(Seq<char>) -> bool) -> bool {
    exists|o: Seq<(IVec2, MapTile)>, os: SpawnNames, p: IVec2, w: int, h: int|
        #[trigger] room_put(a, b, o, os, p, w, h, ok)
}

/// The map after step `i` of `ts` is the one before it with one more room
/// put in.
pub open spec fn chain_link(ts: Seq<LevelCells>, i: int, ok: spec_fn(Seq<char>) -> bool) -> bool {
    room_added(ts[i], ts[i + 1], ok)
}

/// Each map of `ts` after the first is the one before it with one more room
/// put in.
pub open spec fn room_chain(ts: Seq<LevelCells>, ok: spec_fn(Seq<char>) -> bool) -> bool {
    ts.len() > 0 && forall|i: int| 0 <= i < ts.len() - 1 ==> #[trigger] chain_link(ts, i, ok)
}

/// Terrain of a level before any room is put in: the upstairs with ground
/// below it and undiggable wall on its other sides, or nothing.
pub open spec fn start_cell(lv: Level, x: IVec2) -> Option<MapTile> {
    match lv.upstairs {
        None => None,
        Some(u) => if x == u {
            Some(MapTile::Upstairs)
        } else if x == u.plus(spec_ivec2(0, 1)) {
            Some(MapTile::Ground)
        } else if in_enclosure(u, x) {
            Some(MapTile::Wall)
        } else {
            None
        },
    }
}

/// The terrain `t` and spawns `sp` of a level whose rooms are laid out:
/// the map is reached from the level's starting terrain, with no spawns,
/// by putting in rooms one after another, each with its spawns, whose names
/// pass `ok`: at most eighteen rooms (a first room dropped on an empty map
/// is put in once more, joined by a tunnel), at least six unless the next
/// room found no spot in the map; and the map holds a room when the level
/// has no upstairs.
pub open spec fn rooms_laid(
    lv: Level,
    t: Seq<(IVec2, MapTile)>,
    sp: Seq<(IVec2, Spawn)>,
    ok: spec_fn(Seq<char>) -> bool,
) -> bool {
    &&& exists|ts: Seq<LevelCells>|
        #[trigger] room_chain(ts, ok) && (forall|x: IVec2| #[trigger] seq_get(ts[0].0, x) == start_cell(lv, x))
            && ts[0].1.len() == 0 && ts.last() == (t, spawn_names(sp)) && ts.len() <= 19 && (ts.len() > 6
            || exists|o: Seq<(IVec2, MapTile)>, w: int, h: int|
            #[trigger] room_refused(t, sp, o, w, h) && room_terrain(o, w, h))
    &&& lv.upstairs is None ==> exists|p: IVec2, w: int, h: int| #[trigger] room_at(t, p, w, h)
}

/// A map with a room standing in it has an open cell.
proof fn lemma_room_walkable(t: Seq<(IVec2, MapTile)>, p: IVec2, w: int, h: int)
    requires
        room_at(t, p, w, h),
    ensures
        walkable_positions(t).len() > 0,
{
    let c = spec_ivec2(0, 0);
    assert(in_room(c, w, h));
    assert(open_in(t, c.plus(p)));
    lemma_walkable_nonempty(t, seq_key_index(t, c.plus(p)));
}

/// The map `m` is the built map `b` finished: with a downstairs dug at a
/// spot of `b` when one is asked for, otherwise `b` as it is.
pub open spec fn level_finished(lv: Level, b: FlatPatch, m: FlatPatch) -> bool {
    &&& m.spawns@ == b.spawns@
    &&& m.entrance == b.entrance
    &&& if lv.generate_downstairs {
        exists|d: IVec2| #[trigger] downstairs_spot(b.terrain@, d) && stairwell_dug(b.terrain@, m.terrain@, d)
    } else {
        m.terrain@ == b.terrain@
    }
}

/// A chain grows by one more room.
proof fn lemma_chain_push(ts: Seq<LevelCells>, t1: LevelCells, ok: spec_fn(Seq<char>) -> bool)
    requires
        room_chain(ts, ok),
        room_added(ts.last(), t1, ok),
    ensures
        room_chain(ts.push(t1), ok),
        ts.push(t1)[0] == ts[0],
        ts.push(t1).last() == t1,
{
    let n = ts.push(t1);
    assert forall|i: int| 0 <= i < n.len() - 1 implies #[trigger] chain_link(n, i, ok) by {
        if i < ts.len() - 1 {
            assert(chain_link(ts, i, ok));
            assert(n[i] == ts[i]);
            assert(n[i + 1] == ts[i + 1]);
        } else {
            assert(n[i] == ts.last());
            assert(n[i + 1] == t1);
        }
    }
}

/// Two chains, the second starting where the first ends, make one chain.
proof fn lemma_chain_append(a: Seq<LevelCells>, b: Seq<LevelCells>, ok: spec_fn(Seq<char>) -> bool)
    requires
        room_chain(a, ok),
        room_chain(b, ok),
        b[0] == a.last(),
    ensures
        room_chain(a + b.drop_first(), ok),
        (a + b.drop_first())[0] == a[0],
        (a + b.drop_first()).last() == b.last(),
{
    let n = a + b.drop_first();
    let k = a.len();
    assert forall|i: int| 0 <= i < n.len() - 1 implies #[trigger] chain_link(n, i, ok) by {
        if i < k - 1 {
            assert(chain_link(a, i, ok));
            assert(n[i] == a[i]);
            assert(n[i + 1] == a[i + 1]);
        } else {
            let j = i - k + 1;
            assert(chain_link(b, j, ok));
            if i == k - 1 {
                assert(n[i] == a.last());
            } else {
                assert(n[i] == b.drop_first()[i - k]);
            }
            assert(n[i + 1] == b.drop_first()[i + 1 - k]);
        }
    }
    if b.len() > 1 {
        assert(n.last() == b.drop_first().last());
    }
}

/// A room put into a map, dropped or joined by a tunnel, with its spawns
/// merged in, is a step of a room chain.
proof fn lemma_put_step(
    a: FlatPatch,
    b: FlatPatch,
    room: FlatPatch,
    p: IVec2,
    w: int,
    h: int,
    ok: spec_fn(Seq<char>) -> bool,
    start: IVec2,
    end: IVec2,
    path: Seq<IVec2>,
)
    requires
        is_room(room, w, h),
        room_terrain(room.terrain@, w, h),
        room_fits(p, w, h),
        names_ok(room.spawns@, ok),
        spawn_names(b.spawns@) == seq_merge(spawn_names(a.spawns@), spawn_names(room.spawns@), p),
        if walkable_positions(a.terrain@).len() == 0 {
            b.terrain@ == seq_merge(a.terrain@, room.terrain@, p)
        } else {
            tunnel_placed(a.terrain@, room.terrain@, p, b.terrain@, start, end, path)
        },
    ensures
        room_added((a.terrain@, spawn_names(a.spawns@)), (b.terrain@, spawn_names(b.spawns@)), ok),
{
    let os = spawn_names(room.spawns@);
    assert forall|i: int| 0 <= i < os.len() implies in_room((#[trigger] os[i]).0, w, h) && ok(os[i].1) by {
        assert(os[i] == (room.spawns@[i].0, room.spawns@[i].1@));
    }
    let ca: LevelCells = (a.terrain@, spawn_names(a.spawns@));
    let cb: LevelCells = (b.terrain@, spawn_names(b.spawns@));
    if walkable_positions(a.terrain@).len() != 0 {
        assert(tunnel_placed(ca.0, room.terrain@, p, cb.0, start, end, path));
    }
    assert(room_put(
        ca,
        cb,
        room.terrain@,
        os,
        p,
        w,
        h,
        ok,
    ));
}

/// Tiles of a room are ground or wall.
proof fn lemma_room_tiles(o: Seq<(IVec2, MapTile)>, w: int, h: int)
    requires
        room_terrain(o, w, h),
    ensures
        forall|i: int|
            0 <= i < o.len() ==> (#[trigger] o[i]).1 == MapTile::Ground || o[i].1 == MapTile::Wall,
{
    assert forall|i: int| 0 <= i < o.len() implies (#[trigger] o[i]).1 == MapTile::Ground
        || o[i].1 == MapTile::Wall by {
        lemma_key_index(o, i);
        assert(in_room(o[i].0, w, h) || room_corner(o[i].0, w, h));
    }
}

/// Merging a room that passed the placement check leaves every room of the
/// map standing.
proof fn lemma_room_kept_merge(
    t: Seq<(IVec2, MapTile)>,
    sp: Seq<(IVec2, Spawn)>,
    o: Seq<(IVec2, MapTile)>,
    off: IVec2,
    w: int,
    h: int,
    q: IVec2,
    w2: int,
    h2: int,
)
    requires
        keys_distinct(t),
        room_terrain(o, w, h),
        keys_shiftable(o, off),
        forall|i: int|
            0 <= i < o.len() ==> placeable_at(t, sp, (#[trigger] o[i]).0.plus(off), o[i].1),
        room_at(t, q, w2, h2),
    ensures
        room_at(seq_merge(t, o, off), q, w2, h2),
{
    lemma_room_tiles(o, w, h);
    assert forall|x: IVec2| in_room(x, w2, h2) implies open_in(seq_merge(t, o, off), #[trigger] x.plus(q)) by {
        lemma_merge_placed(t, sp, o, off, x.plus(q));
    }
    assert forall|x: IVec2| room_corner(x, w2, h2) implies seq_get(seq_merge(t, o, off), #[trigger] x.plus(q))
        == Some(MapTile::Wall) by {
        lemma_merge_keeps(t, sp, o, off, x.plus(q));
    }
}

/// Digging a tunnel through open or undefined cells leaves walls standing.
proof fn lemma_dig_keeps_wall(
    t0: Seq<(IVec2, MapTile)>,
    t1: Seq<(IVec2, MapTile)>,
    path: Seq<IVec2>,
    x: IVec2,
)
    requires
        tunnel_dug(t0, t1, path),
        forall|i: int|
            0 <= i < path.len() ==> open_in(t0, #[trigger] path[i]) || !seq_has_key(t0, path[i]),
        seq_get(t0, x) == Some(MapTile::Wall),
    ensures
        seq_get(t1, x) == Some(MapTile::Wall),
{
    if dug_before(t0, path, path.len() as int, x) {
        let k = choose|k: int| 0 <= k < path.len() && newly_dug(t0, path, k) && path[k] == x;
        assert(open_in(t0, path[k]) || !seq_has_key(t0, path[k]));
    }
}

/// Digging a tunnel through open or undefined cells leaves every room of
/// the map standing.
proof fn lemma_room_kept_dig(
    t0: Seq<(IVec2, MapTile)>,
    t1: Seq<(IVec2, MapTile)>,
    path: Seq<IVec2>,
    q: IVec2,
    w: int,
    h: int,
)
    requires
        tunnel_dug(t0, t1, path),
        forall|i: int|
            0 <= i < path.len() ==> open_in(t0, #[trigger] path[i]) || !seq_has_key(t0, path[i]),
        forall|x: IVec2| open_in(t0, x) ==> open_in(t1, x),
        room_at(t0, q, w, h),
    ensures
        room_at(t1, q, w, h),
{
    assert forall|x: IVec2| room_corner(x, w, h) implies seq_get(t1, #[trigger] x.plus(q)) == Some(
        MapTile::Wall,
    ) by {
        lemma_dig_keeps_wall(t0, t1, path, x.plus(q));
    }
    assert forall|x: IVec2| in_room(x, w, h) implies open_in(t1, #[trigger] x.plus(q)) by {
        assert(open_in(t0, x.plus(q)));
    }
}

impl Level {
    /// Try the spots where `room` fits in the sector, in random order, and
    /// put the room at the first one where it clobbers nothing and a tunnel
    /// can be dug from the existing map to it. On a map with no open cell
    /// the room is put down without a tunnel and the search goes on. Gives
    /// back whether the room was joined by a tunnel, and the terrains the
    /// map went through, one per room put in.
    #[verifier::spinoff_prover]
    #[verifier::rlimit(80)]
    fn place_room(
        &self,
        ret: &mut FlatPatch,
        room: &FlatPatch,
        rng: &mut StdRng,
        Ghost(w): Ghost<int>,
        Ghost(h): Ghost<int>,
        Ghost(ok): Ghost<spec_fn(Seq<char>) -> bool>,
    ) -> (r: (bool, Ghost<Seq<LevelCells>>))
        requires
            partial_level(*self, *old(ret)),
            is_room(*room, w, h),
            upstairs_fits(*self),
            names_ok(old(ret).spawns@, ok),
            names_ok(room.spawns@, ok),
        ensures
            partial_level(*self, *final(ret)),
            names_ok(final(ret).spawns@, ok),
            forall|x: IVec2| open_in(old(ret).terrain@, x) ==> open_in(final(ret).terrain@, x),
            r.0 ==> exists|p: IVec2| #[trigger] room_at(final(ret).terrain@, p, w, h),
            old(ret).terrain@.len() == 0 ==> exists|p: IVec2| #[trigger] room_at(final(ret).terrain@, p, w, h),
            forall|q: IVec2, w2: int, h2: int|
                #[trigger] room_at(old(ret).terrain@, q, w2, h2) ==> room_at(final(ret).terrain@, q, w2, h2),
            room_chain(r.1@, ok),
            r.1@[0] == (old(ret).terrain@, spawn_names(old(ret).spawns@)),
            r.1@.last() == (final(ret).terrain@, spawn_names(final(ret).spawns@)),
            r.0 ==> r.1@.len() >= 2,
            r.1@.len() <= 3,
            walkable_positions(old(ret).terrain@).len() > 0 ==> r.1@.len() <= 2,
            !r.0 && walkable_positions(old(ret).terrain@).len() > 0 ==> r.1@.len() == 1,
            !r.0 && (walkable_positions(old(ret).terrain@).len() > 0 || old(ret).terrain@.len() == 0)
                ==> room_refused(final(ret).terrain@, final(ret).spawns@, room.terrain@, w, h),
            !r.0 && walkable_positions(old(ret).terrain@).len() > 0 ==> final(ret).terrain@
                == old(ret).terrain@ && final(ret).spawns@ == old(ret).spawns@ && final(ret).entrance
                == old(ret).entrance,
            r.0 ==> exists|t: Seq<(IVec2, MapTile)>, p: IVec2, start: IVec2, end: IVec2, path: Seq<IVec2>|
                #![trigger tunnel_placed(t, room.terrain@, p, final(ret).terrain@, start, end, path)]
                room_fits(p, w, h) && tunnel_placed(
                    t,
                    room.terrain@,
                    p,
                    final(ret).terrain@,
                    start,
                    end,
                    path,
                ) && (walkable_positions(old(ret).terrain@).len() > 0 ==> t == old(ret).terrain@),
    {
        let ghost r0 = *ret;
        let ghost origin = spec_ivec2(0, 0);
        let ghost far = spec_ivec2(w - 1, h - 1);
        proof {
            assert(in_room(origin, w, h));
            assert(in_room(far, w, h));
            let i0 = seq_key_index(room.terrain@, origin);
            let i1 = seq_key_index(room.terrain@, far);
            assert(room.terrain@[i0].1 == MapTile::Ground);
            assert(room.terrain@[i1].1 == MapTile::Ground);
            assert forall|i: int| 0 <= i < room.terrain@.len() && (#[trigger] room.terrain@[i]).1
                != MapTile::Wall implies in_room(room.terrain@[i].0, w, h) by {
                lemma_key_index(room.terrain@, i);
            }
            assert(room_terrain(room.terrain@, w, h));
        }
        let b = room.bounds();
        proof {
            // The room's open cells span exactly its `w` by `h` rectangle.
            let t = room.terrain@;
            let i0 = seq_key_index(t, origin);
            assert(t[i0].1 != MapTile::Wall);
            let ia = choose|i: int| 0 <= i < t.len() && (#[trigger] t[i]).1 != MapTile::Wall && t[i].0.x == b.min.x;
            let ib = choose|i: int| 0 <= i < t.len() && (#[trigger] t[i]).1 != MapTile::Wall && t[i].0.y == b.min.y;
            let ic = choose|i: int| 0 <= i < t.len() && (#[trigger] t[i]).1 != MapTile::Wall && t[i].0.x == b.max.x - 1;
            let id = choose|i: int| 0 <= i < t.len() && (#[trigger] t[i]).1 != MapTile::Wall && t[i].0.y == b.max.y - 1;
            assert(in_room(t[ia].0, w, h));
            assert(in_room(t[ib].0, w, h));
            assert(in_room(t[ic].0, w, h));
            assert(in_room(t[id].0, w, h));
            let i1 = seq_key_index(t, far);
            assert(b.spec_contains(t[i0].0));
            assert(b.spec_contains(t[i1].0));
            assert(b == Rect { min: IVec2 { x: 0, y: 0 }, max: IVec2 { x: w as i32, y: h as i32 } });
            assert(sector().spec_contains(origin));
            assert(shifted(b, origin) == b);
        }
        let mut posns = room_spots(b);
        let ghost spots = posns@;
        shuffle_points(&mut posns, rng);
        proof {
            spots.to_multiset_ensures();
            posns@.to_multiset_ensures();
            assert(spots.contains(origin));
            assert(posns@.to_multiset().count(origin) > 0);
            assert forall|j: int| 0 <= j < posns@.len() implies room_fits(
                #[trigger] posns@[j],
                w,
                h,
            ) by {
                assert(posns@.contains(posns@[j]));
                assert(posns@.to_multiset().count(posns@[j]) > 0);
                assert(spots.contains(posns@[j]));
                let k = choose|k: int| 0 <= k < spots.len() && spots[k] == posns@[j];
                assert(sector().spec_contains_other(shifted(b, spots[k])));
            }
            assert forall|q: IVec2| room_fits(q, w, h) implies spots.contains(q) by {
                assert(sector().spec_contains(q));
                assert(sector().spec_contains_other(shifted(b, q)));
            }
            assert forall|x: IVec2| spots.contains(x) implies posns@.contains(x) by {
                assert(spots.to_multiset().count(x) > 0);
            }
        }
        let mut placed = false;
        let ghost mut any = false;
        let ghost mut steps = seq![(ret.terrain@, spawn_names(ret.spawns@))];
        let ghost mut tried: Seq<IVec2> = Seq::empty();
        while !placed && posns.len() > 0
            invariant
                partial_level(*self, *ret),
                is_room(*room, w, h),
                room_terrain(room.terrain@, w, h),
                upstairs_fits(*self),
                names_ok(ret.spawns@, ok),
                names_ok(room.spawns@, ok),
                forall|j: int| 0 <= j < posns@.len() ==> room_fits(#[trigger] posns@[j], w, h),
                forall|x: IVec2| open_in(r0.terrain@, x) ==> open_in(ret.terrain@, x),
                placed ==> any,
                any ==> exists|p: IVec2| #[trigger] room_at(ret.terrain@, p, w, h),
                r0.terrain@.len() == 0 && !any ==> ret.terrain@.len() == 0 && posns@.len() > 0,
                forall|q: IVec2, w2: int, h2: int|
                    #[trigger] room_at(r0.terrain@, q, w2, h2) ==> room_at(ret.terrain@, q, w2, h2),
                room_chain(steps, ok),
                steps[0] == (r0.terrain@, spawn_names(r0.spawns@)),
                steps.last() == (ret.terrain@, spawn_names(ret.spawns@)),
                placed ==> steps.len() >= 2,
                !any ==> steps.len() == 1,
                any && !placed ==> steps.len() == 2,
                steps.len() <= 3,
                walkable_positions(r0.terrain@).len() > 0 ==> steps.len() <= 2,
                walkable_positions(r0.terrain@).len() > 0 && !placed ==> steps.len() == 1,
                forall|q: IVec2| room_fits(q, w, h) ==> spots.contains(q),
                forall|x: IVec2| spots.contains(x) ==> posns@.contains(x) || tried.contains(x),
                !placed && (walkable_positions(r0.terrain@).len() > 0 || r0.terrain@.len() == 0)
                    ==> forall|j: int|
                    0 <= j < tried.len() ==> spot_refused(
                        ret.terrain@,
                        ret.spawns@,
                        room.terrain@,
                        #[trigger] tried[j],
                    ),
                r0.terrain@.len() == 0 && !any ==> tried.len() == 0,
                any ==> walkable_positions(ret.terrain@).len() > 0,
                !placed && walkable_positions(r0.terrain@).len() > 0 ==> ret.terrain@
                    == r0.terrain@ && ret.spawns@ == r0.spawns@ && ret.entrance == r0.entrance,
                placed ==> exists|t: Seq<(IVec2, MapTile)>, p: IVec2, start: IVec2, end: IVec2, path: Seq<IVec2>|
                    #![trigger tunnel_placed(t, room.terrain@, p, ret.terrain@, start, end, path)]
                    room_fits(p, w, h) && tunnel_placed(
                        t,
                        room.terrain@,
                        p,
                        ret.terrain@,
                        start,
                        end,
                        path,
                    ) && (walkable_positions(r0.terrain@).len() > 0 ==> t == r0.terrain@),
            decreases posns.len(),
        {
            let ghost before_pop = posns@;
            let ghost tried0 = tried;
            let p = posns.pop().unwrap();
            assert(p == before_pop[before_pop.len() - 1]);
            assert(room_fits(p, w, h));
            proof {
                tried = tried.push(p);
                assert forall|x: IVec2| spots.contains(x) implies posns@.contains(x) || tried.contains(x) by {
                    if before_pop.contains(x) {
                        let k = choose|k: int| 0 <= k < before_pop.len() && before_pop[k] == x;
                        if k == before_pop.len() - 1 {
                            assert(tried[tried.len() - 1] == x);
                        } else {
                            assert(posns@[k] == x);
                        }
                    } else {
                        let k = choose|k: int| 0 <= k < tried0.len() && tried0[k] == x;
                        assert(tried[k] == x);
                    }
                }
            }
            proof {
                assert forall|i: int| 0 <= i < room.terrain@.len() implies (#[trigger] room.terrain@[i]).0.can_add(p)
                    && crate::geom::has_neighbors(room.terrain@[i].0.plus(p)) by {
                    assert(in_room(room.terrain@[i].0, w, h) || room_corner(room.terrain@[i].0, w, h));
                }
            }
            if ret.can_place(p, room) {
                let mut map = ret.clone();
                let start_cells = map.open_area();
                let room_open = room.open_area();
                let mut end_cells: Vec<IVec2> = Vec::new();
                let n = room_open.len();
                let mut k: usize = 0;
                proof {
                    assert forall|j: int| 0 <= j < n implies #[trigger] in_room(room_open@[j], w, h) by {
                        lemma_walkable_member(room.terrain@, j);
                        let i = choose|i: int| 0 <= i < room.terrain@.len() && (#[trigger] room.terrain@[i]).0 == room_open@[j];
                        lemma_key_index(room.terrain@, i);
                        if room_corner(room_open@[j], w, h) {
                            assert(seq_get(room.terrain@, room_open@[j]) == Some(MapTile::Wall));
                        }
                    }
                }
                while k < n
                    invariant
                        n == room_open@.len(),
                        k <= n,
                        room_fits(p, w, h),
                        forall|j: int| 0 <= j < n ==> #[trigger] in_room(room_open@[j], w, h),
                        end_cells@.len() == k,
                        forall|j: int| 0 <= j < k ==> #[trigger] end_cells@[j] == room_open@[j].plus(p),
                    decreases n - k,
                {
                    assert(in_room(room_open@[k as int], w, h));
                    end_cells.push(room_open[k].add(p));
                    k += 1;
                }
                let copy = room.clone();
                proof {
                    assert(spawn_names(copy.spawns@).len() == copy.spawns@.len());
                    assert(spawn_names(room.spawns@).len() == room.spawns@.len());
                    assert forall|i: int| 0 <= i < copy.spawns@.len() implies (#[trigger] copy.spawns@[i]).0.can_add(p) by {
                        assert(spawn_names(copy.spawns@)[i].0 == copy.spawns@[i].0);
                        assert(spawn_names(room.spawns@)[i].0 == room.spawns@[i].0);
                        assert(in_room(room.spawns@[i].0, w, h));
                    }
                }
                let ghost a = *ret;
                let ghost before = map.spawns@;
                let ghost copied = copy.spawns@;
                map.merge(p, copy);
                proof {
                    lemma_place_room(*self, a, map, *room, w, h, p);
                    lemma_names_ok_same(before, a.spawns@, ok);
                    lemma_names_ok_same(copied, room.spawns@, ok);
                    lemma_merge_names_ok(before, copied, p, map.spawns@, ok);
                    assert(spawn_names(map.spawns@) == seq_merge(
                        spawn_names(a.spawns@),
                        spawn_names(room.spawns@),
                        p,
                    )) by {
                        lemma_names_merge(before, copied, p);
                    }
                    assert forall|x: IVec2| in_room(x, w, h) implies open_in(
                        map.terrain@,
                        #[trigger] x.plus(p),
                    ) by {
                        assert(seq_get(room.terrain@, x) == Some(MapTile::Ground));
                        let i = seq_key_index(room.terrain@, x);
                        lemma_merge_shifted(a.terrain@, room.terrain@, p, i);
                    }
                    assert forall|x: IVec2| room_corner(x, w, h) implies seq_get(
                        map.terrain@,
                        #[trigger] x.plus(p),
                    ) == Some(MapTile::Wall) by {
                        assert(seq_get(room.terrain@, x) == Some(MapTile::Wall));
                        let i = seq_key_index(room.terrain@, x);
                        lemma_merge_shifted(a.terrain@, room.terrain@, p, i);
                    }
                    assert(room_at(map.terrain@, p, w, h));
                    assert forall|q: IVec2, w2: int, h2: int|
                        #[trigger] room_at(a.terrain@, q, w2, h2) implies room_at(map.terrain@, q, w2, h2) by {
                        lemma_room_kept_merge(a.terrain@, a.spawns@, room.terrain@, p, w, h, q, w2, h2);
                    }
                }
                match choose_point(&start_cells, rng) {
                    None => {
                        // Nothing open to start from: put the room down as is.
                        proof {
                            if walkable_positions(r0.terrain@).len() > 0 {
                                lemma_walkable_member(r0.terrain@, 0);
                                let x = walkable_positions(r0.terrain@)[0];
                                assert(open_in(a.terrain@, x));
                                let i = seq_key_index(a.terrain@, x);
                                lemma_walkable_nonempty(a.terrain@, i);
                            }
                            lemma_put_step(a, map, *room, p, w, h, ok, p, p, Seq::empty());
                            lemma_chain_push(steps, (map.terrain@, spawn_names(map.spawns@)), ok);
                            steps = steps.push((map.terrain@, spawn_names(map.spawns@)));
                            if any {
                                assert(walkable_positions(a.terrain@).len() > 0);
                            }
                            lemma_room_walkable(map.terrain@, p, w, h);
                            if r0.terrain@.len() == 0 {
                                assert(tried0.len() == 0);
                                lemma_room_not_again(map.terrain@, map.spawns@, room.terrain@, p, w, h);
                                assert(tried[0] == p);
                                let c = spec_ivec2(0, 0);
                                assert(in_room(c, w, h));
                                assert(c.plus(p) == p);
                                assert(open_in(map.terrain@, p));
                                lemma_walkable_nonempty(map.terrain@, seq_key_index(map.terrain@, p));
                            }
                            any = true;
                        }
                        *ret = map;
                    },
                    Some(start) => {
                        proof {
                            let j = choose|j: int| 0 <= j < start_cells@.len() && start_cells@[j] == start;
                            lemma_walkable_member(a.terrain@, j);
                            let o = IVec2 { x: 0, y: 0 };
                            assert(in_room(o, w, h));
                            assert(seq_get(room.terrain@, o) == Some(MapTile::Ground));
                            let i0 = seq_key_index(room.terrain@, o);
                            lemma_walkable_nonempty(room.terrain@, i0);
                        }
                        let end = choose_point(&end_cells, rng).unwrap();
                        proof {
                            assert(end_cells@ =~= shifted_goals(room.terrain@, p));
                            let j = choose|j: int| 0 <= j < end_cells@.len() && end_cells@[j] == end;
                            assert(in_room(room_open@[j], w, h));
                        }
                        match find_tunnel(&map, start, end, &end_cells) {
                            None => {
                                proof {
                                    let j = choose|j: int| 0 <= j < start_cells@.len() && start_cells@[j] == start;
                                    assert(walkable_positions(ret.terrain@).contains(start));
                                    assert(shifted_goals(room.terrain@, p).contains(end));
                                    assert(astar_tunnel(
                                        seq_merge(ret.terrain@, room.terrain@, p),
                                        start,
                                        end,
                                        shifted_goals(room.terrain@, p),
                                    ) is None);
                                    assert(spot_refused(ret.terrain@, ret.spawns@, room.terrain@, p));
                                    if walkable_positions(r0.terrain@).len() > 0 || r0.terrain@.len() == 0 {
                                        assert forall|j: int| 0 <= j < tried.len() implies spot_refused(
                                        ret.terrain@,
                                        ret.spawns@,
                                        room.terrain@,
                                        #[trigger] tried[j],
                                    ) by {
                                        if j < tried0.len() {
                                            assert(tried[j] == tried0[j]);
                                        }
                                    }
                                    }
                                }
                            },
                            Some(path) => {
                                proof {
                                    assert forall|i: int| 1 <= i < path@.len() implies in_dig_area(
                                        #[trigger] path@[i],
                                    ) by {
                                        assert(dig_step(map.terrain@, path@[i - 1], path@[i]));
                                    }
                                    assert forall|i: int| 0 <= i < path@.len() implies open_in(
                                        map.terrain@,
                                        #[trigger] path@[i],
                                    ) || !seq_has_key(map.terrain@, path@[i]) by {
                                        if i > 0 {
                                            assert(dig_step(map.terrain@, path@[i - 1], path@[i]));
                                            lemma_tunnel_step_target(map.terrain@, path@[i - 1], 4, path@[i]);
                                        }
                                    }
                                }
                                let ghost m1 = map;
                                self.dig_tunnel(&mut map, &path);
                                proof {
                                    assert forall|q: IVec2, w2: int, h2: int|
                                        #[trigger] room_at(m1.terrain@, q, w2, h2) implies room_at(
                                        map.terrain@,
                                        q,
                                        w2,
                                        h2,
                                    ) by {
                                        lemma_room_kept_dig(m1.terrain@, map.terrain@, path@, q, w2, h2);
                                    }
                                    assert(room_at(m1.terrain@, p, w, h));
                                    assert(room_at(map.terrain@, p, w, h));
                                    assert(tunnel_placed(
                                        a.terrain@,
                                        room.terrain@,
                                        p,
                                        map.terrain@,
                                        start,
                                        end,
                                        path@,
                                    ));
                                    lemma_walkable_nonempty(a.terrain@, seq_key_index(a.terrain@, start));
                                    assert(open_in(m1.terrain@, start));
                                    assert(open_in(map.terrain@, start));
                                    lemma_walkable_nonempty(map.terrain@, seq_key_index(map.terrain@, start));
                                    lemma_put_step(a, map, *room, p, w, h, ok, start, end, path@);
                                    lemma_chain_push(steps, (map.terrain@, spawn_names(map.spawns@)), ok);
                                    steps = steps.push((map.terrain@, spawn_names(map.spawns@)));
                                    any = true;
                                }
                                *ret = map;
                                placed = true;
                            },
                        }
                    },
                }
            } else {
                proof {
                    if r0.terrain@.len() == 0 && !any {
                        assert(room_placeable(ret.terrain@, ret.spawns@, room.terrain@, p)) by {
                            assert forall|i: int| 0 <= i < room.terrain@.len() implies placeable_at(
                                ret.terrain@,
                                ret.spawns@,
                                (#[trigger] room.terrain@[i]).0.plus(p),
                                room.terrain@[i].1,
                            ) by {
                                assert(!seq_has_key(ret.terrain@, room.terrain@[i].0.plus(p)));
                            }
                        }
                    }
                    assert(spot_refused(ret.terrain@, ret.spawns@, room.terrain@, p));
                    if walkable_positions(r0.terrain@).len() > 0 || r0.terrain@.len() == 0 {
                        assert forall|j: int| 0 <= j < tried.len() implies spot_refused(
                            ret.terrain@,
                            ret.spawns@,
                            room.terrain@,
                            #[trigger] tried[j],
                        ) by {
                            if j < tried0.len() {
                                assert(tried[j] == tried0[j]);
                            }
                        }
                    }
                }
            }
        }
        proof {
            if !placed && (walkable_positions(r0.terrain@).len() > 0 || r0.terrain@.len() == 0) {
                assert forall|q: IVec2| room_fits(q, w, h) implies #[trigger] spot_refused(
                    ret.terrain@,
                    ret.spawns@,
                    room.terrain@,
                    q,
                ) by {
                    assert(spots.contains(q));
                    assert(tried.contains(q));
                    let j = choose|j: int| 0 <= j < tried.len() && tried[j] == q;
                    assert(spot_refused(ret.terrain@, ret.spawns@, room.terrain@, tried[j]));
                }
            }
        }
        (placed, Ghost(steps))
    }
}

/// The downstairs at `d`, with ground above it and undiggable wall on its
/// other sides.
pub open spec fn stairwell_down(t: Seq<(IVec2, MapTile)>, d: IVec2) -> bool {
    &&& seq_get(t, d) == Some(MapTile::Downstairs)
    &&& seq_get(t, d.plus(spec_ivec2(0, -1))) == Some(MapTile::Ground)
    &&& seq_get(t, d.plus(spec_ivec2(-1, 0))) == Some(MapTile::Wall)
    &&& seq_get(t, d.plus(spec_ivec2(1, 0))) == Some(MapTile::Wall)
    &&& seq_get(t, d.plus(spec_ivec2(-1, 1))) == Some(MapTile::Wall)
    &&& seq_get(t, d.plus(spec_ivec2(0, 1))) == Some(MapTile::Wall)
    &&& seq_get(t, d.plus(spec_ivec2(1, 1))) == Some(MapTile::Wall)
}

/// What a generated level holds: a well formed map whose cells lie at most
/// two cells outside the sector or near the upstairs, the upstairs where
/// asked, a walkable entrance, and, when asked for, exactly one downstairs,
/// away from the sector's top and bottom edges; otherwise none.
pub open spec fn generated_level(lv: Level, m: FlatPatch) -> bool {
    &&& m.wf()
    &&& forall|i: int| 0 <= i < m.terrain@.len() ==> level_cell(lv, (#[trigger] m.terrain@[i]).0, 2, 3)
    &&& lv.upstairs matches Some(u) ==> upstairs_enclosed(m.terrain@, u)
    &&& m.entrance matches Some(e) ==> open_in(m.terrain@, e)
    &&& if lv.generate_downstairs {
        exists|d: IVec2|
            8 < d.y < SECTOR_HEIGHT - 8 && stairwell_down(m.terrain@, d) && forall|q: IVec2|
                seq_get(m.terrain@, q) == Some(MapTile::Downstairs) ==> q == d
    } else {
        forall|q: IVec2| seq_get(m.terrain@, q) != Some(MapTile::Downstairs)
    }
}

/// A spot for the downstairs: a stairwell candidate below an open cell,
/// away from the sector's top and bottom edges.
pub open spec fn downstairs_spot(t: Seq<(IVec2, MapTile)>, d: IVec2) -> bool {
    stair_positions(t, walkable_positions(t), 1).contains(d) && 8 < d.y < SECTOR_HEIGHT - 8
}

/// Terrain `t1` is `t0` with a downstairs dug at `d`: the stairs, ground
/// above them, wall on their other five sides, and nothing else changed.
pub open spec fn stairwell_dug(t0: Seq<(IVec2, MapTile)>, t1: Seq<(IVec2, MapTile)>, d: IVec2) -> bool {
    forall|x: IVec2|
        #[trigger] seq_get(t1, x) == if x == d {
            Some(MapTile::Downstairs)
        } else if x == d.plus(spec_ivec2(0, -1)) {
            Some(MapTile::Ground)
        } else if x == d.plus(spec_ivec2(-1, 0)) || x == d.plus(spec_ivec2(1, 0)) || x == d.plus(
            spec_ivec2(-1, 1),
        ) || x == d.plus(spec_ivec2(0, 1)) || x == d.plus(spec_ivec2(1, 1)) {
            Some(MapTile::Wall)
        } else {
            seq_get(t0, x)
        }
}

/// A listed stairwell spot passes the stairwell test and lies `dy` away from
/// one of the listed cells.
proof fn lemma_stair_member(t: Seq<(IVec2, MapTile)>, w: Seq<IVec2>, dy: int, k: int)
    requires
        0 <= k < stair_positions(t, w, dy).len(),
    ensures
        stair_spot_ok(t, stair_positions(t, w, dy)[k], dy),
        exists|j: int|
            0 <= j < w.len() && stair_positions(t, w, dy)[k] == (#[trigger] w[j]).plus(
                spec_ivec2(0, dy),
            ),
    decreases w.len(),
{
    let u = w.drop_last();
    if k < stair_positions(t, u, dy).len() {
        lemma_stair_member(t, u, dy, k);
        let j = choose|j: int|
            0 <= j < u.len() && stair_positions(t, u, dy)[k] == (#[trigger] u[j]).plus(
                spec_ivec2(0, dy),
            );
        assert(w[j] == u[j]);
    } else {
        assert(stair_positions(t, w, dy)[k] == w[w.len() - 1].plus(spec_ivec2(0, dy)));
    }
}

/// Digging a downstairs at a stairwell spot below an open cell leaves the
/// upstairs enclosure as it was.
proof fn lemma_stairwell_keeps_enclosure(
    t0: Seq<(IVec2, MapTile)>,
    t: Seq<(IVec2, MapTile)>,
    d: IVec2,
    u: IVec2,
)
    requires
        upstairs_enclosed(t0, u),
        stairwell_dug(t0, t, d),
        stair_spot_ok(t0, d, 1),
        open_in(t0, d.plus(spec_ivec2(0, -1))),
        8 < d.y < SECTOR_HEIGHT - 8,
    ensures
        upstairs_enclosed(t, u),
{
    let cells = seq![
        u,
        u.plus(spec_ivec2(0, 1)),
        u.plus(spec_ivec2(-1, 0)),
        u.plus(spec_ivec2(1, 0)),
        u.plus(spec_ivec2(-1, -1)),
        u.plus(spec_ivec2(0, -1)),
        u.plus(spec_ivec2(1, -1)),
    ];
    assert forall|k: int| 0 <= k < 7 implies seq_get(t, #[trigger] cells[k]) == seq_get(t0, cells[k]) by {
        let x = cells[k];
        assert(seq_has_key(t0, x));
        assert(x != d);
        if x == d.plus(spec_ivec2(0, -1)) && x == u {
            assert(u.plus(spec_ivec2(0, 1)) == d);
            assert(seq_has_key(t0, u.plus(spec_ivec2(0, 1))));
        }
    }
    assert(seq_get(t, cells[0]) == seq_get(t0, cells[0]));
    assert(seq_get(t, cells[1]) == seq_get(t0, cells[1]));
    assert(seq_get(t, cells[2]) == seq_get(t0, cells[2]));
    assert(seq_get(t, cells[3]) == seq_get(t0, cells[3]));
    assert(seq_get(t, cells[4]) == seq_get(t0, cells[4]));
    assert(seq_get(t, cells[5]) == seq_get(t0, cells[5]));
    assert(seq_get(t, cells[6]) == seq_get(t0, cells[6]));
}

/// Digging a downstairs at a spot of the map leaves every room standing.
proof fn lemma_room_kept_stairwell(
    lv: Level,
    b: FlatPatch,
    t1: Seq<(IVec2, MapTile)>,
    d: IVec2,
    q: IVec2,
    w: int,
    h: int,
)
    requires
        partial_level(lv, b),
        upstairs_fits(lv),
        downstairs_spot(b.terrain@, d),
        stairwell_dug(b.terrain@, t1, d),
        room_at(b.terrain@, q, w, h),
    ensures
        room_at(t1, q, w, h),
{
    let t0 = b.terrain@;
    let ws = walkable_positions(t0);
    let k = choose|k: int| 0 <= k < stair_positions(t0, ws, 1).len() && stair_positions(t0, ws, 1)[k] == d;
    lemma_stair_member(t0, ws, 1, k);
    let jw = choose|jw: int| 0 <= jw < ws.len() && d == (#[trigger] ws[jw]).plus(spec_ivec2(0, 1));
    lemma_walkable_member(t0, jw);
    let iw = choose|iw: int| 0 <= iw < t0.len() && (#[trigger] t0[iw]).0 == ws[jw];
    assert(level_cell(lv, t0[iw].0, 1, 1));
    assert(well_inside(t0[iw].0));
    assert(d.plus(spec_ivec2(0, -1)) == ws[jw]);
    assert forall|x: IVec2| in_room(x, w, h) implies open_in(t1, #[trigger] x.plus(q)) by {
        let y = x.plus(q);
        assert(open_in(t0, y));
        assert(seq_get(t1, y) == seq_get(t1, y));
    }
    assert forall|x: IVec2| room_corner(x, w, h) implies seq_get(t1, #[trigger] x.plus(q)) == Some(
        MapTile::Wall,
    ) by {
        let y = x.plus(q);
        assert(seq_get(t0, y) == Some(MapTile::Wall));
        assert(seq_get(t1, y) == seq_get(t1, y));
    }
}

impl Level {
    /// Dig a downstairs below a random open cell of a built level map, away
    /// from the sector's top and bottom edges, with ground above it and
    /// undiggable wall on its other sides. Gives back whether there was a
    /// spot for it; when there was none, the map is left as it was.
    #[verifier::spinoff_prover]
    #[verifier::rlimit(50)]
    pub fn add_downstairs(&self, ret: &mut FlatPatch, rng: &mut StdRng) -> (dug: bool)
        requires
            partial_level(*self, *old(ret)),
            upstairs_fits(*self),
            self.generate_downstairs,
        ensures
            dug ==> generated_level(*self, *final(ret)),
            final(ret).spawns@ == old(ret).spawns@,
            final(ret).entrance == old(ret).entrance,
            dug <==> exists|d: IVec2| downstairs_spot(old(ret).terrain@, d),
            !dug ==> final(ret).terrain@ == old(ret).terrain@,
            dug ==> exists|d: IVec2|
                downstairs_spot(old(ret).terrain@, d) && stairwell_dug(
                    old(ret).terrain@,
                    final(ret).terrain@,
                    d,
                ),
    {
        proof {
            assert forall|i: int| 0 <= i < ret.terrain@.len() implies well_inside(
                #[trigger] ret.terrain@[i].0,
            ) by {
                assert(level_cell(*self, ret.terrain@[i].0, 1, 1));
            }
        }
        let cands = ret.downstair_positions();
        let mut posns: Vec<IVec2> = Vec::new();
        let n = cands.len();
        let mut i: usize = 0;
        while i < n
            invariant
                n == cands@.len(),
                i <= n,
                forall|j: int|
                    0 <= j < posns@.len() ==> cands@.contains(#[trigger] posns@[j]) && 8
                        < posns@[j].y < SECTOR_HEIGHT - 8,
                forall|j: int|
                    0 <= j < i && 8 < cands@[j].y < SECTOR_HEIGHT - 8 ==> posns@.contains(
                        #[trigger] cands@[j],
                    ),
            decreases n - i,
        {
            // Don't put it too close to the edge so the opposite stairs don't
            // end up being placed weirdly.
            let c = cands[i];
            if c.y > 8 && c.y < SECTOR_HEIGHT - 8 {
                let ghost before = posns@;
                posns.push(c);
                proof {
                    assert(cands@[i as int] == c);
                    assert forall|j: int| 0 <= j < posns@.len() implies cands@.contains(
                        #[trigger] posns@[j],
                    ) && 8 < posns@[j].y < SECTOR_HEIGHT - 8 by {
                        if j < before.len() {
                            assert(posns@[j] == before[j]);
                        }
                    }
                    assert forall|j: int|
                        0 <= j < i + 1 && 8 < cands@[j].y < SECTOR_HEIGHT - 8 implies posns@.contains(
                        #[trigger] cands@[j],
                    ) by {
                        if j < i {
                            let k = choose|k: int| 0 <= k < before.len() && before[k] == cands@[j];
                            assert(posns@[k] == before[k]);
                        } else {
                            assert(posns@[before.len() as int] == c);
                        }
                    }
                }
            }
            i += 1;
        }
        let d = match choose_point(&posns, rng) {
            Some(d) => d,
            None => {
                proof {
                    assert forall|d: IVec2| !downstairs_spot(ret.terrain@, d) by {
                        if downstairs_spot(ret.terrain@, d) {
                            let j = choose|j: int| 0 <= j < cands@.len() && cands@[j] == d;
                            assert(posns@.contains(cands@[j]));
                        }
                    }
                }
                return false;
            },
        };
        let ghost t0 = ret.terrain@;
        let ghost e0 = ret.entrance;
        proof {
            let j = choose|j: int| 0 <= j < posns@.len() && posns@[j] == d;
            assert(cands@.contains(posns@[j]));
            let k = choose|k: int| 0 <= k < cands@.len() && cands@[k] == d;
            lemma_stair_member(t0, walkable_positions(t0), 1, k);
            let jw = choose|jw: int|
                0 <= jw < walkable_positions(t0).len() && d == (#[trigger] walkable_positions(
                    t0,
                )[jw]).plus(spec_ivec2(0, 1));
            lemma_walkable_member(t0, jw);
            let iw = choose|iw: int| 0 <= iw < t0.len() && (#[trigger] t0[iw]).0 == walkable_positions(t0)[jw];
            assert(level_cell(*self, t0[iw].0, 1, 1));
            assert(well_inside(t0[iw].0));
        }
        let above = ivec2(d.x, d.y - 1);
        let cells = [
            ivec2(d.x - 1, d.y),
            ivec2(d.x + 1, d.y),
            ivec2(d.x - 1, d.y + 1),
            ivec2(d.x, d.y + 1),
            ivec2(d.x + 1, d.y + 1),
        ];
        let ghost s0 = ret.terrain@;
        ret.set_terrain(d, MapTile::Downstairs);
        let ghost s1 = ret.terrain@;
        ret.set_terrain(above, MapTile::Ground);
        let ghost s2 = ret.terrain@;
        // Undiggable enclosure.
        ret.set_terrain(cells[0], MapTile::Wall);
        let ghost s3 = ret.terrain@;
        ret.set_terrain(cells[1], MapTile::Wall);
        let ghost s4 = ret.terrain@;
        ret.set_terrain(cells[2], MapTile::Wall);
        let ghost s5 = ret.terrain@;
        ret.set_terrain(cells[3], MapTile::Wall);
        let ghost s6 = ret.terrain@;
        ret.set_terrain(cells[4], MapTile::Wall);
        proof {
            let t = ret.terrain@;
            let walls = |x: IVec2|
                x == cells[0] || x == cells[1] || x == cells[2] || x == cells[3] || x == cells[4];
            assert forall|x: IVec2| #[trigger] seq_get(t, x) == if x == d {
                Some(MapTile::Downstairs)
            } else if x == above {
                Some(MapTile::Ground)
            } else if walls(x) {
                Some(MapTile::Wall)
            } else {
                seq_get(t0, x)
            } && (seq_has_key(t0, x) ==> seq_has_key(t, x)) by {
                lemma_insert_get(s0, d, MapTile::Downstairs, x);
                lemma_insert_get(s1, above, MapTile::Ground, x);
                lemma_insert_get(s2, cells[0], MapTile::Wall, x);
                lemma_insert_get(s3, cells[1], MapTile::Wall, x);
                lemma_insert_get(s4, cells[2], MapTile::Wall, x);
                lemma_insert_get(s5, cells[3], MapTile::Wall, x);
                lemma_insert_get(s6, cells[4], MapTile::Wall, x);
            }
            let k = choose|k: int| 0 <= k < cands@.len() && cands@[k] == d;
            lemma_stair_member(t0, walkable_positions(t0), 1, k);
            assert(stair_spot_ok(t0, d, 1));
            assert(above == d.plus(spec_ivec2(0, -1)));
            assert(cells[0] == d.plus(spec_ivec2(-1, 0)));
            assert(cells[1] == d.plus(spec_ivec2(1, 0)));
            assert(cells[2] == d.plus(spec_ivec2(-1, 1)));
            assert(cells[3] == d.plus(spec_ivec2(0, 1)));
            assert(cells[4] == d.plus(spec_ivec2(1, 1)));
            assert(stairwell_down(t, d));
            let jw = choose|jw: int|
                0 <= jw < walkable_positions(t0).len() && d == (#[trigger] walkable_positions(
                    t0,
                )[jw]).plus(spec_ivec2(0, 1));
            lemma_walkable_member(t0, jw);
            let iw = choose|iw: int| 0 <= iw < t0.len() && (#[trigger] t0[iw]).0 == walkable_positions(t0)[jw];
            assert(level_cell(*self, t0[iw].0, 1, 1));
            assert forall|i: int| 0 <= i < t.len() implies level_cell(*self, (#[trigger] t[i]).0, 2, 3) by {
                let x = t[i].0;
                lemma_key_index(t, i);
                if x != d && x != above && !walls(x) {
                    let j = seq_key_index(t0, x);
                    assert(t0[j].0 == x);
                    assert(level_cell(*self, t0[j].0, 1, 1));
                }
            }
            if let Some(u) = self.upstairs {
                assert(seq_get(t0, u) == Some(MapTile::Upstairs));
                assert(u != d);
                assert(seq_has_key(t0, u.plus(spec_ivec2(0, 1))));
                assert(u != above);
                assert(!walls(u));
            }
            if let Some(e) = e0 {
                assert(open_in(t0, e));
                assert(e != d);
                assert(!walls(e));
            }
            let j = choose|j: int| 0 <= j < posns@.len() && posns@[j] == d;
            assert(downstairs_spot(t0, d));
            assert(stairwell_dug(t0, t, d));
            if let Some(u) = self.upstairs {
                assert(open_in(t0, walkable_positions(t0)[jw]));
                lemma_stairwell_keeps_enclosure(t0, t, d, u);
            }
        }
        true
    }

    /// Generate a random level: up to 6 to 17 rooms, each joined to the map
    /// before it by a dug tunnel, around the upstairs if there is one, and a
    /// downstairs if asked for. Spawns in rooms are made by `pick`. When
    /// the built map has no spot for the downstairs, there is no level, and
    /// the error holds that map.
    pub fn sample<F: Fn(SpawnKind, u32, &mut StdRng) -> Spawn>(&self, rng: &mut StdRng, pick: &F) -> (r: Result<
        FlatPatch,
        NoDownstairsSpot,
    >)
        requires
            upstairs_fits(*self),
            forall|k: SpawnKind, d: u32, g: &mut StdRng| pick.requires((k, d, g)),
        ensures
            match r {
                Ok(m) => {
                    &&& generated_level(*self, m)
                    &&& names_ok(m.spawns@, picked_name(*pick, self.depth))
                    &&& self.upstairs is None ==> exists|p: IVec2, w: int, h: int|
                        #[trigger] room_at(m.terrain@, p, w, h)
                    &&& exists|b: FlatPatch|
                        #![trigger level_finished(*self, b, m)]
                        partial_level(*self, b) && rooms_laid(*self, b.terrain@, b.spawns@, picked_name(*pick, self.depth)) && level_finished(
                            *self,
                            b,
                            m,
                        )
                },
                Err(e) => {
                    &&& self.generate_downstairs
                    &&& partial_level(*self, e.map)
                    &&& rooms_laid(*self, e.map.terrain@, e.map.spawns@, picked_name(*pick, self.depth))
                    &&& names_ok(e.map.spawns@, picked_name(*pick, self.depth))
                    &&& forall|d: IVec2| !#[trigger] downstairs_spot(e.map.terrain@, d)
                },
            },
    {
        let ghost ok = picked_name(*pick, self.depth);
        let mut ret = self.start_map();
        let ghost mut steps = seq![(ret.terrain@, spawn_names(ret.spawns@))];
        let ghost mut stopped = false;
        proof {
            if let Some(u) = self.upstairs {
                let below = u.plus(spec_ivec2(0, 1));
                assert(seq_get(ret.terrain@, below) == Some(MapTile::Ground));
                lemma_walkable_nonempty(ret.terrain@, seq_key_index(ret.terrain@, below));
            }
        }
        let rooms = gen_range_i32(rng, 6, 18);
        let mut k: i32 = 0;
        while k < rooms
            invariant
                partial_level(*self, ret),
                upstairs_fits(*self),
                forall|k: SpawnKind, d: u32, g: &mut StdRng| pick.requires((k, d, g)),
                ok == picked_name(*pick, self.depth),
                names_ok(ret.spawns@, ok),
                0 <= k,
                6 <= rooms,
                !stopped ==> steps.len() >= k + 1,
                k <= rooms < 18,
                steps.len() <= k + 2,
                ret.terrain@.len() == 0 ==> steps.len() == 1,
                stopped ==> k == rooms && exists|o: Seq<(IVec2, MapTile)>, w: int, h: int|
                    #[trigger] room_refused(ret.terrain@, ret.spawns@, o, w, h) && room_terrain(o, w, h),
                ret.terrain@.len() == 0 || walkable_positions(ret.terrain@).len() > 0,
                room_chain(steps, ok),
                forall|x: IVec2| #[trigger] seq_get(steps[0].0, x) == start_cell(*self, x),
                steps[0].1.len() == 0,
                steps.last() == (ret.terrain@, spawn_names(ret.spawns@)),
                self.upstairs is None ==> (k == 0 && ret.terrain@.len() == 0) || exists|
                    p: IVec2,
                    w: int,
                    h: int,
                | #[trigger] room_at(ret.terrain@, p, w, h),
            decreases rooms - k,
        {
            let room = self.room(rng, pick);
            let ghost (w, h) = choose|w: int, h: int| is_room(room, w, h);
            proof {
                assert forall|i: int| 0 <= i < room.spawns@.len() implies ok(
                    (#[trigger] room.spawns@[i]).1@,
                ) by {
                    assert(made_by(*pick, self.depth, room.spawns@[i].1));
                }
            }
            let ghost before = ret.terrain@;
            let ghost steps0 = steps;
            let (placed, Ghost(more)) = self.place_room(&mut ret, &room, rng, Ghost(w), Ghost(h), Ghost(ok));
            proof {
                lemma_chain_append(steps, more, ok);
                steps = steps + more.drop_first();
                assert(steps.len() == steps0.len() + more.len() - 1);
                if before.len() == 0 {
                    let p0 = choose|p: IVec2| #[trigger] room_at(ret.terrain@, p, w, h);
                    lemma_room_walkable(ret.terrain@, p0, w, h);
                } else {
                    let x = walkable_positions(before)[0];
                    lemma_walkable_member(before, 0);
                    assert(open_in(ret.terrain@, x));
                    lemma_walkable_nonempty(ret.terrain@, seq_key_index(ret.terrain@, x));
                }
                if !placed {
                    assert(room_refused(ret.terrain@, ret.spawns@, room.terrain@, w, h));
                    assert(room_terrain(room.terrain@, w, h));
                    stopped = true;
                }
                if self.upstairs is None && !(k == 0 && before.len() == 0) {
                    let (p0, w0, h0) = choose|p: IVec2, w: int, h: int| #[trigger] room_at(before, p, w, h);
                    assert(room_at(ret.terrain@, p0, w0, h0));
                }
                if self.upstairs is None && before.len() == 0 {
                    let p0 = choose|p: IVec2| #[trigger] room_at(ret.terrain@, p, w, h);
                    assert(room_at(ret.terrain@, p0, w, h));
                }
            }
            if placed {
                k += 1;
            } else {
                // Found no place for the new room.
                k = rooms;
            }
        }
        proof {
            assert(rooms_laid(*self, ret.terrain@, ret.spawns@, ok));
        }
        if self.generate_downstairs {
            let ghost built = ret;
            if !self.add_downstairs(&mut ret, rng) {
                return Err(NoDownstairsSpot { map: ret });
            }
            proof {
                let d = choose|d: IVec2|
                    downstairs_spot(built.terrain@, d) && stairwell_dug(built.terrain@, ret.terrain@, d);
                assert(level_finished(*self, built, ret));
                if self.upstairs is None {
                    let (p0, w0, h0) = choose|p: IVec2, w: int, h: int| #[trigger] room_at(built.terrain@, p, w, h);
                    lemma_room_kept_stairwell(*self, built, ret.terrain@, d, p0, w0, h0);
                    assert(room_at(ret.terrain@, p0, w0, h0));
                }
            }
        } else {
            assert forall|i: int| 0 <= i < ret.terrain@.len() implies level_cell(
                *self,
                (#[trigger] ret.terrain@[i]).0,
                2,
                3,
            ) by {
                assert(level_cell(*self, ret.terrain@[i].0, 1, 1));
            }
            assert(level_finished(*self, ret, ret));
        }
        Ok(ret)
    }
}

/// Number of levels in the dungeon.
pub const MAX_DEPTH: u32 = 8;

/// Where the level at index `i` of the dungeon lies: depth `i + 1`, stacked
/// downwards from the origin.
pub open spec fn level_origin(i: int) -> IVec3 {
    IVec3 { x: 0, y: 0, z: (-(i + 1)) as i32 }
}

/// The map has exactly one downstairs, at `d`, in a stairwell away from the
/// sector's top and bottom edges.
pub open spec fn single_downstairs(t: Seq<(IVec2, MapTile)>, d: IVec2) -> bool {
    8 < d.y < SECTOR_HEIGHT - 8 && stairwell_down(t, d) && forall|q: IVec2|
        seq_get(t, q) == Some(MapTile::Downstairs) ==> q == d
}

/// What the levels of a generated dungeon hold: each is a well formed map
/// at its depth, every level but the last has exactly one downstairs, the
/// last has none, and every level but the first has its upstairs one cell
/// above the spot of the downstairs of the level before it.
pub open spec fn dungeon_levels(v: Seq<(IVec3, FlatPatch)>, n: int) -> bool {
    &&& v.len() == n
    &&& forall|i: int|
        0 <= i < n ==> (#[trigger] v[i]).0 == level_origin(i) && v[i].1.wf() && (v[i].1.entrance
            matches Some(e) ==> open_in(v[i].1.terrain@, e))
    &&& forall|i: int|
        0 <= i < n && i < MAX_DEPTH - 1 ==> exists|d: IVec2| single_downstairs(
            (#[trigger] v[i]).1.terrain@,
            d,
        )
    &&& forall|i: int|
        0 <= i < n && i == MAX_DEPTH - 1 ==> forall|q: IVec2|
            seq_get((#[trigger] v[i]).1.terrain@, q) != Some(MapTile::Downstairs)
    &&& forall|i: int, d: IVec2|
        #![trigger single_downstairs(v[i].1.terrain@, d)]
        0 <= i < n - 1 && single_downstairs(v[i].1.terrain@, d) ==> seq_get(
            v[i + 1].1.terrain@,
            d.plus(spec_ivec2(0, -1)),
        ) == Some(MapTile::Upstairs)
}

/// A level of the dungeon found no spot for its downstairs.
#[derive(Debug)]
pub struct DungeonStuck {
    /// The levels generated above it.
    pub levels: Vec<(IVec3, FlatPatch)>,
    /// The level that found no spot.
    pub level: Level,
    /// The map that level built.
    pub map: FlatPatch,
}

/// `lv` is the level that comes below the levels `v` in the dungeon: one
/// deeper, with a downstairs unless it is the last, and, below a level, its
/// upstairs one cell above that level's downstairs.
pub open spec fn next_level(v: Seq<(IVec3, FlatPatch)>, lv: Level) -> bool {
    &&& lv.depth == v.len() + 1
    &&& lv.generate_downstairs == (v.len() + 1 < MAX_DEPTH)
    &&& if v.len() == 0 {
        lv.upstairs is None
    } else {
        exists|d: IVec2|
            #[trigger] single_downstairs(v.last().1.terrain@, d) && lv.upstairs == Some(
                d.plus(spec_ivec2(0, -1)),
            )
    }
}

/// The dungeon got stuck as `e` tells: the levels above were generated,
/// with spawns made by `pick`, and the next level built a map, with its
/// rooms laid out, that has no spot for the downstairs.
pub open spec fn dungeon_stuck<F: Fn(SpawnKind, u32, &mut StdRng) -> Spawn>(e: DungeonStuck, pick: F) -> bool {
    &&& dungeon_levels(e.levels@, e.levels@.len() as int)
    &&& forall|i: int|
        0 <= i < e.levels@.len() ==> names_ok(
            (#[trigger] e.levels@[i]).1.spawns@,
            picked_name(pick, (i + 1) as u32),
        )
    &&& next_level(e.levels@, e.level)
    &&& e.level.generate_downstairs
    &&& partial_level(e.level, e.map)
    &&& rooms_laid(e.level, e.map.terrain@, e.map.spawns@, picked_name(pick, e.level.depth))
    &&& names_ok(e.map.spawns@, picked_name(pick, e.level.depth))
    &&& forall|d: IVec2| !#[trigger] downstairs_spot(e.map.terrain@, d)
}

/// Generate the levels of the dungeon, from depth 1 down to `MAX_DEPTH`:
/// each but the last with a downstairs, each but the first with its upstairs
/// one cell above where the level before has its downstairs. Spawns in rooms
/// are made by `pick`. When some level finds no spot for its downstairs,
/// there is no dungeon; the error holds the levels above it, the level and
/// the map it built.
#[verifier::spinoff_prover]
#[verifier::rlimit(50)]
pub fn generate_levels<F: Fn(SpawnKind, u32, &mut StdRng) -> Spawn>(rng: &mut StdRng, pick: &F) -> (r: Result<
    Vec<(IVec3, FlatPatch)>,
    DungeonStuck,
>)
    requires
        forall|k: SpawnKind, d: u32, g: &mut StdRng| pick.requires((k, d, g)),
    ensures
        r matches Ok(v) ==> dungeon_levels(v@, MAX_DEPTH as int) && forall|i: int|
            0 <= i < v@.len() ==> names_ok(
                (#[trigger] v@[i]).1.spawns@,
                picked_name(*pick, (i + 1) as u32),
            ),
        r matches Err(e) ==> dungeon_stuck(e, *pick),
{
    let mut levels: Vec<(IVec3, FlatPatch)> = Vec::new();
    let mut prev: Option<IVec2> = None;
    let mut depth: u32 = 1;
    while depth <= MAX_DEPTH
        invariant
            1 <= depth <= MAX_DEPTH + 1,
            forall|k: SpawnKind, d: u32, g: &mut StdRng| pick.requires((k, d, g)),
            dungeon_levels(levels@, depth - 1),
            forall|i: int|
                0 <= i < levels@.len() ==> names_ok(
                    (#[trigger] levels@[i]).1.spawns@,
                    picked_name(*pick, (i + 1) as u32),
                ),
            depth == 1 ==> prev is None,
            1 < depth <= MAX_DEPTH ==> (prev matches Some(p) && single_downstairs(
                levels@[depth - 2].1.terrain@,
                p,
            ) && -3 * depth - 2 <= p.x <= 3 * depth + 50),
        decreases MAX_DEPTH + 1 - depth,
    {
        let mut level = Level::new(depth);
        if depth < MAX_DEPTH {
            level = level.with_downstairs();
        }
        if let Some(p) = prev {
            level = level.upstairs_at(ivec2(p.x, p.y - 1));
        }
        let map = match level.sample(rng, pick) {
            Ok(m) => m,
            Err(e) => {
                proof {
                    if depth > 1 {
                        let p = prev.unwrap();
                        assert(levels@.last() == levels@[depth - 2]);
                        assert(single_downstairs(levels@.last().1.terrain@, p));
                        assert(level.upstairs == Some(p.plus(spec_ivec2(0, -1))));
                    }
                    assert(next_level(levels@, level));
                }
                return Err(DungeonStuck { levels, level, map: e.map });
            },
        };
        proof {
            lemma_first_downstairs(map.terrain@);
            if level.generate_downstairs {
                let d = choose|d: IVec2|
                    8 < d.y < SECTOR_HEIGHT - 8 && stairwell_down(map.terrain@, d) && forall|q: IVec2|
                        seq_get(map.terrain@, q) == Some(MapTile::Downstairs) ==> q == d;
                assert(single_downstairs(map.terrain@, d));
                if let Some(p) = first_downstairs(map.terrain@) {
                    let i = choose|i: int|
                        0 <= i < map.terrain@.len() && #[trigger] map.terrain@[i] == (
                            p,
                            MapTile::Downstairs,
                        );
                    lemma_key_index(map.terrain@, i);
                } else {
                    let i = seq_key_index(map.terrain@, d);
                    assert(map.terrain@[i].1 == MapTile::Downstairs);
                }
            }
        }
        let next = map.downstairs_pos();
        let ghost old_levels = levels@;
        let ghost old_prev = prev;
        let origin = ivec3(0, 0, -(depth as i32));
        levels.push((origin, map));
        proof {
            let v = levels@;
            let i = depth - 1;
            assert(v[i as int] == (origin, map));
            assert(origin == level_origin(i as int));
            assert forall|j: int| 0 <= j < depth - 1 implies #[trigger] v[j] == old_levels[j] by {}
            if level.generate_downstairs {
                let d = next.unwrap();
                assert(single_downstairs(map.terrain@, d));
                assert(seq_get(map.terrain@, d) == Some(MapTile::Downstairs));
                let k = seq_key_index(map.terrain@, d);
                assert(map.terrain@[k].0 == d);
                assert(level_cell(level, map.terrain@[k].0, 2, 3));
            }
            assert forall|j: int, d: IVec2|
                #![trigger single_downstairs(v[j].1.terrain@, d)]
                0 <= j < depth - 1 && single_downstairs(v[j].1.terrain@, d)
                    implies seq_get(v[j + 1].1.terrain@, d.plus(spec_ivec2(0, -1)))
                    == Some(MapTile::Upstairs) by {
                assert(v[j] == old_levels[j]);
                if j == depth - 2 {
                    let p = old_prev.unwrap();
                    assert(seq_get(v[j].1.terrain@, d) == Some(MapTile::Downstairs));
                    assert(d == p);
                    assert(level.upstairs == Some(d.plus(spec_ivec2(0, -1))));
                } else {
                    assert(v[j + 1] == old_levels[j + 1]);
                    assert(single_downstairs(old_levels[j].1.terrain@, d));
                }
            }
        }
        prev = next;
        depth += 1;
    }
    Ok(levels)
}

} // verus!
