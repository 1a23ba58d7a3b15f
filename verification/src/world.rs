//! The generated dungeon world: its levels, placed in space, and the terrain
//! read from them.

use vstd::prelude::*;

use rand::rngs::StdRng;

use crate::assoc::{
    AssocMap, keys_distinct, lemma_insert_get, lemma_key_index, seq_get, seq_has_key, seq_insert,
};
use crate::geom::{IVec2, IVec3, in_i32, ivec3, spec_ivec2, spec_ivec3};
use crate::map_tile::MapTile;
use crate::mapgen::{
    MAX_DEPTH, DungeonStuck, SpawnKind, dungeon_stuck, dungeon_levels, generate_levels, level_origin,
    names_ok, picked_name, single_downstairs,
};
use crate::patch::{FlatPatch, Spawn, spawn_names};

verus! {

/// World position of cell `p` of a level whose origin is `o`: the cell lies
/// on the origin's z plane.
pub open spec fn world_pos(o: IVec3, p: IVec2) -> IVec3 {
    spec_ivec3(o.x + p.x, o.y + p.y, o.z as int)
}

/// Cell `p` of a level at `o` has a world position in the `i32` range.
pub open spec fn cell_fits(o: IVec3, p: IVec2) -> bool {
    in_i32(o.x + p.x) && in_i32(o.y + p.y)
}

/// Every cell, spawn and entrance of the level has a world position.
pub open spec fn level_fits(o: IVec3, m: FlatPatch) -> bool {
    &&& forall|k: int| 0 <= k < m.terrain@.len() ==> cell_fits(o, (#[trigger] m.terrain@[k]).0)
    &&& forall|k: int| 0 <= k < m.spawns@.len() ==> cell_fits(o, (#[trigger] m.spawns@[k]).0)
    &&& m.entrance matches Some(e) ==> cell_fits(o, e)
}

/// Every level has world positions for its cells.
pub open spec fn levels_fit(v: Seq<(IVec3, FlatPatch)>) -> bool {
    forall|i: int| 0 <= i < v.len() ==> level_fits((#[trigger] v[i]).0, v[i].1)
}

/// Terrain after writing the cells `t` of a level at `o` over `acc`, in
/// order.
pub open spec fn place_cells(
    acc: Seq<(IVec3, MapTile)>,
    o: IVec3,
    t: Seq<(IVec2, MapTile)>,
) -> Seq<(IVec3, MapTile)>
    decreases t.len(),
{
    if t.len() == 0 {
        acc
    } else {
        seq_insert(place_cells(acc, o, t.drop_last()), world_pos(o, t.last().0), t.last().1)
    }
}

/// Terrain of the world: the cells of the levels written in order, a later
/// level's cell replacing an earlier one at the same position.
pub open spec fn world_terrain(v: Seq<(IVec3, FlatPatch)>) -> Seq<(IVec3, MapTile)>
    decreases v.len(),
{
    if v.len() == 0 {
        Seq::empty()
    } else {
        place_cells(world_terrain(v.drop_last()), v.last().0, v.last().1.terrain@)
    }
}

/// Spawns of a level at `o`, by world position and name.
pub open spec fn placed_spawns(o: IVec3, sp: Seq<(IVec2, Spawn)>) -> Seq<(IVec3, Seq<char>)> {
    sp.map_values(|e: (IVec2, Spawn)| (world_pos(o, e.0), e.1@))
}

/// Spawns of the world: those of each level in turn.
pub open spec fn world_spawns(v: Seq<(IVec3, FlatPatch)>) -> Seq<(IVec3, Seq<char>)>
    decreases v.len(),
{
    if v.len() == 0 {
        Seq::empty()
    } else {
        world_spawns(v.drop_last()) + placed_spawns(v.last().0, v.last().1.spawns@)
    }
}

/// Entrance of the world: that of the first level that has one.
pub open spec fn world_entrance(v: Seq<(IVec3, FlatPatch)>) -> Option<IVec3>
    decreases v.len(),
{
    if v.len() == 0 {
        None
    } else {
        match v[0].1.entrance {
            Some(e) => Some(world_pos(v[0].0, e)),
            None => world_entrance(v.drop_first()),
        }
    }
}

/// Two cells of a level at `o` land on the same world position only when
/// they are the same cell.
proof fn lemma_world_pos_injective(o: IVec3, p: IVec2, k: IVec2)
    requires
        cell_fits(o, p),
        cell_fits(o, k),
        world_pos(o, p) == world_pos(o, k),
    ensures
        p == k,
{
    assert(world_pos(o, p).x == o.x + p.x);
    assert(world_pos(o, k).x == o.x + k.x);
    assert(world_pos(o, p).y == o.y + p.y);
    assert(world_pos(o, k).y == o.y + k.y);
}

/// Writing a level's cells leaves the positions off its z plane alone.
proof fn lemma_place_cells_off_plane(
    acc: Seq<(IVec3, MapTile)>,
    o: IVec3,
    t: Seq<(IVec2, MapTile)>,
    q: IVec3,
)
    requires
        keys_distinct(acc),
        q.z != o.z,
    ensures
        keys_distinct(place_cells(acc, o, t)),
        seq_get(place_cells(acc, o, t), q) == seq_get(acc, q),
    decreases t.len(),
{
    if t.len() > 0 {
        lemma_place_cells_off_plane(acc, o, t.drop_last(), q);
        lemma_insert_get(place_cells(acc, o, t.drop_last()), world_pos(o, t.last().0), t.last().1, q);
    }
}

/// After writing a level's cells, the world position of cell `p` holds what
/// the level holds there, or what was there before if the level has no
/// such cell.
proof fn lemma_place_cells_on_plane(
    acc: Seq<(IVec3, MapTile)>,
    o: IVec3,
    t: Seq<(IVec2, MapTile)>,
    p: IVec2,
)
    requires
        keys_distinct(acc),
        keys_distinct(t),
        forall|k: int| 0 <= k < t.len() ==> cell_fits(o, (#[trigger] t[k]).0),
        cell_fits(o, p),
    ensures
        keys_distinct(place_cells(acc, o, t)),
        seq_get(place_cells(acc, o, t), world_pos(o, p)) == if seq_has_key(t, p) {
            seq_get(t, p)
        } else {
            seq_get(acc, world_pos(o, p))
        },
    decreases t.len(),
{
    if t.len() > 0 {
        let u = t.drop_last();
        let k = t.last().0;
        assert(keys_distinct(u)) by {
            assert forall|a: int, b: int| 0 <= a < b < u.len() implies (#[trigger] u[a]).0 != (
            #[trigger] u[b]).0 by {
                assert(t[a].0 != t[b].0);
            }
        }
        assert forall|a: int| 0 <= a < u.len() implies cell_fits(o, (#[trigger] u[a]).0) by {
            assert(u[a] == t[a]);
        }
        lemma_place_cells_on_plane(acc, o, u, p);
        lemma_insert_get(place_cells(acc, o, u), world_pos(o, k), t.last().1, world_pos(o, p));
        lemma_key_index(t, t.len() - 1);
        assert(cell_fits(o, t[t.len() - 1].0));
        if world_pos(o, p) == world_pos(o, k) {
            lemma_world_pos_injective(o, p, k);
        } else {
            assert(p != k);
            if seq_has_key(u, p) {
                let a = choose|a: int| 0 <= a < u.len() && (#[trigger] u[a]).0 == p;
                assert(t[a] == u[a]);
                lemma_key_index(u, a);
                lemma_key_index(t, a);
            }
            if seq_has_key(t, p) {
                let a = choose|a: int| 0 <= a < t.len() && (#[trigger] t[a]).0 == p;
                assert(a != t.len() - 1);
                assert(u[a] == t[a]);
            }
        }
    }
}

/// No level lies on the z plane of `q`: the world has no terrain there.
pub proof fn lemma_world_terrain_off_levels(v: Seq<(IVec3, FlatPatch)>, q: IVec3)
    requires
        forall|i: int| 0 <= i < v.len() ==> (#[trigger] v[i]).0.z != q.z,
    ensures
        keys_distinct(world_terrain(v)),
        seq_get(world_terrain(v), q) is None,
    decreases v.len(),
{
    if v.len() > 0 {
        let u = v.drop_last();
        assert forall|i: int| 0 <= i < u.len() implies (#[trigger] u[i]).0.z != q.z by {
            assert(u[i] == v[i]);
        }
        lemma_world_terrain_off_levels(u, q);
        assert(v.last() == v[v.len() - 1]);
        lemma_place_cells_off_plane(world_terrain(u), v.last().0, v.last().1.terrain@, q);
    }
}

/// Writing cells into a terrain that never repeats a position keeps it so.
proof fn lemma_place_cells_distinct(acc: Seq<(IVec3, MapTile)>, o: IVec3, t: Seq<(IVec2, MapTile)>)
    requires
        keys_distinct(acc),
    ensures
        keys_distinct(place_cells(acc, o, t)),
    decreases t.len(),
{
    if t.len() > 0 {
        lemma_place_cells_distinct(acc, o, t.drop_last());
        let k = world_pos(o, t.last().0);
        lemma_insert_get(place_cells(acc, o, t.drop_last()), k, t.last().1, k);
    }
}

/// The world's terrain never repeats a position.
proof fn lemma_world_terrain_distinct(v: Seq<(IVec3, FlatPatch)>)
    ensures
        keys_distinct(world_terrain(v)),
    decreases v.len(),
{
    if v.len() > 0 {
        lemma_world_terrain_distinct(v.drop_last());
        lemma_place_cells_distinct(world_terrain(v.drop_last()), v.last().0, v.last().1.terrain@);
    }
}

/// Reading the world back: when the levels lie on distinct z planes, the
/// world position of cell `p` of level `i` holds exactly what that level
/// holds at `p`, and nothing if the level has no cell there.
pub proof fn lemma_world_tile(v: Seq<(IVec3, FlatPatch)>, i: int, p: IVec2)
    requires
        levels_fit(v),
        forall|a: int, b: int| 0 <= a < b < v.len() ==> (#[trigger] v[a]).0.z != (#[trigger] v[b]).0.z,
        0 <= i < v.len(),
        v[i].1.wf(),
        cell_fits(v[i].0, p),
    ensures
        seq_get(world_terrain(v), world_pos(v[i].0, p)) == seq_get(v[i].1.terrain@, p),
    decreases v.len(),
{
    let u = v.drop_last();
    let last = v.len() - 1;
    assert(v.last() == v[last]);
    lemma_world_terrain_distinct(u);
    let q = world_pos(v[i].0, p);
    if i == last {
        assert forall|a: int| 0 <= a < u.len() implies (#[trigger] u[a]).0.z != q.z by {
            assert(u[a] == v[a]);
            assert(v[a].0.z != v[last].0.z);
        }
        lemma_world_terrain_off_levels(u, q);
        assert(level_fits(v[last].0, v[last].1));
        lemma_place_cells_on_plane(world_terrain(u), v[last].0, v[last].1.terrain@, p);
        if !seq_has_key(v[last].1.terrain@, p) {
            assert(seq_get(v[last].1.terrain@, p) is None);
        }
    } else {
        assert(v[i].0.z != v[last].0.z);
        lemma_place_cells_off_plane(world_terrain(u), v[last].0, v[last].1.terrain@, q);
        assert forall|a: int, b: int| 0 <= a < b < u.len() implies (#[trigger] u[a]).0.z != (
        #[trigger] u[b]).0.z by {
            assert(u[a] == v[a] && u[b] == v[b]);
        }
        assert forall|a: int| 0 <= a < u.len() implies level_fits((#[trigger] u[a]).0, u[a].1) by {
            assert(u[a] == v[a]);
        }
        assert(u[i] == v[i]);
        lemma_world_tile(u, i, p);
    }
}

/// In a generated dungeon world the stairs connect the levels: below every
/// downstairs of a level, one cell up on the next level down, lies an
/// upstairs.
pub proof fn lemma_world_stairs(v: Seq<(IVec3, FlatPatch)>, i: int, d: IVec2)
    requires
        dungeon_levels(v, MAX_DEPTH as int),
        0 <= i < MAX_DEPTH - 1,
        single_downstairs(v[i].1.terrain@, d),
    ensures
        seq_get(world_terrain(v), world_pos(level_origin(i), d)) == Some(MapTile::Downstairs),
        seq_get(world_terrain(v), world_pos(level_origin(i + 1), d.plus(spec_ivec2(0, -1))))
            == Some(MapTile::Upstairs),
{
    assert forall|a: int| 0 <= a < v.len() implies level_fits((#[trigger] v[a]).0, v[a].1) by {
        assert(v[a].0 == level_origin(a));
    }
    assert forall|a: int, b: int| 0 <= a < b < v.len() implies (#[trigger] v[a]).0.z != (
    #[trigger] v[b]).0.z by {
        assert(v[a].0 == level_origin(a));
        assert(v[b].0 == level_origin(b));
    }
    assert(v[i].0 == level_origin(i));
    assert(v[i + 1].0 == level_origin(i + 1));
    lemma_world_tile(v, i, d);
    lemma_world_tile(v, i + 1, d.plus(spec_ivec2(0, -1)));
}

/// The levels of the world with their origins, and the terrain they make.
pub struct World {
    levels: Vec<(IVec3, FlatPatch)>,
    terrain: AssocMap<IVec3, MapTile>,
}

impl World {
    /// The levels of the world with their origins, in order.
    pub closed spec fn levels(&self) -> Seq<(IVec3, FlatPatch)> {
        self.levels@
    }

    #[verifier::type_invariant]
    spec fn terrain_of_levels(&self) -> bool {
        &&& self.terrain.wf()
        &&& self.terrain@ == world_terrain(self.levels@)
    }

    /// World made of the given levels, each placed at its origin.
    pub fn from_levels(levels: Vec<(IVec3, FlatPatch)>) -> (r: World)
        requires
            levels_fit(levels@),
        ensures
            r.levels() == levels@,
    {
        let mut terrain: AssocMap<IVec3, MapTile> = AssocMap::new();
        let n = levels.len();
        let mut i: usize = 0;
        while i < n
            invariant
                n == levels@.len(),
                i <= n,
                levels_fit(levels@),
                terrain.wf(),
                terrain@ == world_terrain(levels@.take(i as int)),
            decreases n - i,
        {
            let o = levels[i].0;
            let t = &levels[i].1.terrain;
            let ghost acc = terrain@;
            assert(level_fits(levels@[i as int].0, levels@[i as int].1));
            let m = t.len();
            let mut j: usize = 0;
            while j < m
                invariant
                    i < n,
                    n == levels@.len(),
                    m == t@.len(),
                    j <= m,
                    o == levels@[i as int].0,
                    *t == levels@[i as int].1.terrain,
                    level_fits(o, levels@[i as int].1),
                    terrain.wf(),
                    terrain@ == place_cells(acc, o, t@.take(j as int)),
                decreases m - j,
            {
                let p = t.key_at(j);
                let c = *t.value_at(j);
                assert(cell_fits(o, t@[j as int].0));
                let q = ivec3(o.x + p.x, o.y + p.y, o.z);
                assert(t@.take(j + 1).drop_last() == t@.take(j as int));
                proof {
                    lemma_insert_get(terrain@, q, c, q);
                }
                terrain.insert(q, c);
                j += 1;
            }
            assert(t@.take(m as int) == t@);
            assert(levels@.take(i + 1).drop_last() == levels@.take(i as int));
            i += 1;
        }
        assert(levels@.take(n as int) == levels@);
        World { levels, terrain }
    }

    /// Terrain at a world position, if some level has a cell there.
    pub fn tile(&self, loc: IVec3) -> (r: Option<MapTile>)
        ensures
            r == seq_get(world_terrain(self.levels()), loc),
    {
        proof {
            use_type_invariant(self);
        }
        match self.terrain.get(&loc) {
            Some(t) => Some(*t),
            None => None,
        }
    }

    /// Spawns of all the levels at their world positions, level by level.
    pub fn spawns(&self) -> (r: Vec<(IVec3, Spawn)>)
        requires
            levels_fit(self.levels()),
        ensures
            spawn_names(r@) == world_spawns(self.levels()),
    {
        let mut out: Vec<(IVec3, Spawn)> = Vec::new();
        let n = self.levels.len();
        let mut i: usize = 0;
        while i < n
            invariant
                n == self.levels@.len(),
                i <= n,
                levels_fit(self.levels@),
                spawn_names(out@) == world_spawns(self.levels@.take(i as int)),
            decreases n - i,
        {
            let o = self.levels[i].0;
            let sp = &self.levels[i].1.spawns;
            let ghost before = spawn_names(out@);
            assert(level_fits(self.levels@[i as int].0, self.levels@[i as int].1));
            let m = sp.len();
            let mut j: usize = 0;
            while j < m
                invariant
                    i < n,
                    n == self.levels@.len(),
                    m == sp@.len(),
                    j <= m,
                    o == self.levels@[i as int].0,
                    *sp == self.levels@[i as int].1.spawns,
                    level_fits(o, self.levels@[i as int].1),
                    spawn_names(out@) == before + placed_spawns(o, sp@.take(j as int)),
                decreases m - j,
            {
                let p = sp.key_at(j);
                let s = sp.value_at(j).clone();
                assert(cell_fits(o, sp@[j as int].0));
                let q = ivec3(o.x + p.x, o.y + p.y, o.z);
                let ghost prev = out@;
                out.push((q, s));
                proof {
                    assert(q == world_pos(o, p));
                    assert(spawn_names(out@) =~= spawn_names(prev).push((q, s@)));
                    assert(placed_spawns(o, sp@.take(j + 1)) =~= placed_spawns(o, sp@.take(j as int)).push(
                        (world_pos(o, p), sp@[j as int].1@),
                    ));
                    assert(spawn_names(out@) =~= before + placed_spawns(o, sp@.take(j + 1)));
                }
                j += 1;
            }
            assert(sp@.take(m as int) == sp@);
            assert(self.levels@.take(i + 1).drop_last() == self.levels@.take(i as int));
            i += 1;
        }
        assert(self.levels@.take(n as int) == self.levels@);
        out
    }

    /// Where the player enters the world: the entrance of the first level
    /// that has one.
    pub fn entrance(&self) -> (r: Option<IVec3>)
        requires
            levels_fit(self.levels()),
        ensures
            r == world_entrance(self.levels()),
    {
        let n = self.levels.len();
        let mut i: usize = 0;
        assert(self.levels@.skip(0) == self.levels@);
        while i < n
            invariant
                n == self.levels@.len(),
                i <= n,
                levels_fit(self.levels@),
                world_entrance(self.levels@) == world_entrance(self.levels@.skip(i as int)),
            decreases n - i,
        {
            let o = self.levels[i].0;
            assert(self.levels@.skip(i as int)[0] == self.levels@[i as int]);
            match self.levels[i].1.entrance {
                Some(e) => {
                    assert(level_fits(self.levels@[i as int].0, self.levels@[i as int].1));
                    return Some(ivec3(o.x + e.x, o.y + e.y, o.z));
                },
                None => {},
            }
            assert(self.levels@.skip(i as int).drop_first() == self.levels@.skip(i + 1));
            i += 1;
        }
        None
    }

    /// Generate the dungeon world: the stack of levels of `generate_levels`,
    /// each placed at its origin. When some level finds no spot for its
    /// downstairs, there is no world, and the error tells which level and
    /// map got stuck below which levels.
    pub fn generate<F: Fn(SpawnKind, u32, &mut StdRng) -> Spawn>(rng: &mut StdRng, pick: &F) -> (r: Result<
        World,
        DungeonStuck,
    >)
        requires
            forall|k: SpawnKind, d: u32, g: &mut StdRng| pick.requires((k, d, g)),
        ensures
            r matches Ok(w) ==> dungeon_levels(w.levels(), MAX_DEPTH as int) && levels_fit(
                w.levels(),
            ) && forall|i: int|
                0 <= i < w.levels().len() ==> names_ok(
                    (#[trigger] w.levels()[i]).1.spawns@,
                    picked_name(*pick, (i + 1) as u32),
                ),
            r matches Err(e) ==> dungeon_stuck(e, *pick),
    {
        match generate_levels(rng, pick) {
            Ok(levels) => {
                assert(levels_fit(levels@)) by {
                    assert forall|i: int| 0 <= i < levels@.len() implies level_fits(
                        (#[trigger] levels@[i]).0,
                        levels@[i].1,
                    ) by {
                        assert(levels@[i].0.x == 0 && levels@[i].0.y == 0);
                    }
                }
                Ok(World::from_levels(levels))
            },
            Err(e) => Err(e),
        }
    }
}

} // verus!
