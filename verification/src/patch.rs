//! Flat map patches: terrain and spawn specifications for a 2D area.

use vstd::prelude::*;

use crate::assoc::{
    AssocMap, keys_distinct, lemma_insert_get, seq_get, seq_has_key, seq_insert, seq_key_index,
};
use crate::geom::{IVec2, Rect, dir4, dir8, has_neighbors, ivec2, s4_dir, s8_dir, spec_ivec2};
use crate::map_tile::MapTile;
use crate::text::{chars_of, is_whitespace, spec_is_whitespace};

verus! {

/// Representation of a generatable entity by name.
#[derive(Debug)]
pub struct Spawn(pub String);

impl View for Spawn {
    type V = Seq<char>;

    open spec fn view(&self) -> Seq<char> {
        self.0@
    }
}

impl Clone for Spawn {
    fn clone(&self) -> (r: Self)
        ensures
            r@ == self@,
    {
        Spawn(self.0.clone())
    }
}

impl Spawn {
    pub fn new(name: String) -> (r: Spawn)
        ensures
            r@ == name@,
    {
        Spawn(name)
    }

    pub fn name(&self) -> (r: &str)
        ensures
            r@ == self@,
    {
        self.0.as_str()
    }
}

/// Names of spawns in a sequence of positioned spawns.
pub open spec fn spawn_names<K>(s: Seq<(K, Spawn)>) -> Seq<(K, Seq<char>)> {
    s.map_values(|e: (K, Spawn)| (e.0, e.1@))
}

/// Specification for a 2D patch of the game world.
#[derive(Debug)]
pub struct FlatPatch {
    pub terrain: AssocMap<IVec2, MapTile>,
    pub spawns: AssocMap<IVec2, Spawn>,
    pub entrance: Option<IVec2>,
}

/// Datafile version of the patch legend: which character stands for which
/// spawn.
pub struct PatchData {
    pub legend: AssocMap<char, Spawn>,
}

/// Terrain at a position of a terrain sequence counts as solid: undefined
/// cells and walls.
pub open spec fn solid_in(t: Seq<(IVec2, MapTile)>, p: IVec2) -> bool {
    match seq_get(t, p) {
        None => true,
        Some(m) => m == MapTile::Wall,
    }
}

/// Terrain at a position is defined and walkable.
pub open spec fn open_in(t: Seq<(IVec2, MapTile)>, p: IVec2) -> bool {
    match seq_get(t, p) {
        None => false,
        Some(m) => m.spec_is_walkable(),
    }
}

/// Digging at `pos` would open up a 2x2 square of non-solid cells.
pub open spec fn opens_square(t: Seq<(IVec2, MapTile)>, pos: IVec2, d: int) -> bool {
    !solid_in(t, pos.plus(dir8(d % 8))) && !solid_in(t, pos.plus(dir8((d + 1) % 8)))
        && !solid_in(t, pos.plus(dir8((d + 2) % 8)))
}

pub open spec fn tunnel_support_in(t: Seq<(IVec2, MapTile)>, pos: IVec2) -> bool {
    !opens_square(t, pos, 0) && !opens_square(t, pos, 2) && !opens_square(t, pos, 4)
        && !opens_square(t, pos, 6)
}

/// Rotation of a vector by a quarter turn, `(x, y)` to `(-y, x)`.
pub open spec fn quarter_turn(v: IVec2) -> IVec2 {
    spec_ivec2(-v.y, v.x as int)
}

/// Whether a tunnel can continue from `pos` to the neighbor `p2`.
pub open spec fn tunnel_step_ok(t: Seq<(IVec2, MapTile)>, pos: IVec2, p2: IVec2) -> bool {
    let front = p2.minus(pos);
    let side = quarter_turn(front);
    if open_in(t, p2) {
        true
    } else if open_in(t, pos.plus(side)) && open_in(t, pos.plus(side).plus(front)) {
        false
    } else if open_in(t, pos.minus(side)) && open_in(t, pos.minus(side).plus(front)) {
        false
    } else {
        !seq_has_key(t, p2)
    }
}

/// Neighbors of `pos` among the first `n` orthogonal directions that a
/// tunnel can continue to.
pub open spec fn tunnel_steps(t: Seq<(IVec2, MapTile)>, pos: IVec2, n: int) -> Seq<IVec2>
    decreases n,
{
    if n <= 0 {
        Seq::empty()
    } else {
        let prev = tunnel_steps(t, pos, n - 1);
        let p2 = pos.plus(dir4(n - 1));
        if tunnel_step_ok(t, pos, p2) {
            prev.push(p2)
        } else {
            prev
        }
    }
}

/// Positions of walkable terrain, in order.
pub open spec fn walkable_positions(t: Seq<(IVec2, MapTile)>) -> Seq<IVec2>
    decreases t.len(),
{
    if t.len() == 0 {
        Seq::empty()
    } else {
        let prev = walkable_positions(t.drop_last());
        if t.last().1.spec_is_walkable() {
            prev.push(t.last().0)
        } else {
            prev
        }
    }
}

/// Position of the first downstairs, if any.
pub open spec fn first_downstairs(t: Seq<(IVec2, MapTile)>) -> Option<IVec2>
    decreases t.len(),
{
    if t.len() == 0 {
        None
    } else {
        match first_downstairs(t.drop_last()) {
            Some(p) => Some(p),
            None => if t.last().1 == MapTile::Downstairs {
                Some(t.last().0)
            } else {
                None
            },
        }
    }
}

/// Result of merging the entries of `o`, shifted by `off`, into `s`.
pub open spec fn seq_merge<T>(s: Seq<(IVec2, T)>, o: Seq<(IVec2, T)>, off: IVec2) -> Seq<
    (IVec2, T),
>
    decreases o.len(),
{
    if o.len() == 0 {
        s
    } else {
        seq_insert(seq_merge(s, o.drop_last(), off), o.last().0.plus(off), o.last().1)
    }
}

/// All keys of a sequence can be shifted by an offset without overflow.
pub open spec fn keys_shiftable<T>(o: Seq<(IVec2, T)>, off: IVec2) -> bool {
    forall|i: int| 0 <= i < o.len() ==> (#[trigger] o[i]).0.can_add(off)
}

/// Whether a cell of another patch can be dropped at `q` in terrain `t`
/// with spawns `sp`.
pub open spec fn placeable_at(
    t: Seq<(IVec2, MapTile)>,
    sp: Seq<(IVec2, Spawn)>,
    q: IVec2,
    m: MapTile,
) -> bool {
    match seq_get(t, q) {
        None => true,
        Some(current) => (current == MapTile::Wall && m == MapTile::Wall) || (
        tunnel_support_in(t, q) && !seq_has_key(sp, q) && seq_get(t, q) == Some(
            MapTile::Ground,
        ) && m.spec_is_walkable()),
    }
}

/// Whether a stairwell can be dug at `p`, which lies `dy` away from open
/// ground, with the cells on that side all closed.
pub open spec fn stair_spot_ok(t: Seq<(IVec2, MapTile)>, p: IVec2, dy: int) -> bool {
    !seq_has_key(t, p) && !open_in(t, p.plus(spec_ivec2(-1, 0))) && !open_in(
        t,
        p.plus(spec_ivec2(1, 0)),
    ) && !open_in(t, p.plus(spec_ivec2(-1, dy))) && !open_in(t, p.plus(spec_ivec2(0, dy)))
        && !open_in(t, p.plus(spec_ivec2(1, dy)))
}

/// Candidate stairwell positions `dy` away from walkable cells.
pub open spec fn stair_positions(t: Seq<(IVec2, MapTile)>, w: Seq<IVec2>, dy: int) -> Seq<IVec2>
    decreases w.len(),
{
    if w.len() == 0 {
        Seq::empty()
    } else {
        let prev = stair_positions(t, w.drop_last(), dy);
        let p = w.last().plus(spec_ivec2(0, dy));
        if stair_spot_ok(t, p, dy) {
            prev.push(p)
        } else {
            prev
        }
    }
}

/// Points at least two steps away from the edges of the `i32` range.
pub open spec fn well_inside(p: IVec2) -> bool {
    i32::MIN + 2 < p.x < i32::MAX - 2 && i32::MIN + 2 < p.y < i32::MAX - 2
}

impl FlatPatch {
    pub open spec fn wf(&self) -> bool {
        self.terrain.wf() && self.spawns.wf()
    }

    pub fn new() -> (r: FlatPatch)
        ensures
            r.wf(),
            r.terrain@ == Seq::<(IVec2, MapTile)>::empty(),
            r.spawns@ == Seq::<(IVec2, Spawn)>::empty(),
            r.entrance is None,
    {
        FlatPatch { terrain: AssocMap::new(), spawns: AssocMap::new(), entrance: None }
    }

    /// Merge another patch into this.
    pub fn merge(&mut self, offset: IVec2, other: FlatPatch)
        requires
            old(self).wf(),
            other.wf(),
            keys_shiftable(other.terrain@, offset),
            keys_shiftable(other.spawns@, offset),
            other.entrance matches Some(e) ==> e.can_add(offset),
        ensures
            final(self).wf(),
            final(self).terrain@ == seq_merge(old(self).terrain@, other.terrain@, offset),
            spawn_names(final(self).spawns@) == spawn_names(
                seq_merge(old(self).spawns@, other.spawns@, offset),
            ),
            final(self).entrance == if old(self).entrance is None {
                match other.entrance {
                    Some(e) => Some(e.plus(offset)),
                    None => None,
                }
            } else {
                old(self).entrance
            },
    {
        let FlatPatch { terrain, spawns, entrance } = other;
        let mut ts = terrain.into_entries();
        let ghost t0 = ts@;
        let tn = ts.len();
        let ghost base_t = self.terrain@;
        let mut i: usize = 0;
        while ts.len() > 0
            invariant
                self.terrain.wf(),
                self.spawns.wf(),
                self.spawns@ == old(self).spawns@,
                self.entrance == old(self).entrance,
                0 <= i <= t0.len(),
                t0.len() == tn,
                i + ts@.len() == t0.len(),
                ts@ == t0.subrange(i as int, t0.len() as int),
                keys_shiftable(t0, offset),
                self.terrain@ == seq_merge(base_t, t0.take(i as int), offset),
            decreases ts.len(),
        {
            let (p, t) = ts.remove(0);
            assert(t0[i as int] == (p, t));
            assert(t0.take(i + 1).drop_last() == t0.take(i as int));
            self.terrain.insert(p.add(offset), t);
            i += 1;
        }
        assert(t0.take(t0.len() as int) == t0);
        let mut ss = spawns.into_entries();
        let ghost s0 = ss@;
        let sn = ss.len();
        let ghost base_s = self.spawns@;
        let mut j: usize = 0;
        while ss.len() > 0
            invariant
                self.spawns.wf(),
                self.terrain.wf(),
                self.terrain@ == seq_merge(base_t, t0, offset),
                self.entrance == old(self).entrance,
                0 <= j <= s0.len(),
                s0.len() == sn,
                j + ss@.len() == s0.len(),
                ss@ == s0.subrange(j as int, s0.len() as int),
                keys_shiftable(s0, offset),
                self.spawns@ == seq_merge(base_s, s0.take(j as int), offset),
            decreases ss.len(),
        {
            let (p, s) = ss.remove(0);
            assert(s0[j as int] == (p, s));
            assert(s0.take(j + 1).drop_last() == s0.take(j as int));
            self.spawns.insert(p.add(offset), s);
            j += 1;
        }
        assert(s0.take(s0.len() as int) == s0);
        if self.entrance.is_none() {
            self.entrance = match entrance {
                Some(e) => Some(e.add(offset)),
                None => None,
            };
        }
    }

    pub fn set_terrain(&mut self, pos: IVec2, t: MapTile)
        requires
            old(self).wf(),
        ensures
            final(self).wf(),
            final(self).terrain@ == seq_insert(old(self).terrain@, pos, t),
            final(self).spawns@ == old(self).spawns@,
            final(self).entrance == old(self).entrance,
    {
        self.terrain.insert(pos, t);
    }

    pub fn add_spawn(&mut self, pos: IVec2, spawn: Spawn)
        requires
            old(self).wf(),
        ensures
            final(self).wf(),
            final(self).spawns@ == seq_insert(old(self).spawns@, pos, spawn),
            final(self).terrain@ == old(self).terrain@,
            final(self).entrance == old(self).entrance,
    {
        self.spawns.insert(pos, spawn);
    }

    /// Undefined cells and walls are solid.
    pub fn is_solid(&self, pos: IVec2) -> (r: bool)
        requires
            self.wf(),
        ensures
            r == solid_in(self.terrain@, pos),
    {
        match self.terrain.get(&pos) {
            None => true,
            Some(t) => *t == MapTile::Wall,
        }
    }

    /// Digging at `pos` would not open a 2x2 square of non-solid cells.
    #[verifier::spinoff_prover]
    #[verifier::rlimit(30)]
    fn has_tunnel_support(&self, pos: IVec2) -> (r: bool)
        requires
            self.wf(),
            has_neighbors(pos),
        ensures
            r == tunnel_support_in(self.terrain@, pos),
    {
        //  #..
        //  #@.
        //  ###
        //
        // The forbidden tunneling position, digging at @ will open an
        // un-tunnely 4-cell square.
        let mut d: usize = 0;
        while d < 8
            invariant
                self.wf(),
                has_neighbors(pos),
                d % 2 == 0,
                d <= 8,
                forall|e: int|
                    0 <= e < d && e % 2 == 0 ==> !#[trigger] opens_square(self.terrain@, pos, e),
            decreases 8 - d,
        {
            let a = !self.is_solid(pos.add(s8_dir(d % 8)));
            let b = !self.is_solid(pos.add(s8_dir((d + 1) % 8)));
            let c = !self.is_solid(pos.add(s8_dir((d + 2) % 8)));
            if a && b && c {
                assert(opens_square(self.terrain@, pos, d as int));
                return false;
            }
            d += 2;
        }
        assert(!opens_square(self.terrain@, pos, 0));
        assert(!opens_square(self.terrain@, pos, 2));
        assert(!opens_square(self.terrain@, pos, 4));
        assert(!opens_square(self.terrain@, pos, 6));
        true
    }

    /// A cell of plain ground, free of spawns, whose digging does not open a
    /// 2x2 square.
    pub fn is_tunnel(&self, pos: IVec2) -> (r: bool)
        requires
            self.wf(),
            has_neighbors(pos),
        ensures
            r == (tunnel_support_in(self.terrain@, pos) && !seq_has_key(self.spawns@, pos)
                && seq_get(self.terrain@, pos) == Some(MapTile::Ground)),
    {
        self.has_tunnel_support(pos) && self.spawns.get(&pos).is_none() && match self.terrain.get(
            &pos,
        ) {
            Some(t) => *t == MapTile::Ground,
            None => false,
        }
    }

    /// Defined and walkable cell.
    pub fn is_open(&self, pos: IVec2) -> (r: bool)
        requires
            self.wf(),
        ensures
            r == open_in(self.terrain@, pos),
    {
        match self.terrain.get(&pos) {
            Some(t) => t.is_walkable(),
            None => false,
        }
    }

    /// Neighbors that a tunnel dug from `pos` can continue into.
    pub fn valid_tunnels_from(&self, pos: IVec2) -> (r: Vec<IVec2>)
        requires
            self.wf(),
            well_inside(pos),
        ensures
            r@ == tunnel_steps(self.terrain@, pos, 4),
    {
        let mut ret: Vec<IVec2> = Vec::new();
        let mut i: usize = 0;
        while i < 4
            invariant
                self.wf(),
                well_inside(pos),
                i <= 4,
                ret@ == tunnel_steps(self.terrain@, pos, i as int),
            decreases 4 - i,
        {
            let d = s4_dir(i);
            let p2 = pos.add(d);
            let front = p2.sub(pos);
            let side = ivec2(-front.y, front.x);
            let ok = if self.is_open(p2) {
                // Already open neighbor, pass right through.
                true
            } else if self.is_open(pos.add(side)) && self.is_open(pos.add(side).add(front)) {
                // Two consecutive open cells on either side, no go.
                false
            } else if self.is_open(pos.sub(side)) && self.is_open(pos.sub(side).add(front)) {
                false
            } else {
                // Don't dig through defined walls.
                !self.terrain.contains_key(&p2)
            };
            assert(quarter_turn(front) == side);
            if ok {
                ret.push(p2);
            }
            i += 1;
        }
        ret
    }

    /// Positions of walkable terrain.
    pub fn open_area(&self) -> (r: Vec<IVec2>)
        requires
            self.wf(),
        ensures
            r@ == walkable_positions(self.terrain@),
    {
        let mut ret: Vec<IVec2> = Vec::new();
        let n = self.terrain.len();
        let mut i: usize = 0;
        while i < n
            invariant
                self.wf(),
                n == self.terrain@.len(),
                i <= n,
                ret@ == walkable_positions(self.terrain@.take(i as int)),
            decreases n - i,
        {
            assert(self.terrain@.take(i + 1).drop_last() == self.terrain@.take(i as int));
            if self.terrain.value_at(i).is_walkable() {
                ret.push(self.terrain.key_at(i));
            }
            i += 1;
        }
        assert(self.terrain@.take(n as int) == self.terrain@);
        ret
    }

    /// Position of the first downstairs tile.
    pub fn downstairs_pos(&self) -> (r: Option<IVec2>)
        requires
            self.wf(),
        ensures
            r == first_downstairs(self.terrain@),
    {
        let n = self.terrain.len();
        let mut i: usize = 0;
        while i < n
            invariant
                self.wf(),
                n == self.terrain@.len(),
                i <= n,
                first_downstairs(self.terrain@.take(i as int)) is None,
            decreases n - i,
        {
            assert(self.terrain@.take(i + 1).drop_last() == self.terrain@.take(i as int));
            if *self.terrain.value_at(i) == MapTile::Downstairs {
                proof {
                    lemma_first_downstairs_prefix(self.terrain@, i as int + 1);
                }
                return Some(self.terrain.key_at(i));
            }
            i += 1;
        }
        assert(self.terrain@.take(n as int) == self.terrain@);
        None
    }

    /// See if the patch can be placed in given offset without clobbering
    /// existing area.
    pub fn can_place(&self, offset: IVec2, other: &FlatPatch) -> (r: bool)
        requires
            self.wf(),
            other.wf(),
            keys_shiftable(other.terrain@, offset),
            forall|i: int|
                0 <= i < other.terrain@.len() ==> has_neighbors(
                    (#[trigger] other.terrain@[i]).0.plus(offset),
                ),
        ensures
            r == forall|i: int|
                0 <= i < other.terrain@.len() ==> placeable_at(
                    self.terrain@,
                    self.spawns@,
                    (#[trigger] other.terrain@[i]).0.plus(offset),
                    other.terrain@[i].1,
                ),
    {
        let n = other.terrain.len();
        let mut i: usize = 0;
        while i < n
            invariant
                self.wf(),
                other.wf(),
                n == other.terrain@.len(),
                i <= n,
                keys_shiftable(other.terrain@, offset),
                forall|k: int|
                    0 <= k < other.terrain@.len() ==> has_neighbors(
                        (#[trigger] other.terrain@[k]).0.plus(offset),
                    ),
                forall|k: int|
                    0 <= k < i ==> placeable_at(
                        self.terrain@,
                        self.spawns@,
                        (#[trigger] other.terrain@[k]).0.plus(offset),
                        other.terrain@[k].1,
                    ),
            decreases n - i,
        {
            let p = other.terrain.key_at(i);
            let t = *other.terrain.value_at(i);
            let q = p.add(offset);
            let ok = match self.terrain.get(&q) {
                // Cell isn't defined locally yet, good to go.
                None => true,
                Some(current) => {
                    // Walls can merge, and walkable tiles can go on top of a
                    // tunnel.
                    (*current == MapTile::Wall && t == MapTile::Wall) || (self.is_tunnel(q)
                        && t.is_walkable())
                },
            };
            if !ok {
                assert(!placeable_at(self.terrain@, self.spawns@, q, t));
                return false;
            }
            i += 1;
        }
        true
    }

    fn stair_positions_at(&self, dy: i32) -> (r: Vec<IVec2>)
        requires
            self.wf(),
            dy == 1 || dy == -1,
            forall|i: int| 0 <= i < self.terrain@.len() ==> well_inside(#[trigger] self.terrain@[i].0),
        ensures
            r@ == stair_positions(self.terrain@, walkable_positions(self.terrain@), dy as int),
    {
        let open = self.open_area();
        proof {
            lemma_walkable_positions_inside(self.terrain@);
        }
        let mut ret: Vec<IVec2> = Vec::new();
        let n = open.len();
        let mut i: usize = 0;
        while i < n
            invariant
                self.wf(),
                dy == 1 || dy == -1,
                n == open@.len(),
                open@ == walkable_positions(self.terrain@),
                forall|k: int| 0 <= k < open@.len() ==> well_inside(#[trigger] open@[k]),
                i <= n,
                ret@ == stair_positions(self.terrain@, open@.take(i as int), dy as int),
            decreases n - i,
        {
            assert(open@.take(i + 1).drop_last() == open@.take(i as int));
            let p = open[i].add(ivec2(0, dy));
            let ok = !self.terrain.contains_key(&p) && !self.is_open(p.add(ivec2(-1, 0)))
                && !self.is_open(p.add(ivec2(1, 0))) && !self.is_open(p.add(ivec2(-1, dy)))
                && !self.is_open(p.add(ivec2(0, dy))) && !self.is_open(p.add(ivec2(1, dy)));
            if ok {
                ret.push(p);
            }
            i += 1;
        }
        assert(open@.take(n as int) == open@);
        ret
    }

    /// Spots directly above open cells where an upstairs fits.
    pub fn upstair_positions(&self) -> (r: Vec<IVec2>)
        requires
            self.wf(),
            forall|i: int| 0 <= i < self.terrain@.len() ==> well_inside(#[trigger] self.terrain@[i].0),
        ensures
            r@ == stair_positions(self.terrain@, walkable_positions(self.terrain@), -1),
    {
        self.stair_positions_at(-1)
    }

    /// Spots directly below open cells where a downstairs fits.
    pub fn downstair_positions(&self) -> (r: Vec<IVec2>)
        requires
            self.wf(),
            forall|i: int| 0 <= i < self.terrain@.len() ==> well_inside(#[trigger] self.terrain@[i].0),
        ensures
            r@ == stair_positions(self.terrain@, walkable_positions(self.terrain@), 1),
    {
        self.stair_positions_at(1)
    }
}

proof fn lemma_first_downstairs_prefix(t: Seq<(IVec2, MapTile)>, k: int)
    requires
        0 < k <= t.len(),
        first_downstairs(t.take(k - 1)) is None,
        t[k - 1].1 == MapTile::Downstairs,
    ensures
        first_downstairs(t) == Some(t[k - 1].0),
    decreases t.len(),
{
    assert(t.take(k).drop_last() == t.take(k - 1));
    if k < t.len() {
        assert(t.drop_last().take(k) == t.take(k));
        assert(t.drop_last().take(k - 1) == t.take(k - 1));
        lemma_first_downstairs_prefix(t.drop_last(), k);
    } else {
        assert(t.take(k) == t);
    }
}

proof fn lemma_walkable_positions_inside(t: Seq<(IVec2, MapTile)>)
    requires
        forall|i: int| 0 <= i < t.len() ==> well_inside(#[trigger] t[i].0),
    ensures
        forall|k: int|
            0 <= k < walkable_positions(t).len() ==> well_inside(#[trigger] walkable_positions(t)[k]),
    decreases t.len(),
{
    if t.len() > 0 {
        let u = t.drop_last();
        assert forall|i: int| 0 <= i < u.len() implies well_inside(#[trigger] u[i].0) by {
            assert(u[i] == t[i]);
        }
        lemma_walkable_positions_inside(u);
        assert(well_inside(t[t.len() - 1].0));
        let w = walkable_positions(t);
        let pw = walkable_positions(u);
        assert forall|k: int| 0 <= k < w.len() implies well_inside(#[trigger] w[k]) by {
            if k < pw.len() {
                assert(w[k] == pw[k]);
            } else {
                assert(w[k] == t.last().0);
            }
        }
    }
}


/// `r` is the smallest rectangle holding every cell of `t` that is not a
/// wall, or the empty rectangle at the origin when there is none.
pub open spec fn nonwall_bounds(t: Seq<(IVec2, MapTile)>, r: Rect) -> bool {
    if forall|i: int| 0 <= i < t.len() ==> (#[trigger] t[i]).1 == MapTile::Wall {
        r == Rect { min: IVec2 { x: 0, y: 0 }, max: IVec2 { x: 0, y: 0 } }
    } else {
        &&& forall|i: int|
            0 <= i < t.len() && (#[trigger] t[i]).1 != MapTile::Wall ==> r.spec_contains(t[i].0)
        &&& exists|i: int| 0 <= i < t.len() && (#[trigger] t[i]).1 != MapTile::Wall && t[i].0.x == r.min.x
        &&& exists|i: int| 0 <= i < t.len() && (#[trigger] t[i]).1 != MapTile::Wall && t[i].0.y == r.min.y
        &&& exists|i: int|
            0 <= i < t.len() && (#[trigger] t[i]).1 != MapTile::Wall && t[i].0.x == r.max.x - 1
        &&& exists|i: int|
            0 <= i < t.len() && (#[trigger] t[i]).1 != MapTile::Wall && t[i].0.y == r.max.y - 1
    }
}

impl Clone for FlatPatch {
    fn clone(&self) -> (r: Self)
        ensures
            r.terrain@ == self.terrain@,
            spawn_names(r.spawns@) == spawn_names(self.spawns@),
            r.entrance == self.entrance,
            self.wf() ==> r.wf(),
    {
        let terrain = self.terrain.copy_map();
        let mut entries: Vec<(IVec2, Spawn)> = Vec::new();
        let n = self.spawns.len();
        let mut i: usize = 0;
        while i < n
            invariant
                n == self.spawns@.len(),
                i <= n,
                spawn_names(entries@) == spawn_names(self.spawns@.take(i as int)),
            decreases n - i,
        {
            let k = self.spawns.key_at(i);
            let v = self.spawns.value_at(i).clone();
            let ghost before = entries@;
            entries.push((k, v));
            proof {
                let pre = self.spawns@.take(i as int);
                let now = self.spawns@.take(i + 1);
                assert(spawn_names(before).len() == pre.len());
                assert forall|j: int| 0 <= j < i + 1 implies #[trigger] spawn_names(entries@)[j]
                    == spawn_names(now)[j] by {
                    if j < i {
                        assert(entries@[j] == before[j]);
                        assert(spawn_names(before)[j] == spawn_names(pre)[j]);
                        assert(pre[j] == now[j]);
                    }
                }
            }
            assert(spawn_names(entries@) =~= spawn_names(self.spawns@.take(i + 1)));
            i += 1;
        }
        assert(self.spawns@.take(n as int) == self.spawns@);
        let spawns = AssocMap::from_entries(entries);
        proof {
            if self.wf() {
                assert forall|a: int, b: int| 0 <= a < b < spawns@.len() implies (
                #[trigger] spawns@[a]).0 != (#[trigger] spawns@[b]).0 by {
                    assert(spawn_names(spawns@)[a].0 == spawns@[a].0);
                    assert(spawn_names(spawns@)[b].0 == spawns@[b].0);
                    assert(self.spawns@[a].0 != self.spawns@[b].0);
                }
            }
        }
        FlatPatch { terrain, spawns, entrance: self.entrance }
    }
}

impl FlatPatch {
    /// The terrain cells of the patch, in order. A spawn does not change
    /// the terrain under it.
    pub fn tiles(&self) -> (r: Vec<(IVec2, MapTile)>)
        ensures
            r@ == self.terrain@,
    {
        self.terrain.copy_map().into_entries()
    }

    /// Bounding rectangle of the cells that are not walls.
    pub fn bounds(&self) -> (r: Rect)
        requires
            forall|i: int|
                0 <= i < self.terrain@.len() ==> (#[trigger] self.terrain@[i]).0.x < i32::MAX
                    && self.terrain@[i].0.y < i32::MAX,
        ensures
            nonwall_bounds(self.terrain@, r),
    {
        let t = Ghost(self.terrain@);
        let n = self.terrain.len();
        let mut found = false;
        let mut lo = ivec2(0, 0);
        let mut hi = ivec2(0, 0);
        let ghost mut w: (int, int, int, int) = (0, 0, 0, 0);
        let mut i: usize = 0;
        while i < n
            invariant
                t@ == self.terrain@,
                n == t@.len(),
                i <= n,
                forall|j: int| 0 <= j < t@.len() ==> (#[trigger] t@[j]).0.x < i32::MAX && t@[j].0.y
                    < i32::MAX,
                !found ==> forall|j: int| 0 <= j < i ==> (#[trigger] t@[j]).1 == MapTile::Wall,
                found ==> forall|j: int|
                    0 <= j < i && (#[trigger] t@[j]).1 != MapTile::Wall ==> lo.x <= t@[j].0.x
                        <= hi.x && lo.y <= t@[j].0.y <= hi.y,
                found ==> 0 <= w.0 < i && t@[w.0].1 != MapTile::Wall && t@[w.0].0.x == lo.x,
                found ==> 0 <= w.1 < i && t@[w.1].1 != MapTile::Wall && t@[w.1].0.y == lo.y,
                found ==> 0 <= w.2 < i && t@[w.2].1 != MapTile::Wall && t@[w.2].0.x == hi.x,
                found ==> 0 <= w.3 < i && t@[w.3].1 != MapTile::Wall && t@[w.3].0.y == hi.y,
            decreases n - i,
        {
            let p = self.terrain.key_at(i);
            if *self.terrain.value_at(i) != MapTile::Wall {
                if !found {
                    found = true;
                    lo = p;
                    hi = p;
                    proof {
                        w = (i as int, i as int, i as int, i as int);
                    }
                } else {
                    if p.x < lo.x {
                        lo.x = p.x;
                        proof {
                            w.0 = i as int;
                        }
                    }
                    if p.y < lo.y {
                        lo.y = p.y;
                        proof {
                            w.1 = i as int;
                        }
                    }
                    if p.x > hi.x {
                        hi.x = p.x;
                        proof {
                            w.2 = i as int;
                        }
                    }
                    if p.y > hi.y {
                        hi.y = p.y;
                        proof {
                            w.3 = i as int;
                        }
                    }
                }
            }
            i += 1;
        }
        if !found {
            return Rect { min: ivec2(0, 0), max: ivec2(0, 0) };
        }
        let r = Rect { min: lo, max: ivec2(hi.x + 1, hi.y + 1) };
        assert(t@[w.0].1 != MapTile::Wall);
        assert(t@[w.1].1 != MapTile::Wall);
        assert(t@[w.2].1 != MapTile::Wall && t@[w.2].0.x == r.max.x - 1);
        assert(t@[w.3].1 != MapTile::Wall && t@[w.3].0.y == r.max.y - 1);
        r
    }
}

/// Entries of `o` shifted by `off` land on distinct keys when `o`'s keys are
/// distinct and fit.
pub proof fn lemma_shift_distinct<T>(o: Seq<(IVec2, T)>, off: IVec2, i: int, j: int)
    requires
        keys_distinct(o),
        keys_shiftable(o, off),
        0 <= i < o.len(),
        0 <= j < o.len(),
        i != j,
    ensures
        o[i].0.plus(off) != o[j].0.plus(off),
{
    if i < j {
        assert(o[i].0 != o[j].0);
    } else {
        assert(o[j].0 != o[i].0);
    }
    assert(o[i].0.can_add(off));
    assert(o[j].0.can_add(off));
}

/// Merging keeps the keys distinct and every key already present.
pub proof fn lemma_merge_keys<T>(s: Seq<(IVec2, T)>, o: Seq<(IVec2, T)>, off: IVec2, q: IVec2)
    requires
        keys_distinct(s),
    ensures
        keys_distinct(seq_merge(s, o, off)),
        seq_has_key(seq_merge(s, o, off), q) == (seq_has_key(s, q) || exists|i: int|
            0 <= i < o.len() && (#[trigger] o[i]).0.plus(off) == q),
    decreases o.len(),
{
    if o.len() > 0 {
        let o2 = o.drop_last();
        lemma_merge_keys(s, o2, off, q);
        lemma_insert_get(seq_merge(s, o2, off), o.last().0.plus(off), o.last().1, q);
        if exists|i: int| 0 <= i < o.len() && (#[trigger] o[i]).0.plus(off) == q {
            let i = choose|i: int| 0 <= i < o.len() && (#[trigger] o[i]).0.plus(off) == q;
            if i < o2.len() {
                assert(o2[i] == o[i]);
            }
        }
        if exists|i: int| 0 <= i < o2.len() && (#[trigger] o2[i]).0.plus(off) == q {
            let i = choose|i: int| 0 <= i < o2.len() && (#[trigger] o2[i]).0.plus(off) == q;
            assert(o[i] == o2[i]);
        }
    }
}

/// A key that no shifted entry lands on keeps its value through a merge.
pub proof fn lemma_merge_untouched<T>(s: Seq<(IVec2, T)>, o: Seq<(IVec2, T)>, off: IVec2, q: IVec2)
    requires
        keys_distinct(s),
        forall|i: int| 0 <= i < o.len() ==> (#[trigger] o[i]).0.plus(off) != q,
    ensures
        seq_get(seq_merge(s, o, off), q) == seq_get(s, q),
    decreases o.len(),
{
    if o.len() > 0 {
        let o2 = o.drop_last();
        assert forall|i: int| 0 <= i < o2.len() implies (#[trigger] o2[i]).0.plus(off) != q by {
            assert(o2[i] == o[i]);
        }
        lemma_merge_untouched(s, o2, off, q);
        lemma_merge_keys(s, o2, off, q);
        lemma_insert_get(seq_merge(s, o2, off), o.last().0.plus(off), o.last().1, q);
    }
}

/// After a merge, a shifted entry of `o` is found under its shifted key.
pub proof fn lemma_merge_shifted<T>(s: Seq<(IVec2, T)>, o: Seq<(IVec2, T)>, off: IVec2, i: int)
    requires
        keys_distinct(s),
        keys_distinct(o),
        keys_shiftable(o, off),
        0 <= i < o.len(),
    ensures
        seq_get(seq_merge(s, o, off), o[i].0.plus(off)) == Some(o[i].1),
    decreases o.len(),
{
    let o2 = o.drop_last();
    let q = o[i].0.plus(off);
    lemma_merge_keys(s, o2, off, q);
    lemma_insert_get(seq_merge(s, o2, off), o.last().0.plus(off), o.last().1, q);
    if i < o.len() - 1 {
        lemma_shift_distinct(o, off, i, o.len() - 1);
        assert(o2[i] == o[i]);
        assert forall|a: int, b: int| 0 <= a < b < o2.len() implies (#[trigger] o2[a]).0
            != (#[trigger] o2[b]).0 by {
            assert(o[a].0 != o[b].0);
        }
        assert forall|a: int| 0 <= a < o2.len() implies (#[trigger] o2[a]).0.can_add(off) by {
            assert(o2[a] == o[a]);
        }
        lemma_merge_shifted(s, o2, off, i);
    }
}

/// Every value after a merge was a value of `s` or of `o`.
pub proof fn lemma_merge_values<T>(s: Seq<(IVec2, T)>, o: Seq<(IVec2, T)>, off: IVec2, i: int)
    requires
        0 <= i < seq_merge(s, o, off).len(),
    ensures
        (exists|j: int| 0 <= j < s.len() && seq_merge(s, o, off)[i].1 == (#[trigger] s[j]).1) || (
        exists|j: int| 0 <= j < o.len() && seq_merge(s, o, off)[i].1 == (#[trigger] o[j]).1),
    decreases o.len(),
{
    if o.len() > 0 {
        let o2 = o.drop_last();
        let m = seq_merge(s, o2, off);
        let k = o.last().0.plus(off);
        let v = o.last().1;
        let r = seq_merge(s, o, off);
        assert(r == seq_insert(m, k, v));
        let from_last = r[i].1 == v;
        if !from_last {
            assert(i < m.len() && r[i] == m[i]) by {
                if seq_has_key(m, k) {
                    let idx = seq_key_index(m, k);
                    if i == idx {
                        assert(r[i] == (k, v));
                    }
                } else {
                    if i == m.len() {
                        assert(r[i] == (k, v));
                    }
                }
            }
            lemma_merge_values(s, o2, off, i);
            if exists|j: int| 0 <= j < o2.len() && m[i].1 == (#[trigger] o2[j]).1 {
                let j = choose|j: int| 0 <= j < o2.len() && m[i].1 == (#[trigger] o2[j]).1;
                assert(o[j] == o2[j]);
            }
        } else {
            assert(o[o.len() - 1].1 == v);
        }
    } else {
        assert(seq_merge(s, o, off)[i] == s[i]);
    }
}

/// Merging a patch that passed the placement check keeps walkable cells
/// walkable and leaves cells of other non-wall, non-ground terrain alone.
pub proof fn lemma_merge_placed(
    t: Seq<(IVec2, MapTile)>,
    sp: Seq<(IVec2, Spawn)>,
    o: Seq<(IVec2, MapTile)>,
    off: IVec2,
    q: IVec2,
)
    requires
        keys_distinct(t),
        keys_distinct(o),
        keys_shiftable(o, off),
        forall|i: int|
            0 <= i < o.len() ==> placeable_at(t, sp, (#[trigger] o[i]).0.plus(off), o[i].1),
    ensures
        keys_distinct(seq_merge(t, o, off)),
        open_in(t, q) ==> open_in(seq_merge(t, o, off), q),
        (seq_get(t, q) matches Some(m) && m != MapTile::Wall && m != MapTile::Ground) ==> seq_get(
            seq_merge(t, o, off),
            q,
        ) == seq_get(t, q),
{
    lemma_merge_keys(t, o, off, q);
    if exists|i: int| 0 <= i < o.len() && (#[trigger] o[i]).0.plus(off) == q {
        let i = choose|i: int| 0 <= i < o.len() && (#[trigger] o[i]).0.plus(off) == q;
        lemma_merge_shifted(t, o, off, i);
        assert(placeable_at(t, sp, o[i].0.plus(off), o[i].1));
    } else {
        lemma_merge_untouched(t, o, off, q);
    }
}

/// The first downstairs found is a downstairs entry; when none is found
/// there is no downstairs entry at all.
pub proof fn lemma_first_downstairs(t: Seq<(IVec2, MapTile)>)
    ensures
        first_downstairs(t) matches Some(p) ==> exists|i: int|
            0 <= i < t.len() && #[trigger] t[i] == (p, MapTile::Downstairs),
        first_downstairs(t) is None ==> forall|i: int|
            0 <= i < t.len() ==> (#[trigger] t[i]).1 != MapTile::Downstairs,
    decreases t.len(),
{
    if t.len() > 0 {
        let u = t.drop_last();
        lemma_first_downstairs(u);
        if let Some(p) = first_downstairs(u) {
            let i = choose|i: int| 0 <= i < u.len() && #[trigger] u[i] == (p, MapTile::Downstairs);
            assert(t[i] == u[i]);
        } else {
            assert forall|i: int| 0 <= i < t.len() - 1 implies (#[trigger] t[i]).1 != MapTile::Downstairs by {
                assert(t[i] == u[i]);
            }
            if t.last().1 == MapTile::Downstairs {
                assert(t[t.len() - 1] == (t.last().0, MapTile::Downstairs));
            }
        }
    }
}

/// A character of a patch map that is neither whitespace, the entrance
/// `'@'`, a legend letter nor a terrain character.
#[derive(Copy, Clone, PartialEq, Eq, Structural, Debug)]
pub struct BadPatchChar(pub char);

/// Grid position of the character at index `n` of a text: the column
/// counts characters since the last line break, the row counts line breaks.
pub open spec fn cursor(s: Seq<char>, n: int) -> (int, int)
    decreases n,
{
    if n <= 0 {
        (0, 0)
    } else {
        let (x, y) = cursor(s, n - 1);
        if s[n - 1] == '\n' {
            (0, y + 1)
        } else {
            (x + 1, y)
        }
    }
}

pub open spec fn cursor_pos(s: Seq<char>, n: int) -> IVec2 {
    spec_ivec2(cursor(s, n).0, cursor(s, n).1)
}

/// The spawn a legend letter stands for, by name.
pub open spec fn legend_get(legend: Seq<(char, Spawn)>, c: char) -> Option<Seq<char>> {
    match seq_get(legend, c) {
        Some(sp) => Some(sp@),
        None => None,
    }
}

/// Parsed patch contents: terrain, spawns by name and entrance.
pub type PatchModel = (Seq<(IVec2, MapTile)>, Seq<(IVec2, Seq<char>)>, Option<IVec2>);

/// Result of parsing the first `n` characters of a patch map with the given
/// legend, or the first offending character.
pub open spec fn parse_prefix(s: Seq<char>, legend: Seq<(char, Spawn)>, n: int) -> Result<
    PatchModel,
    char,
>
    decreases n,
{
    if n <= 0 {
        Ok((Seq::empty(), Seq::empty(), None))
    } else {
        match parse_prefix(s, legend, n - 1) {
            Err(c) => Err(c),
            Ok(m) => {
                let (t, sp, e) = m;
                let c = s[n - 1];
                let p = cursor_pos(s, n - 1);
                if spec_is_whitespace(c) {
                    Ok(m)
                } else if c == '@' {
                    // The player always stands on regular ground.
                    Ok((seq_insert(t, p, MapTile::Ground), sp, Some(p)))
                } else if legend_get(legend, c) is Some {
                    // Spawns are assumed to stand on regular ground.
                    Ok(
                        (
                            seq_insert(t, p, MapTile::Ground),
                            seq_insert(sp, p, legend_get(legend, c).unwrap()),
                            e,
                        ),
                    )
                } else {
                    match MapTile::spec_from_char(c) {
                        Some(tile) => Ok((seq_insert(t, p, tile), sp, e)),
                        None => Err(c),
                    }
                }
            },
        }
    }
}

/// Merging spawns and then taking names is taking names and then merging
/// them.
pub proof fn lemma_names_merge(s: Seq<(IVec2, Spawn)>, o: Seq<(IVec2, Spawn)>, off: IVec2)
    requires
        keys_distinct(s),
    ensures
        spawn_names(seq_merge(s, o, off)) == seq_merge(spawn_names(s), spawn_names(o), off),
    decreases o.len(),
{
    if o.len() > 0 {
        let o2 = o.drop_last();
        lemma_names_merge(s, o2, off);
        lemma_merge_keys(s, o2, off, o.last().0.plus(off));
        lemma_names_insert(seq_merge(s, o2, off), o.last().0.plus(off), o.last().1);
        assert(spawn_names(o).drop_last() =~= spawn_names(o2));
        assert(spawn_names(o).last() == (o.last().0, o.last().1@));
    } else {
        assert(spawn_names(o).len() == 0);
    }
}

/// Inserting a spawn and then taking names is taking names and then
/// inserting the name.
pub proof fn lemma_names_insert(sp: Seq<(IVec2, Spawn)>, p: IVec2, v: Spawn)
    requires
        keys_distinct(sp),
    ensures
        spawn_names(seq_insert(sp, p, v)) == seq_insert(spawn_names(sp), p, v@),
{
    let nm = spawn_names(sp);
    assert(seq_has_key(nm, p) == seq_has_key(sp, p)) by {
        if seq_has_key(sp, p) {
            let i = seq_key_index(sp, p);
            assert(nm[i].0 == p);
        }
        if seq_has_key(nm, p) {
            let i = seq_key_index(nm, p);
            assert(sp[i].0 == p);
        }
    }
    if seq_has_key(sp, p) {
        let i = seq_key_index(sp, p);
        let j = seq_key_index(nm, p);
        assert(nm[j].0 == p);
        assert(sp[j].0 == p);
        if i != j {
            if i < j {
                assert(sp[i].0 != sp[j].0);
            } else {
                assert(sp[j].0 != sp[i].0);
            }
        }
        assert(spawn_names(seq_insert(sp, p, v)) =~= seq_insert(nm, p, v@));
    } else {
        assert(spawn_names(seq_insert(sp, p, v)) =~= seq_insert(nm, p, v@));
    }
}

/// Once parsing fails it keeps failing on the same character.
pub proof fn lemma_parse_err_stable(s: Seq<char>, legend: Seq<(char, Spawn)>, i: int, n: int)
    requires
        0 <= i <= n,
        parse_prefix(s, legend, i) is Err,
    ensures
        parse_prefix(s, legend, n) == parse_prefix(s, legend, i),
    decreases n - i,
{
    if n > i {
        lemma_parse_err_stable(s, legend, i, n - 1);
    }
}

/// The cursor stays within the text length.
pub proof fn lemma_cursor_bound(s: Seq<char>, n: int)
    requires
        0 <= n,
    ensures
        0 <= cursor(s, n).0 <= n,
        0 <= cursor(s, n).1 <= n,
    decreases n,
{
    if n > 0 {
        lemma_cursor_bound(s, n - 1);
    }
}

impl FlatPatch {
    /// Parse a patch from its text map and legend.
    ///
    /// Whitespace is skipped, `'@'` marks the entrance, legend letters mark
    /// spawns and the rest must be terrain characters; entrance and spawn
    /// cells get regular ground.
    pub fn parse(data: &PatchData, map: &str) -> (r: Result<FlatPatch, BadPatchChar>)
        requires
            data.legend.wf(),
            map@.len() < i32::MAX,
        ensures
            match parse_prefix(map@, data.legend@, map@.len() as int) {
                Err(c) => r == Err::<FlatPatch, BadPatchChar>(BadPatchChar(c)),
                Ok(m) => r matches Ok(p) && p.wf() && p.terrain@ == m.0 && spawn_names(
                    p.spawns@,
                ) == m.1 && p.entrance == m.2,
            },
    {
        let chars = chars_of(map);
        let n = chars.len();
        let mut patch = FlatPatch::new();
        let mut x: i32 = 0;
        let mut y: i32 = 0;
        let mut i: usize = 0;
        while i < n
            invariant
                chars@ == map@,
                n == map@.len(),
                n < i32::MAX,
                i <= n,
                data.legend.wf(),
                patch.wf(),
                (x as int, y as int) == cursor(map@, i as int),
                parse_prefix(map@, data.legend@, i as int) matches Ok(m) && patch.terrain@ == m.0
                    && spawn_names(patch.spawns@) == m.1 && patch.entrance == m.2,
            decreases n - i,
        {
            proof {
                lemma_cursor_bound(map@, i as int);
            }
            let c = chars[i];
            let p = ivec2(x, y);
            let ghost sp_before = patch.spawns@;
            if is_whitespace(c) {
            } else if c == '@' {
                patch.entrance = Some(p);
                patch.terrain.insert(p, MapTile::Ground);
            } else {
                match data.legend.get(&c) {
                    Some(s) => {
                        let cl = s.clone();
                        patch.spawns.insert(p, cl);
                        patch.terrain.insert(p, MapTile::Ground);
                        proof {
                            lemma_names_insert(sp_before, p, cl);
                        }
                    },
                    None => {
                        match MapTile::try_from_char(c) {
                            Ok(t) => {
                                patch.terrain.insert(p, t);
                            },
                            Err(_) => {
                                proof {
                                    lemma_parse_err_stable(map@, data.legend@, i as int + 1, n as int);
                                }
                                return Err(BadPatchChar(c));
                            },
                        }
                    },
                }
            }
            if c == '\n' {
                x = 0;
                y = y + 1;
            } else {
                x = x + 1;
            }
            i += 1;
        }
        Ok(patch)
    }
}
} // verus!
