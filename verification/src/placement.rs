//! Spatial index of entities: where each entity is, which entities are at a
//! location or inside a container.

use vstd::prelude::*;

use crate::assoc::{AssocMap, KeyEq, keys_distinct, lemma_insert_get, lemma_key_index, lemma_remove_get, seq_get, seq_has_key};
use crate::geom::IVec3;

verus! {

/// An entity of the game world, by its id.
#[derive(Clone, Copy, Debug, PartialEq, Eq, Structural, Hash)]
pub struct Entity(pub u64);

/// Absolute place in the game world, either in a location or inside another
/// entity.
#[derive(Clone, Copy, Debug, PartialEq, Eq, Structural, Hash)]
pub enum Place {
    In(Entity),
    At(IVec3),
}

impl KeyEq for Entity {
    fn key_eq(&self, other: &Self) -> (r: bool) {
        self.0 == other.0
    }
}

impl KeyEq for Place {
    fn key_eq(&self, other: &Self) -> (r: bool) {
        match (self, other) {
            (Place::In(a), Place::In(b)) => a.0 == b.0,
            (Place::At(a), Place::At(b)) => a.x == b.x && a.y == b.y && a.z == b.z,
            _ => false,
        }
    }
}

impl Place {
    /// The place inside a container.
    pub fn from_entity(e: Entity) -> (r: Place)
        ensures
            r == Place::In(e),
    {
        Place::In(e)
    }

    /// The place at a location.
    pub fn from_location(loc: IVec3) -> (r: Place)
        ensures
            r == Place::At(loc),
    {
        Place::At(loc)
    }

    /// The container, for a place inside one.
    pub fn entity(self) -> (r: Option<Entity>)
        ensures
            r == (match self {
                Place::In(e) => Some(e),
                Place::At(_) => None,
            }),
    {
        if let Place::In(e) = self {
            Some(e)
        } else {
            None
        }
    }

    /// The location, for a place at one.
    pub fn location(self) -> (r: Option<IVec3>)
        ensures
            r == (match self {
                Place::At(l) => Some(l),
                Place::In(_) => None,
            }),
    {
        if let Place::At(loc) = self {
            Some(loc)
        } else {
            None
        }
    }
}

/// Entity `x` lies, directly or through containers, inside `c`. Each step
/// goes to a container of lower rank.
pub open spec fn within(places: Seq<(Entity, Place)>, rank: Map<Entity, nat>, x: Entity, c: Entity) -> bool
    decreases rank[x],
{
    match seq_get(places, x) {
        Some(Place::In(y)) => if rank[y] < rank[x] {
            y == c || within(places, rank, y, c)
        } else {
            false
        },
        _ => false,
    }
}

/// Location of an entity, found through its containers.
pub open spec fn pos_of(places: Seq<(Entity, Place)>, rank: Map<Entity, nat>, x: Entity) -> Option<IVec3>
    decreases rank[x],
{
    match seq_get(places, x) {
        Some(Place::At(l)) => Some(l),
        Some(Place::In(y)) => if rank[y] < rank[x] {
            pos_of(places, rank, y)
        } else {
            None
        },
        None => None,
    }
}

/// A sequence with every occurrence of `e` taken out, the rest in order.
pub open spec fn seq_without(s: Seq<Entity>, e: Entity) -> Seq<Entity>
    decreases s.len(),
{
    if s.len() == 0 {
        s
    } else if s.last() == e {
        seq_without(s.drop_last(), e)
    } else {
        seq_without(s.drop_last(), e).push(s.last())
    }
}

proof fn lemma_without(s: Seq<Entity>, e: Entity)
    ensures
        forall|x: Entity| seq_without(s, e).contains(x) <==> (s.contains(x) && x != e),
        !s.contains(e) ==> seq_without(s, e) == s,
        s.no_duplicates() ==> seq_without(s, e).no_duplicates(),
    decreases s.len(),
{
    if s.len() > 0 {
        let t = s.drop_last();
        lemma_without(t, e);
        let w = seq_without(t, e);
        assert forall|x: Entity| s.contains(x) <==> (t.contains(x) || x == s.last()) by {
            if s.contains(x) {
                let i = choose|i: int| 0 <= i < s.len() && s[i] == x;
                if i < t.len() {
                    assert(t[i] == x);
                }
            }
            if t.contains(x) {
                let i = choose|i: int| 0 <= i < t.len() && t[i] == x;
                assert(s[i] == x);
            }
            if x == s.last() {
                assert(s[s.len() - 1] == x);
            }
        }
        if !s.contains(e) {
            assert(!t.contains(e)) by {
                if t.contains(e) {
                    let i = choose|i: int| 0 <= i < t.len() && t[i] == e;
                    assert(s[i] == e);
                }
            }
            assert(s.last() != e) by {
                assert(s[s.len() - 1] == s.last());
            }
            assert(t.push(s.last()) =~= s);
        }
        if s.last() != e {
            assert forall|x: Entity| w.push(s.last()).contains(x) <==> (w.contains(x) || x == s.last()) by {
                if w.push(s.last()).contains(x) {
                    let i = choose|i: int| 0 <= i < w.push(s.last()).len() && w.push(s.last())[i] == x;
                    if i < w.len() {
                        assert(w[i] == x);
                    }
                }
                if w.contains(x) {
                    let i = choose|i: int| 0 <= i < w.len() && w[i] == x;
                    assert(w.push(s.last())[i] == x);
                }
                if x == s.last() {
                    assert(w.push(s.last())[w.len() as int] == x);
                }
            }
            if s.no_duplicates() {
                assert(t.no_duplicates()) by {
                    assert forall|i: int, j: int| 0 <= i < t.len() && 0 <= j < t.len() && i != j implies t[i] != t[j] by {
                        assert(s[i] == t[i] && s[j] == t[j]);
                    }
                }
                assert(!t.contains(s.last())) by {
                    if t.contains(s.last()) {
                        let i = choose|i: int| 0 <= i < t.len() && t[i] == s.last();
                        assert(s[i] == s[s.len() - 1]);
                    }
                }
                let u = w.push(s.last());
                assert forall|i: int, j: int| 0 <= i < u.len() && 0 <= j < u.len() && i != j implies u[i] != u[j] by {
                    if i < w.len() && j < w.len() {
                        assert(u[i] == w[i] && u[j] == w[j]);
                    } else if i < w.len() {
                        assert(w.contains(u[i]));
                    } else {
                        assert(u[j] == w[j]);
                        assert(w.contains(u[j]));
                    }
                }
            }
        } else {
            if s.no_duplicates() {
                assert(t.no_duplicates()) by {
                    assert forall|i: int, j: int| 0 <= i < t.len() && 0 <= j < t.len() && i != j implies t[i] != t[j] by {
                        assert(s[i] == t[i] && s[j] == t[j]);
                    }
                }
            }
        }
    }
}

/// Containers rank below what they hold, and placed entities rank below
/// `bound`.
pub open spec fn ranked(places: Seq<(Entity, Place)>, rank: Map<Entity, nat>, bound: nat) -> bool {
    &&& forall|x: Entity| #[trigger] rank.dom().contains(x)
    &&& forall|i: int|
        0 <= i < places.len() ==> rank[(#[trigger] places[i]).0] < bound && (places[i].1 matches Place::In(
            c,
        ) ==> rank[c] < rank[places[i].0])
}

/// Spatial index, used for efficiently finding locations of entities and
/// entities at locations.
pub struct Placement {
    places: AssocMap<Entity, Place>,
    entities: AssocMap<Place, Vec<Entity>>,
    rank: Ghost<Map<Entity, nat>>,
    bound: Ghost<nat>,
}

impl Placement {
    /// Where an entity is placed.
    pub closed spec fn spec_place(&self, e: Entity) -> Option<Place> {
        seq_get(self.places@, e)
    }

    /// Entities placed at a place, in the order they were placed there.
    pub closed spec fn bin(&self, p: Place) -> Seq<Entity> {
        match seq_get(self.entities@, p) {
            Some(v) => v@,
            None => Seq::empty(),
        }
    }

    /// Placed entities, in the order they were first placed.
    pub closed spec fn placed(&self) -> Seq<Entity> {
        self.places@.map_values(|e: (Entity, Place)| e.0)
    }

    /// Depth measure of an entity: containers rank below their contents.
    pub closed spec fn rank_of(&self, x: Entity) -> nat {
        self.rank@[x]
    }

    /// How far the rank of an entity is below the bound.
    pub closed spec fn room_above(&self, x: Entity) -> nat {
        if self.rank@[x] < self.bound@ {
            (self.bound@ - self.rank@[x]) as nat
        } else {
            0
        }
    }

    /// Entity `x` lies, directly or through containers, inside `c`.
    pub closed spec fn spec_within(&self, x: Entity, c: Entity) -> bool {
        within(self.places@, self.rank@, x, c)
    }

    /// Location of an entity, found through its containers.
    pub closed spec fn spec_pos(&self, x: Entity) -> Option<IVec3> {
        pos_of(self.places@, self.rank@, x)
    }

    /// The index agrees with the placements and no container holds itself.
    pub closed spec fn wf(&self) -> bool {
        &&& self.places.wf()
        &&& self.entities.wf()
        &&& ranked(self.places@, self.rank@, self.bound@)
        &&& forall|e: Entity, p: Place|
            #![trigger self.spec_place(e), self.bin(p)]
            self.spec_place(e) == Some(p) ==> self.bin(p).contains(e)
        &&& forall|p: Place, e: Entity|
            #![trigger self.bin(p).contains(e)]
            self.bin(p).contains(e) ==> self.spec_place(e) == Some(p)
        &&& forall|p: Place| #[trigger] self.bin(p).no_duplicates()
    }

    /// An empty index.
    pub fn new() -> (r: Placement)
        ensures
            r.wf(),
            forall|e: Entity| r.spec_place(e) is None,
    {
        Placement {
            places: AssocMap::new(),
            entities: AssocMap::new(),
            rank: Ghost(Map::new(|x: Entity| true, |x: Entity| 0nat)),
            bound: Ghost(0nat),
        }
    }

    /// Where an entity is placed, if anywhere.
    pub fn get(&self, e: &Entity) -> (r: Option<Place>)
        requires
            self.wf(),
        ensures
            r == self.spec_place(*e),
    {
        match self.places.get(e) {
            Some(p) => Some(*p),
            None => None,
        }
    }

    /// Entities at a place, in the order they were placed there.
    fn entities_of(&self, p: &Place) -> (r: Vec<Entity>)
        requires
            self.wf(),
        ensures
            r@ == self.bin(*p),
            r@.no_duplicates(),
            forall|x: Entity| r@.contains(x) <==> self.spec_place(x) == Some(*p),
    {
        let mut out: Vec<Entity> = Vec::new();
        match self.entities.get(p) {
            Some(v) => {
                let n = v.len();
                let mut i: usize = 0;
                while i < n
                    invariant
                        n == v@.len(),
                        i <= n,
                        out@ == v@.take(i as int),
                    decreases n - i,
                {
                    out.push(v[i]);
                    i += 1;
                    assert(out@ == v@.take(i as int));
                }
                assert(v@.take(n as int) == v@);
            },
            None => {},
        }
        proof {
            assert(self.bin(*p).no_duplicates());
            assert forall|x: Entity| out@.contains(x) <==> self.spec_place(x) == Some(*p) by {
                if self.spec_place(x) == Some(*p) {
                    assert(self.bin(*p).contains(x));
                }
            }
        }
        out
    }

    /// Entities at a location, in the order they were placed there.
    pub fn entities_at(&self, loc: &IVec3) -> (r: Vec<Entity>)
        requires
            self.wf(),
        ensures
            r@ == self.bin(Place::At(*loc)),
            r@.no_duplicates(),
            forall|x: Entity| r@.contains(x) <==> self.spec_place(x) == Some(Place::At(*loc)),
    {
        self.entities_of(&Place::At(*loc))
    }

    /// Entities directly inside a container, in the order they were put
    /// there.
    pub fn entities_in(&self, container: &Entity) -> (r: Vec<Entity>)
        requires
            self.wf(),
        ensures
            r@ == self.bin(Place::In(*container)),
            r@.no_duplicates(),
            forall|x: Entity| r@.contains(x) <==> self.spec_place(x) == Some(Place::In(*container)),
    {
        self.entities_of(&Place::In(*container))
    }

    /// Every placed entity, in the order they were first placed.
    pub fn all_entities(&self) -> (r: Vec<Entity>)
        requires
            self.wf(),
        ensures
            r@ == self.placed(),
            r@.no_duplicates(),
            forall|x: Entity| r@.contains(x) <==> self.spec_place(x) is Some,
    {
        let mut out: Vec<Entity> = Vec::new();
        let n = self.places.len();
        let mut i: usize = 0;
        while i < n
            invariant
                n == self.places@.len(),
                i <= n,
                out@ == self.placed().take(i as int),
            decreases n - i,
        {
            out.push(self.places.key_at(i));
            i += 1;
            assert(out@ == self.placed().take(i as int));
        }
        proof {
            assert(self.placed().take(n as int) == self.placed());
            assert(keys_distinct(self.places@));
            assert forall|a: int, b: int| 0 <= a < out@.len() && 0 <= b < out@.len() && a != b implies out@[a] != out@[b] by {
                if a < b {
                    assert(self.places@[a].0 != self.places@[b].0);
                } else {
                    assert(self.places@[b].0 != self.places@[a].0);
                }
            }
            assert forall|x: Entity| out@.contains(x) <==> self.spec_place(x) is Some by {
                if out@.contains(x) {
                    let k = choose|k: int| 0 <= k < out@.len() && out@[k] == x;
                    assert(self.places@[k].0 == x);
                    assert(seq_has_key(self.places@, x));
                }
                if self.spec_place(x) is Some {
                    let k = choose|k: int| 0 <= k < self.places@.len() && (#[trigger] self.places@[k]).0 == x;
                    assert(out@[k] == x);
                }
            }
        }
        out
    }

    /// Location of an entity, through the containers it is inside of.
    pub fn entity_pos(&self, e: &Entity) -> (r: Option<IVec3>)
        requires
            self.wf(),
        ensures
            r == self.spec_pos(*e),
        decreases self.rank_of(*e),
    {
        match self.places.get(e) {
            None => None,
            Some(Place::At(loc)) => Some(*loc),
            Some(Place::In(c)) => {
                proof {
                    let i = choose|i: int| 0 <= i < self.places@.len() && (#[trigger] self.places@[i]).0 == *e;
                    lemma_key_index(self.places@, i);
                }
                self.entity_pos(c)
            },
        }
    }

    /// The entities at a place, without `e`.
    fn bin_without(&self, p: &Place, e: &Entity) -> (r: Vec<Entity>)
        requires
            self.wf(),
        ensures
            r@ == seq_without(self.bin(*p), *e),
    {
        let mut out: Vec<Entity> = Vec::new();
        match self.entities.get(p) {
            Some(v) => {
                let n = v.len();
                let mut i: usize = 0;
                while i < n
                    invariant
                        n == v@.len(),
                        i <= n,
                        out@ == seq_without(v@.take(i as int), *e),
                    decreases n - i,
                {
                    let x = v[i];
                    assert(v@.take(i + 1).drop_last() == v@.take(i as int));
                    assert(v@.take(i + 1).last() == x);
                    if x.0 != e.0 {
                        out.push(x);
                    }
                    i += 1;
                }
                assert(v@.take(n as int) == v@);
            },
            None => {},
        }
        out
    }

    /// Take an entity out of the index, if it is placed.
    fn unplace(&mut self, e: &Entity)
        requires
            old(self).wf(),
        ensures
            final(self).wf(),
            forall|x: Entity|
                #[trigger] final(self).spec_place(x) == if x == *e {
                    None
                } else {
                    old(self).spec_place(x)
                },
            forall|p: Place| #[trigger] final(self).bin(p) == seq_without(old(self).bin(p), *e),
            final(self).rank@ == old(self).rank@,
            final(self).bound@ == old(self).bound@,
    {
        let found = self.get(e);
        match found {
            None => {
                proof {
                    assert forall|p: Place| #[trigger] self.bin(p) == seq_without(self.bin(p), *e) by {
                        lemma_without(self.bin(p), *e);
                        if self.bin(p).contains(*e) {
                            assert(self.spec_place(*e) == Some(p));
                        }
                    }
                }
            },
            Some(p) => {
                let ghost old_self = *self;
                let nb = self.bin_without(&p, e);
                proof {
                    assert(self.bin(p).contains(*e));
                    assert(seq_has_key(self.entities@, p));
                }
                self.places.shift_remove(e);
                self.entities.insert(p, nb);
                proof {
                    assert forall|x: Entity|
                        #[trigger] self.spec_place(x) == if x == *e {
                            None
                        } else {
                            old_self.spec_place(x)
                        } by {
                        lemma_remove_get(old_self.places@, *e, x);
                    }
                    assert forall|q: Place| #[trigger] self.bin(q) == seq_without(old_self.bin(q), *e) by {
                        lemma_insert_get(old_self.entities@, p, nb, q);
                        lemma_without(old_self.bin(q), *e);
                        if q != p && old_self.bin(q).contains(*e) {
                            assert(old_self.spec_place(*e) == Some(q));
                        }
                    }
                    lemma_remove_get(old_self.places@, *e, *e);
                    lemma_insert_get(old_self.entities@, p, nb, p);
                    let ps = old_self.places@;
                    let idx = crate::assoc::seq_key_index(ps, *e);
                    assert(self.places@ == ps.remove(idx));
                    assert forall|i: int| 0 <= i < self.places@.len() implies self.rank@[(#[trigger] self.places@[i]).0] < self.bound@ && (self.places@[i].1 matches Place::In(c) ==> self.rank@[c] < self.rank@[self.places@[i].0]) by {
                        if i < idx {
                            assert(self.places@[i] == ps[i]);
                        } else {
                            assert(self.places@[i] == ps[i + 1]);
                        }
                    }
                    assert forall|x: Entity, q: Place|
                        #![trigger self.spec_place(x), self.bin(q)]
                        self.spec_place(x) == Some(q) implies self.bin(q).contains(x) by {
                        lemma_without(old_self.bin(q), *e);
                        assert(old_self.spec_place(x) == Some(q));
                        assert(old_self.bin(q).contains(x));
                    }
                    assert forall|q: Place, x: Entity|
                        #![trigger self.bin(q).contains(x)]
                        self.bin(q).contains(x) implies self.spec_place(x) == Some(q) by {
                        lemma_without(old_self.bin(q), *e);
                        assert(old_self.bin(q).contains(x));
                    }
                    assert forall|q: Place| #[trigger] self.bin(q).no_duplicates() by {
                        lemma_without(old_self.bin(q), *e);
                        assert(old_self.bin(q).no_duplicates());
                    }
                }
            },
        }
    }

    /// Take an entity out of the index; entities inside it stay inside it.
    pub fn remove(&mut self, e: &Entity)
        requires
            old(self).wf(),
        ensures
            final(self).wf(),
            forall|x: Entity|
                #[trigger] final(self).spec_place(x) == if x == *e {
                    None
                } else {
                    old(self).spec_place(x)
                },
            forall|p: Place| #[trigger] final(self).bin(p) == seq_without(old(self).bin(p), *e),
    {
        self.unplace(e);
    }

    /// Place an entity, taking it first from wherever it was. Putting an
    /// entity inside itself, or inside something that it holds, would make
    /// a containment loop and is refused.
    pub fn insert(&mut self, place: Place, e: Entity)
        requires
            old(self).wf(),
            place matches Place::In(c) ==> c != e && !old(self).spec_within(c, e),
        ensures
            final(self).wf(),
            forall|x: Entity|
                #[trigger] final(self).spec_place(x) == if x == e {
                    Some(place)
                } else {
                    old(self).spec_place(x)
                },
            forall|q: Place|
                #[trigger] final(self).bin(q) == if q == place {
                    seq_without(old(self).bin(q), e).push(e)
                } else {
                    seq_without(old(self).bin(q), e)
                },
    {
        let ghost old_self = *self;
        self.unplace(&e);
        let ghost mid = *self;
        proof {
            assert forall|y: Entity| y != e implies #[trigger] seq_get(old_self.places@, y) == seq_get(
                mid.places@,
                y,
            ) by {
                assert(mid.spec_place(y) == old_self.spec_place(y));
            }
            if let Place::In(c) = place {
                lemma_within_other(old_self.places@, mid.places@, mid.rank@, c, e);
            }
        }
        let mut nb = self.entities_of(&place);
        nb.push(e);
        self.places.insert(e, place);
        self.entities.insert(place, nb);
        let ghost rank = mid.rank@;
        let ghost k: nat = match place {
            Place::In(c) => rank[c] + 1,
            Place::At(_) => 0,
        };
        let ghost r2 = Map::new(
            |x: Entity| true,
            |x: Entity|
                if x == e || within(mid.places@, rank, x, e) {
                    rank[x] + k
                } else {
                    rank[x]
                },
        );
        let ghost b2: nat = mid.bound@ + rank[e] + k + 1;
        self.rank = Ghost(r2);
        self.bound = Ghost(b2);
        proof {
            assert forall|x: Entity|
                #[trigger] self.spec_place(x) == if x == e {
                    Some(place)
                } else {
                    mid.spec_place(x)
                } by {
                lemma_insert_get(mid.places@, e, place, x);
            }
            assert(!mid.bin(place).contains(e)) by {
                if mid.bin(place).contains(e) {
                    assert(mid.spec_place(e) == Some(place));
                }
            }
            assert forall|q: Place|
                #[trigger] self.bin(q) == if q == place {
                    mid.bin(q).push(e)
                } else {
                    mid.bin(q)
                } by {
                lemma_insert_get(mid.entities@, place, nb, q);
            }
            // Every placed entity ranks below the bound and above its container.
            assert forall|i: int| 0 <= i < self.places@.len() implies self.rank@[(
            #[trigger] self.places@[i]).0] < self.bound@ && (self.places@[i].1 matches Place::In(
                c,
            ) ==> self.rank@[c] < self.rank@[self.places@[i].0]) by {
                lemma_key_index(self.places@, i);
                let x = self.places@[i].0;
                let q = self.places@[i].1;
                if x != e {
                    assert(mid.spec_place(x) == Some(q));
                    let j = crate::assoc::seq_key_index(mid.places@, x);
                    lemma_key_index(mid.places@, j);
                    assert(mid.places@[j] == (x, q));
                    assert(rank[x] < mid.bound@);
                    if let Place::In(y) = q {
                        assert(rank[y] < rank[x]);
                        if within(mid.places@, rank, x, e) {
                            assert(y == e || within(mid.places@, rank, y, e));
                        } else {
                            assert(y != e);
                            assert(!within(mid.places@, rank, y, e));
                        }
                    }
                } else {
                    assert(!within(mid.places@, rank, e, e)) by {
                        assert(mid.spec_place(e) is None);
                    }
                    if let Place::In(c) = place {
                        assert(!within(mid.places@, rank, c, e));
                    }
                }
            }
            lemma_without(mid.bin(place), e);
            assert forall|x: Entity, q: Place|
                #![trigger self.spec_place(x), self.bin(q)]
                self.spec_place(x) == Some(q) implies self.bin(q).contains(x) by {
                if x != e {
                    assert(mid.bin(q).contains(x));
                    if q == place {
                        let i = choose|i: int| 0 <= i < mid.bin(q).len() && mid.bin(q)[i] == x;
                        assert(mid.bin(q).push(e)[i] == x);
                    }
                } else {
                    assert(mid.bin(place).push(e)[mid.bin(place).len() as int] == e);
                }
            }
            assert forall|q: Place, x: Entity|
                #![trigger self.bin(q).contains(x)]
                self.bin(q).contains(x) implies self.spec_place(x) == Some(q) by {
                if q == place {
                    let i = choose|i: int| 0 <= i < mid.bin(q).push(e).len() && mid.bin(q).push(e)[i] == x;
                    if i < mid.bin(q).len() {
                        assert(mid.bin(q)[i] == x);
                        assert(mid.bin(q).contains(x));
                    }
                } else {
                    assert(mid.bin(q).contains(x));
                    if x == e {
                        assert(mid.spec_place(e) == Some(q));
                    }
                }
            }
            assert forall|q: Place| #[trigger] self.bin(q).no_duplicates() by {
                assert(mid.bin(q).no_duplicates());
                if q == place {
                    let u = mid.bin(q).push(e);
                    assert forall|i: int, j: int| 0 <= i < u.len() && 0 <= j < u.len() && i != j implies u[i] != u[j] by {
                        if i < mid.bin(q).len() && j < mid.bin(q).len() {
                            assert(u[i] == mid.bin(q)[i] && u[j] == mid.bin(q)[j]);
                        } else if i < mid.bin(q).len() {
                            assert(u[i] == mid.bin(q)[i]);
                            assert(mid.bin(q).contains(u[i]));
                        } else {
                            assert(u[j] == mid.bin(q)[j]);
                            assert(mid.bin(q).contains(u[j]));
                        }
                    }
                }
            }
        }
    }

    /// Whether `e` lies inside `container`, directly or inside something
    /// that lies inside it.
    pub fn contains(&self, container: &Entity, e: &Entity) -> (r: bool)
        requires
            self.wf(),
        ensures
            r == self.spec_within(*e, *container),
        decreases self.room_above(*container),
    {
        let inside = self.entities_in(container);
        let n = inside.len();
        let mut k: usize = 0;
        while k < n
            invariant
                self.wf(),
                n == inside@.len(),
                k <= n,
                forall|x: Entity| inside@.contains(x) <==> self.spec_place(x) == Some(Place::In(*container)),
                forall|j: int|
                    0 <= j < k ==> !(#[trigger] inside@[j] == *e || within(self.places@, self.rank@, *e, inside@[j])),
            decreases n - k,
        {
            let i = inside[k];
            proof {
                assert(inside@[k as int] == i);
                assert(inside@.contains(i));
                assert(self.spec_place(i) == Some(Place::In(*container)));
                assert(seq_get(self.places@, i) == Some(Place::In(*container)));
                lemma_parent_rank(self.places@, self.rank@, self.bound@, i);
                assert(self.room_above(i) < self.room_above(*container));
            }
            if i.0 == e.0 {
                proof {
                    lemma_within_step(self.places@, self.rank@, self.bound@, *e, i, *container);
                }
                return true;
            }
            if self.contains(&i, e) {
                proof {
                    lemma_within_step(self.places@, self.rank@, self.bound@, *e, i, *container);
                }
                return true;
            }
            k += 1;
        }
        proof {
            if within(self.places@, self.rank@, *e, *container) {
                let i = lemma_within_child(self.places@, self.rank@, self.bound@, *e, *container);
                assert(inside@.contains(i));
                let j = choose|j: int| 0 <= j < n && inside@[j] == i;
                assert(!(inside@[j] == *e || within(self.places@, self.rank@, *e, inside@[j])));
            }
        }
        false
    }
}

/// Whether `x` lies inside `e` does not depend on where `e` itself is.
proof fn lemma_within_other(
    p1: Seq<(Entity, Place)>,
    p2: Seq<(Entity, Place)>,
    rank: Map<Entity, nat>,
    x: Entity,
    e: Entity,
)
    requires
        x != e,
        forall|y: Entity| y != e ==> #[trigger] seq_get(p1, y) == seq_get(p2, y),
    ensures
        within(p1, rank, x, e) == within(p2, rank, x, e),
    decreases rank[x],
{
    assert(seq_get(p1, x) == seq_get(p2, x));
    if let Some(Place::In(y)) = seq_get(p1, x) {
        if rank[y] < rank[x] && y != e {
            lemma_within_other(p1, p2, rank, y, e);
        }
    }
}

/// A placed entity ranks below the bound and above its container.
proof fn lemma_parent_rank(places: Seq<(Entity, Place)>, rank: Map<Entity, nat>, bound: nat, x: Entity)
    requires
        keys_distinct(places),
        ranked(places, rank, bound),
    ensures
        seq_has_key(places, x) ==> rank[x] < bound,
        seq_get(places, x) matches Some(Place::In(c)) ==> rank[c] < rank[x],
{
    if seq_has_key(places, x) {
        let i = choose|i: int| 0 <= i < places.len() && (#[trigger] places[i]).0 == x;
        lemma_key_index(places, i);
    }
}

/// What lies in a direct content of `c`, or is one, lies in `c`.
proof fn lemma_within_step(
    places: Seq<(Entity, Place)>,
    rank: Map<Entity, nat>,
    bound: nat,
    x: Entity,
    i: Entity,
    c: Entity,
)
    requires
        keys_distinct(places),
        ranked(places, rank, bound),
        seq_get(places, i) == Some(Place::In(c)),
        x == i || within(places, rank, x, i),
    ensures
        within(places, rank, x, c),
    decreases rank[x],
{
    lemma_parent_rank(places, rank, bound, i);
    if x != i {
        lemma_parent_rank(places, rank, bound, x);
        if let Some(Place::In(y)) = seq_get(places, x) {
            if y != i {
                lemma_within_step(places, rank, bound, y, i, c);
            }
        }
    }
}

/// What lies in `c` is, or lies in, one of the direct contents of `c`.
proof fn lemma_within_child(
    places: Seq<(Entity, Place)>,
    rank: Map<Entity, nat>,
    bound: nat,
    x: Entity,
    c: Entity,
) -> (i: Entity)
    requires
        keys_distinct(places),
        ranked(places, rank, bound),
        within(places, rank, x, c),
    ensures
        seq_get(places, i) == Some(Place::In(c)),
        x == i || within(places, rank, x, i),
    decreases rank[x],
{
    if let Some(Place::In(y)) = seq_get(places, x) {
        if y == c {
            x
        } else {
            let i = lemma_within_child(places, rank, bound, y, c);
            i
        }
    } else {
        x
    }
}

/// Containers rank strictly below everything inside them.
proof fn lemma_within_rank(
    places: Seq<(Entity, Place)>,
    rank: Map<Entity, nat>,
    x: Entity,
    c: Entity,
)
    requires
        within(places, rank, x, c),
    ensures
        rank[c] < rank[x],
    decreases rank[x],
{
    if let Some(Place::In(y)) = seq_get(places, x) {
        if y != c {
            lemma_within_rank(places, rank, y, c);
        }
    }
}

/// Containment has no loops: nothing lies inside itself.
pub proof fn lemma_no_containment_loop(pl: &Placement, e: Entity)
    requires
        pl.wf(),
    ensures
        !pl.spec_within(e, e),
{
    if within(pl.places@, pl.rank@, e, e) {
        lemma_within_rank(pl.places@, pl.rank@, e, e);
    }
}

/// Containment is transitive: what lies in `y`, which lies in `z`, lies in
/// `z`.
pub proof fn lemma_within_transitive(pl: &Placement, x: Entity, y: Entity, z: Entity)
    requires
        pl.wf(),
        pl.spec_within(x, y),
        pl.spec_within(y, z),
    ensures
        pl.spec_within(x, z),
    decreases pl.rank_of(x),
{
    let places = pl.places@;
    let rank = pl.rank@;
    lemma_parent_rank(places, rank, pl.bound@, x);
    if let Some(Place::In(p)) = seq_get(places, x) {
        if p == y {
            assert(within(places, rank, y, z));
        } else {
            lemma_within_transitive(pl, p, y, z);
        }
    }
}

/// An entity is where its place says: at a location, or wherever its
/// container is; an entity that is not placed is nowhere.
pub proof fn lemma_pos_of_place(pl: &Placement, e: Entity)
    requires
        pl.wf(),
    ensures
        pl.spec_place(e) is None ==> pl.spec_pos(e) is None,
        pl.spec_place(e) matches Some(Place::At(l)) ==> pl.spec_pos(e) == Some(l),
        pl.spec_place(e) matches Some(Place::In(c)) ==> pl.spec_pos(e) == pl.spec_pos(c),
{
    lemma_parent_rank(pl.places@, pl.rank@, pl.bound@, e);
}

/// An entity is inside a container exactly when its place is in that
/// container or inside something placed in it.
pub proof fn lemma_within_place(pl: &Placement, x: Entity, c: Entity)
    requires
        pl.wf(),
    ensures
        pl.spec_within(x, c) <==> (pl.spec_place(x) matches Some(Place::In(y)) && (y == c
            || pl.spec_within(y, c))),
{
    lemma_parent_rank(pl.places@, pl.rank@, pl.bound@, x);
}

} // verus!
