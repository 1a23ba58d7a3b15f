//! Insertion-ordered maps with unique keys.

use vstd::prelude::*;

use crate::geom::{IVec2, IVec3};

verus! {

/// Keys whose executable comparison agrees with mathematical equality.
pub trait KeyEq: Copy {
    fn key_eq(&self, other: &Self) -> (r: bool)
        ensures
            r == (*self == *other),
    ;
}

impl KeyEq for IVec2 {
    fn key_eq(&self, other: &Self) -> (r: bool) {
        self.x == other.x && self.y == other.y
    }
}

impl KeyEq for IVec3 {
    fn key_eq(&self, other: &Self) -> (r: bool) {
        self.x == other.x && self.y == other.y && self.z == other.z
    }
}

impl KeyEq for char {
    fn key_eq(&self, other: &Self) -> (r: bool) {
        *self == *other
    }
}

impl KeyEq for u64 {
    fn key_eq(&self, other: &Self) -> (r: bool) {
        *self == *other
    }
}

/// Whether a key occurs in a sequence of entries.
pub open spec fn seq_has_key<K, T>(s: Seq<(K, T)>, k: K) -> bool {
    exists|i: int| 0 <= i < s.len() && (#[trigger] s[i]).0 == k
}

/// Position of a key in a sequence of entries.
pub open spec fn seq_key_index<K, T>(s: Seq<(K, T)>, k: K) -> int {
    choose|i: int| 0 <= i < s.len() && (#[trigger] s[i]).0 == k
}

/// Value stored for a key.
pub open spec fn seq_get<K, T>(s: Seq<(K, T)>, k: K) -> Option<T> {
    if seq_has_key(s, k) {
        Some(s[seq_key_index(s, k)].1)
    } else {
        None
    }
}

/// No key occurs twice.
pub open spec fn keys_distinct<K, T>(s: Seq<(K, T)>) -> bool {
    forall|i: int, j: int| 0 <= i < j < s.len() ==> (#[trigger] s[i]).0 != (#[trigger] s[j]).0
}

/// Entries after inserting: a present key keeps its position and gets the
/// new value, a new key goes last.
pub open spec fn seq_insert<K, T>(s: Seq<(K, T)>, k: K, v: T) -> Seq<(K, T)> {
    if seq_has_key(s, k) {
        s.update(seq_key_index(s, k), (k, v))
    } else {
        s.push((k, v))
    }
}

/// Entries after removing a key, the others keep their order.
pub open spec fn seq_remove_key<K, T>(s: Seq<(K, T)>, k: K) -> Seq<(K, T)> {
    if seq_has_key(s, k) {
        s.remove(seq_key_index(s, k))
    } else {
        s
    }
}

/// The key of a present entry is found at its own position.
pub proof fn lemma_key_index<K, T>(s: Seq<(K, T)>, i: int)
    requires
        keys_distinct(s),
        0 <= i < s.len(),
    ensures
        seq_has_key(s, s[i].0),
        seq_key_index(s, s[i].0) == i,
        seq_get(s, s[i].0) == Some(s[i].1),
{
    let k = s[i].0;
    assert(seq_has_key(s, k));
    let j = seq_key_index(s, k);
    if j != i {
        if j < i {
            assert(s[j].0 != s[i].0);
        } else {
            assert(s[i].0 != s[j].0);
        }
    }
}

/// Looking a key up after an insertion.
pub proof fn lemma_insert_get<K, T>(s: Seq<(K, T)>, k: K, v: T, q: K)
    requires
        keys_distinct(s),
    ensures
        keys_distinct(seq_insert(s, k, v)),
        seq_get(seq_insert(s, k, v), q) == if q == k {
            Some(v)
        } else {
            seq_get(s, q)
        },
        seq_has_key(seq_insert(s, k, v), q) == (q == k || seq_has_key(s, q)),
{
    let t = seq_insert(s, k, v);
    if seq_has_key(s, k) {
        let idx = seq_key_index(s, k);
        assert forall|i: int, j: int| 0 <= i < j < t.len() implies (#[trigger] t[i]).0
            != (#[trigger] t[j]).0 by {
            assert(s[i].0 != s[j].0);
        }
    } else {
        assert forall|i: int, j: int| 0 <= i < j < t.len() implies (#[trigger] t[i]).0
            != (#[trigger] t[j]).0 by {
            if j == s.len() {
                assert(s[i].0 != k);
            } else {
                assert(s[i].0 != s[j].0);
            }
        }
    }
    if seq_has_key(t, q) {
        let i = seq_key_index(t, q);
        lemma_key_index(t, i);
        if q != k {
            if seq_has_key(s, k) {
                assert(s[i].0 == q);
            } else {
                assert(i < s.len());
                assert(s[i].0 == q);
            }
            lemma_key_index(s, i);
        }
    } else {
        if q == k {
            if seq_has_key(s, k) {
                assert(t[seq_key_index(s, k)].0 == k);
            } else {
                assert(t[s.len() as int].0 == k);
            }
        }
        if seq_has_key(s, q) {
            let i = seq_key_index(s, q);
            assert(t[i].0 == q);
        }
    }
}

/// Looking a key up after a removal.
pub proof fn lemma_remove_get<K, T>(s: Seq<(K, T)>, k: K, q: K)
    requires
        keys_distinct(s),
    ensures
        keys_distinct(seq_remove_key(s, k)),
        seq_get(seq_remove_key(s, k), q) == if q == k {
            None
        } else {
            seq_get(s, q)
        },
{
    let t = seq_remove_key(s, k);
    if seq_has_key(s, k) {
        let idx = seq_key_index(s, k);
        assert forall|i: int, j: int| 0 <= i < j < t.len() implies (#[trigger] t[i]).0
            != (#[trigger] t[j]).0 by {
            let si = if i < idx {
                i
            } else {
                i + 1
            };
            let sj = if j < idx {
                j
            } else {
                j + 1
            };
            assert(s[si].0 != s[sj].0);
        }
        if seq_has_key(t, q) {
            let i = seq_key_index(t, q);
            let si = if i < idx {
                i
            } else {
                i + 1
            };
            assert(s[si].0 == q);
            lemma_key_index(s, si);
            lemma_key_index(t, i);
            if q == k {
                assert(si != idx);
                assert(s[idx].0 == k);
                if si < idx {
                    assert(s[si].0 != s[idx].0);
                } else {
                    assert(s[idx].0 != s[si].0);
                }
            }
        } else {
            if q != k && seq_has_key(s, q) {
                let i = seq_key_index(s, q);
                assert(i != idx);
                let ti = if i < idx {
                    i
                } else {
                    i - 1
                };
                assert(t[ti].0 == q);
            }
        }
    }
}

/// An insertion-ordered map with unique keys.
#[derive(Debug)]
pub struct AssocMap<K, T> {
    entries: Vec<(K, T)>,
}

impl<K, T> View for AssocMap<K, T> {
    type V = Seq<(K, T)>;

    closed spec fn view(&self) -> Seq<(K, T)> {
        self.entries@
    }
}

impl<K: KeyEq, T> AssocMap<K, T> {
    /// Keys are unique.
    pub open spec fn wf(&self) -> bool {
        keys_distinct(self@)
    }

    pub open spec fn spec_get(&self, k: K) -> Option<T> {
        seq_get(self@, k)
    }

    pub open spec fn spec_has(&self, k: K) -> bool {
        seq_has_key(self@, k)
    }

    pub fn new() -> (r: Self)
        ensures
            r@ == Seq::<(K, T)>::empty(),
            r.wf(),
    {
        AssocMap { entries: Vec::new() }
    }

    pub fn len(&self) -> (r: usize)
        ensures
            r == self@.len(),
    {
        self.entries.len()
    }

    /// Position of a key, if present.
    pub fn find(&self, k: &K) -> (r: Option<usize>)
        requires
            self.wf(),
        ensures
            r is None <==> !self.spec_has(*k),
            r matches Some(i) ==> i < self@.len() && self@[i as int].0 == *k && i
                == seq_key_index(self@, *k),
    {
        let n = self.entries.len();
        let mut i: usize = 0;
        while i < n
            invariant
                n == self@.len(),
                self@ == self.entries@,
                keys_distinct(self@),
                i <= n,
                forall|j: int| 0 <= j < i ==> (#[trigger] self@[j]).0 != *k,
            decreases n - i,
        {
            if self.entries[i].0.key_eq(k) {
                proof {
                    lemma_key_index(self@, i as int);
                }
                return Some(i);
            }
            i += 1;
        }
        None
    }

    pub fn contains_key(&self, k: &K) -> (r: bool)
        requires
            self.wf(),
        ensures
            r == self.spec_has(*k),
    {
        self.find(k).is_some()
    }

    pub fn get(&self, k: &K) -> (r: Option<&T>)
        requires
            self.wf(),
        ensures
            match r {
                Some(v) => self.spec_get(*k) == Some(*v),
                None => self.spec_get(*k) is None,
            },
    {
        match self.find(k) {
            Some(i) => Some(&self.entries[i].1),
            None => None,
        }
    }

    /// A map over the given entries, in order.
    pub fn from_entries(entries: Vec<(K, T)>) -> (r: Self)
        ensures
            r@ == entries@,
    {
        AssocMap { entries }
    }

    /// The entries, in order.
    pub fn into_entries(self) -> (r: Vec<(K, T)>)
        ensures
            r@ == self@,
    {
        self.entries
    }

    pub fn key_at(&self, i: usize) -> (r: K)
        requires
            i < self@.len(),
        ensures
            r == self@[i as int].0,
    {
        self.entries[i].0
    }

    pub fn value_at(&self, i: usize) -> (r: &T)
        requires
            i < self@.len(),
        ensures
            *r == self@[i as int].1,
    {
        &self.entries[i].1
    }

    /// Insert a value, keeping the position of an existing key.
    pub fn insert(&mut self, k: K, v: T)
        requires
            old(self).wf(),
        ensures
            final(self)@ == seq_insert(old(self)@, k, v),
            final(self).wf(),
    {
        proof {
            lemma_insert_get(self@, k, v, k);
        }
        match self.find(&k) {
            Some(i) => {
                self.entries.set(i, (k, v));
            },
            None => {
                self.entries.push((k, v));
            },
        }
    }

    /// Remove a key, keeping the order of the other entries.
    pub fn shift_remove(&mut self, k: &K)
        requires
            old(self).wf(),
        ensures
            final(self)@ == seq_remove_key(old(self)@, *k),
            final(self).wf(),
    {
        proof {
            lemma_remove_get(self@, *k, *k);
        }
        match self.find(k) {
            Some(i) => {
                self.entries.remove(i);
            },
            None => {},
        }
    }
}

impl<K: KeyEq, T: Copy> AssocMap<K, T> {
    /// Copy of a map with plain values.
    pub fn copy_map(&self) -> (r: Self)
        ensures
            r@ == self@,
    {
        let mut entries: Vec<(K, T)> = Vec::new();
        let n = self.entries.len();
        let mut i: usize = 0;
        while i < n
            invariant
                n == self@.len(),
                self@ == self.entries@,
                i <= n,
                entries@ == self@.take(i as int),
            decreases n - i,
        {
            let e = self.entries[i];
            entries.push(e);
            assert(entries@ == self@.take(i + 1));
            i += 1;
        }
        assert(self@.take(n as int) == self@);
        AssocMap { entries }
    }
}

impl<K: KeyEq> AssocMap<K, String> {
    /// Copy of a map with string values.
    pub fn clone_strings(&self) -> (r: Self)
        ensures
            r@ == self@,
    {
        let mut entries: Vec<(K, String)> = Vec::new();
        let n = self.entries.len();
        let mut i: usize = 0;
        while i < n
            invariant
                n == self@.len(),
                self@ == self.entries@,
                i <= n,
                entries@ == self@.take(i as int),
            decreases n - i,
        {
            let e = &self.entries[i];
            entries.push((e.0, e.1.clone()));
            assert(entries@ == self@.take(i + 1));
            i += 1;
        }
        assert(self@.take(n as int) == self@);
        AssocMap { entries }
    }
}

} // verus!
