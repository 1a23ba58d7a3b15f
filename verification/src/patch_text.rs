//! Writing flat patches out as text maps with a legend.

use vstd::prelude::*;

use crate::assoc::{AssocMap, keys_distinct, lemma_key_index, seq_get, seq_has_key, seq_key_index};
use crate::geom::{IVec2, Rect, ivec2, spec_ivec2};
use crate::map_tile::MapTile;
use crate::patch::{FlatPatch, PatchData, Spawn, spawn_names};
use crate::text::{
    chars_of,
    is_alphabetic,
    is_whitespace,
    spec_is_alphabetic,
    spec_is_whitespace,
    string_of,
};

verus! {

/// Letters available for spawn legends, handed out from the back of the
/// sequence.
pub open spec fn spec_legend_pool() -> Seq<char> {
    seq!['\u{dc}','\u{df}','\u{db}','\u{d8}','\u{d6}','\u{d1}','\u{d0}','\u{cf}','\u{d4}','\u{ce}','\u{cb}','\u{c7}','\u{c6}','\u{c5}','\u{cd}','\u{c4}','\u{d3}','\u{c9}','\u{c3}','\u{da}','\u{cc}','\u{c2}','\u{de}','\u{dd}','\u{d5}','\u{ca}','\u{c1}','\u{d9}','\u{d2}','\u{c8}','\u{c0}','\u{ff}','\u{fc}','\u{f8}','\u{f6}','\u{fb}','\u{f4}','\u{f1}','\u{f0}','\u{ef}','\u{eb}','\u{f3}','\u{e9}','\u{e7}','\u{e6}','\u{e5}','\u{ee}','\u{e4}','\u{ed}','\u{e3}','\u{fa}','\u{ec}','\u{e2}','\u{fe}','\u{fd}','\u{f5}','\u{ea}','\u{e1}','\u{f9}','\u{f2}','\u{e8}','\u{e0}','\u{42f}','\u{42e}','\u{42d}','\u{42a}','\u{429}','\u{428}','\u{40f}','\u{427}','\u{426}','\u{424}','\u{40e}','\u{41f}','\u{40a}','\u{409}','\u{41b}','\u{419}','\u{417}','\u{416}','\u{404}','\u{403}','\u{402}','\u{414}','\u{490}','\u{413}','\u{411}','\u{3a9}','\u{3a8}','\u{3a6}','\u{3a3}','\u{3a0}','\u{39e}','\u{39b}','\u{394}','\u{393}','\u{3c9}','\u{3c8}','\u{3c7}','\u{3c6}','\u{3c4}','\u{3c3}','\u{3c1}','\u{3c0}','\u{3be}','\u{3bc}','\u{3bb}','\u{3ba}','\u{3b9}','\u{3b8}','\u{3b7}','\u{3b6}','\u{3b5}','\u{3b4}','\u{3b3}','\u{3b2}','\u{3b1}','z','y','x','w','v','u','t','s','r','q','p','o','n','m','l','k','j','i','h','g','f','e','d','c','b','a','Z','Y','X','W','V','U','T','S','R','Q','P','O','N','M','L','K','J','I','H','G','F','E','D','C','B','A']
}

/// Letters available for spawn legends.
pub(crate) fn legend_pool() -> (r: Vec<char>)
    ensures
        r@ == spec_legend_pool(),
        r@.no_duplicates(),
{
    let v = vec!['\u{dc}','\u{df}','\u{db}','\u{d8}','\u{d6}','\u{d1}','\u{d0}','\u{cf}','\u{d4}','\u{ce}','\u{cb}','\u{c7}','\u{c6}','\u{c5}','\u{cd}','\u{c4}','\u{d3}','\u{c9}','\u{c3}','\u{da}','\u{cc}','\u{c2}','\u{de}','\u{dd}','\u{d5}','\u{ca}','\u{c1}','\u{d9}','\u{d2}','\u{c8}','\u{c0}','\u{ff}','\u{fc}','\u{f8}','\u{f6}','\u{fb}','\u{f4}','\u{f1}','\u{f0}','\u{ef}','\u{eb}','\u{f3}','\u{e9}','\u{e7}','\u{e6}','\u{e5}','\u{ee}','\u{e4}','\u{ed}','\u{e3}','\u{fa}','\u{ec}','\u{e2}','\u{fe}','\u{fd}','\u{f5}','\u{ea}','\u{e1}','\u{f9}','\u{f2}','\u{e8}','\u{e0}','\u{42f}','\u{42e}','\u{42d}','\u{42a}','\u{429}','\u{428}','\u{40f}','\u{427}','\u{426}','\u{424}','\u{40e}','\u{41f}','\u{40a}','\u{409}','\u{41b}','\u{419}','\u{417}','\u{416}','\u{404}','\u{403}','\u{402}','\u{414}','\u{490}','\u{413}','\u{411}','\u{3a9}','\u{3a8}','\u{3a6}','\u{3a3}','\u{3a0}','\u{39e}','\u{39b}','\u{394}','\u{393}','\u{3c9}','\u{3c8}','\u{3c7}','\u{3c6}','\u{3c4}','\u{3c3}','\u{3c1}','\u{3c0}','\u{3be}','\u{3bc}','\u{3bb}','\u{3ba}','\u{3b9}','\u{3b8}','\u{3b7}','\u{3b6}','\u{3b5}','\u{3b4}','\u{3b3}','\u{3b2}','\u{3b1}','z','y','x','w','v','u','t','s','r','q','p','o','n','m','l','k','j','i','h','g','f','e','d','c','b','a','Z','Y','X','W','V','U','T','S','R','Q','P','O','N','M','L','K','J','I','H','G','F','E','D','C','B','A'];
    assert(v@ =~= spec_legend_pool());
    v
}

/// Spawn names with their legend letters.
pub type Lettering = Seq<(Seq<char>, char)>;

pub open spec fn lettering_has(l: Lettering, name: Seq<char>) -> bool {
    exists|i: int| 0 <= i < l.len() && (#[trigger] l[i]).0 == name
}

/// Letter assigned to a spawn name.
pub open spec fn letter_of(l: Lettering, name: Seq<char>) -> char {
    l[choose|i: int| 0 <= i < l.len() && (#[trigger] l[i]).0 == name].1
}

/// Names and letters each occur once.
pub open spec fn lettering_wf(l: Lettering) -> bool {
    forall|i: int, j: int|
        0 <= i < j < l.len() ==> (#[trigger] l[i]).0 != (#[trigger] l[j]).0 && l[i].1 != l[j].1
}

/// Character shown for a map cell, if it has content.
pub open spec fn cell_char(
    t: Seq<(IVec2, MapTile)>,
    sp: Seq<(IVec2, Seq<char>)>,
    e: Option<IVec2>,
    l: Lettering,
    q: IVec2,
) -> Option<char> {
    if e == Some(q) {
        Some('@')
    } else if seq_has_key(sp, q) {
        Some(letter_of(l, seq_get(sp, q).unwrap()))
    } else {
        match seq_get(t, q) {
            Some(m) => Some(m.spec_char()),
            None => None,
        }
    }
}

/// Whether any of the first `k` cells of row `y` from column `x0` has
/// content.
pub open spec fn row_has_content(
    t: Seq<(IVec2, MapTile)>,
    sp: Seq<(IVec2, Seq<char>)>,
    e: Option<IVec2>,
    l: Lettering,
    y: int,
    x0: int,
    k: int,
) -> bool
    decreases k,
{
    if k <= 0 {
        false
    } else {
        row_has_content(t, sp, e, l, y, x0, k - 1) || cell_char(
            t,
            sp,
            e,
            l,
            spec_ivec2(x0 + k - 1, y),
        ) is Some
    }
}

/// Characters of the first `k` cells of row `y` from column `x0`: cell
/// content, no-break spaces before the first content and plain spaces after
/// it.
pub open spec fn row_chars(
    t: Seq<(IVec2, MapTile)>,
    sp: Seq<(IVec2, Seq<char>)>,
    e: Option<IVec2>,
    l: Lettering,
    y: int,
    x0: int,
    k: int,
) -> Seq<char>
    decreases k,
{
    if k <= 0 {
        Seq::empty()
    } else {
        let prev = row_chars(t, sp, e, l, y, x0, k - 1);
        match cell_char(t, sp, e, l, spec_ivec2(x0 + k - 1, y)) {
            Some(c) => prev.push(c),
            None => prev.push(
                if row_has_content(t, sp, e, l, y, x0, k - 1) {
                    ' '
                } else {
                    '\u{a0}'
                },
            ),
        }
    }
}

/// Text without its trailing whitespace.
pub open spec fn trim_end(s: Seq<char>) -> Seq<char>
    decreases s.len(),
{
    if s.len() > 0 && spec_is_whitespace(s.last()) {
        trim_end(s.drop_last())
    } else {
        s
    }
}

/// Map text after writing the first `k` of `h` rows of the rectangle `b`:
/// each row is appended, the whole text is stripped of trailing
/// whitespace, and a line break follows every row but the last.
pub open spec fn map_text(
    t: Seq<(IVec2, MapTile)>,
    sp: Seq<(IVec2, Seq<char>)>,
    e: Option<IVec2>,
    l: Lettering,
    b: Rect,
    k: int,
) -> Seq<char>
    decreases k,
{
    if k <= 0 {
        Seq::empty()
    } else {
        let s = trim_end(
            map_text(t, sp, e, l, b, k - 1) + row_chars(
                t,
                sp,
                e,
                l,
                b.min.y + k - 1,
                b.min.x as int,
                b.max.x - b.min.x,
            ),
        );
        if k < b.max.y - b.min.y {
            s.push('\n')
        } else {
            s
        }
    }
}

/// Smallest rectangle that contains a point and a rectangle.
pub open spec fn grow_to_contain(r: Rect, p: IVec2) -> Rect {
    Rect {
        min: spec_ivec2(
            if p.x < r.min.x {
                p.x as int
            } else {
                r.min.x as int
            },
            if p.y < r.min.y {
                p.y as int
            } else {
                r.min.y as int
            },
        ),
        max: spec_ivec2(
            if p.x + 1 > r.max.x {
                p.x + 1
            } else {
                r.max.x as int
            },
            if p.y + 1 > r.max.y {
                p.y + 1
            } else {
                r.max.y as int
            },
        ),
    }
}

/// Bounding rectangle of points, including the points on its far edges;
/// the empty rectangle at origin for no points.
pub open spec fn points_bounds(pts: Seq<IVec2>) -> Rect
    decreases pts.len(),
{
    if pts.len() == 0 {
        Rect { min: spec_ivec2(0, 0), max: spec_ivec2(0, 0) }
    } else if pts.len() == 1 {
        Rect { min: pts[0], max: spec_ivec2(pts[0].x + 1, pts[0].y + 1) }
    } else {
        grow_to_contain(points_bounds(pts.drop_last()), pts.last())
    }
}

/// Points can be enclosed in a rectangle within the `i32` range.
pub open spec fn points_boundable(pts: Seq<IVec2>) -> bool {
    forall|i: int| 0 <= i < pts.len() ==> (#[trigger] pts[i]).x < i32::MAX && pts[i].y < i32::MAX
}

/// Rectangle that holds all the given points.
pub fn from_points_inclusive(pts: &Vec<IVec2>) -> (r: Rect)
    requires
        points_boundable(pts@),
    ensures
        r == points_bounds(pts@),
{
    let n = pts.len();
    if n == 0 {
        return Rect { min: ivec2(0, 0), max: ivec2(0, 0) };
    }
    let p0 = pts[0];
    let mut r = Rect { min: p0, max: ivec2(p0.x + 1, p0.y + 1) };
    let mut i: usize = 1;
    assert(pts@.take(1) =~= seq![pts@[0]]);
    while i < n
        invariant
            n == pts@.len(),
            1 <= i <= n,
            points_boundable(pts@),
            r == points_bounds(pts@.take(i as int)),
        decreases n - i,
    {
        let p = pts[i];
        assert(pts@.take(i + 1).drop_last() =~= pts@.take(i as int));
        r = Rect {
            min: ivec2(
                if p.x < r.min.x {
                    p.x
                } else {
                    r.min.x
                },
                if p.y < r.min.y {
                    p.y
                } else {
                    r.min.y
                },
            ),
            max: ivec2(
                if p.x + 1 > r.max.x {
                    p.x + 1
                } else {
                    r.max.x
                },
                if p.y + 1 > r.max.y {
                    p.y + 1
                } else {
                    r.max.y
                },
            ),
        };
        i += 1;
    }
    assert(pts@.take(n as int) =~= pts@);
    r
}


/// Names of the spawns of a patch.
pub open spec fn spawn_name_seq(sp: Seq<(IVec2, Spawn)>) -> Seq<Seq<char>> {
    sp.map_values(|e: (IVec2, Spawn)| e.1@)
}

/// Set of distinct spawn names of a patch.
pub open spec fn spawn_name_set(sp: Seq<(IVec2, Spawn)>) -> Set<Seq<char>> {
    spawn_name_seq(sp).to_set()
}

/// Lettering of a list of spawns with their letters.
pub open spec fn lview(v: Seq<(Spawn, char)>) -> Lettering {
    v.map_values(|e: (Spawn, char)| (e.0@, e.1))
}

/// Lettering held by a legend of letters and spawns.
pub open spec fn legend_lettering(v: Seq<(char, Spawn)>) -> Lettering {
    v.map_values(|e: (char, Spawn)| (e.1@, e.0))
}

/// First alphabetic character of a name from index `i` on, `'A'` if none.
pub open spec fn first_alpha(s: Seq<char>, i: int) -> char
    decreases s.len() - i,
{
    if i >= s.len() || i < 0 {
        'A'
    } else if spec_is_alphabetic(s[i]) {
        s[i]
    } else {
        first_alpha(s, i + 1)
    }
}

/// Lettering made so far and the letters still free.
pub type LetterState = (Lettering, Seq<char>);

/// Give `name` a letter unless it has one: its first alphabetic character
/// while that is free, taken out of the free letters by moving the last one
/// into its place; otherwise the last free letter.
pub open spec fn letter_step(st: LetterState, name: Seq<char>) -> LetterState {
    let l = st.0;
    let pool = st.1;
    if lettering_has(l, name) {
        st
    } else {
        let c0 = first_alpha(name, 0);
        if pool.contains(c0) {
            let k = choose|k: int| 0 <= k < pool.len() && pool[k] == c0;
            (l.push((name, c0)), pool.update(k, pool.last()).drop_last())
        } else {
            (l.push((name, pool.last())), pool.drop_last())
        }
    }
}

/// Letter the spawn at `q`, if it needs one.
pub open spec fn cell_letters(
    sp: Seq<(IVec2, Seq<char>)>,
    b: Rect,
    e: Option<IVec2>,
    q: IVec2,
    st: LetterState,
) -> LetterState {
    if needs_letter(b, e, q) && seq_has_key(sp, q) {
        letter_step(st, seq_get(sp, q).unwrap())
    } else {
        st
    }
}

/// Letters after scanning the cells of row `y` of `b` up to column `x`.
pub open spec fn row_letters(
    sp: Seq<(IVec2, Seq<char>)>,
    b: Rect,
    e: Option<IVec2>,
    y: int,
    x: int,
    st: LetterState,
) -> LetterState
    decreases x - b.min.x,
{
    if x <= b.min.x {
        st
    } else {
        cell_letters(sp, b, e, spec_ivec2(x - 1, y), row_letters(sp, b, e, y, x - 1, st))
    }
}

/// Letters after scanning the rows of `b` up to row `y`, starting from
/// `st`.
pub open spec fn rect_letters(
    sp: Seq<(IVec2, Seq<char>)>,
    b: Rect,
    e: Option<IVec2>,
    y: int,
    st: LetterState,
) -> LetterState
    decreases y - b.min.y,
{
    if y <= b.min.y {
        st
    } else {
        row_letters(sp, b, e, y - 1, b.max.x as int, rect_letters(sp, b, e, y - 1, st))
    }
}

/// The lettering that scanning the whole rectangle makes, starting from no
/// letters and the full pool.
pub open spec fn spec_letters(sp: Seq<(IVec2, Seq<char>)>, b: Rect, e: Option<IVec2>) -> Lettering {
    rect_letters(sp, b, e, b.max.y as int, (Seq::empty(), spec_legend_pool())).0
}

/// Number of legend letters.
pub open spec fn pool_size() -> nat {
    spec_legend_pool().len()
}

/// Points of a patch that its text map must cover: terrain, spawns and
/// entrance.
pub open spec fn patch_points(
    t: Seq<(IVec2, MapTile)>,
    sp: Seq<(IVec2, Spawn)>,
    e: Option<IVec2>,
) -> Seq<IVec2> {
    t.map_values(|a: (IVec2, MapTile)| a.0) + sp.map_values(|a: (IVec2, Spawn)| a.0) + match e {
        Some(p) => seq![p],
        None => Seq::empty(),
    }
}

/// A spawn cell that needs a legend letter: inside the bounds and not
/// covered by the entrance.
pub open spec fn needs_letter(b: Rect, e: Option<IVec2>, q: IVec2) -> bool {
    b.spec_contains(q) && e != Some(q)
}

proof fn lemma_points_bounds(pts: Seq<IVec2>)
    requires
        points_boundable(pts),
    ensures
        pts.len() == 0 ==> points_bounds(pts).min == spec_ivec2(0, 0) && points_bounds(pts).max
            == spec_ivec2(0, 0),
        pts.len() > 0 ==> points_bounds(pts).min.x < points_bounds(pts).max.x
            && points_bounds(pts).min.y < points_bounds(pts).max.y,
        forall|i: int| 0 <= i < pts.len() ==> points_bounds(pts).spec_contains(#[trigger] pts[i]),
    decreases pts.len(),
{
    if pts.len() > 1 {
        let u = pts.drop_last();
        assert forall|i: int| 0 <= i < u.len() implies (#[trigger] u[i]).x < i32::MAX && u[i].y
            < i32::MAX by {
            assert(u[i] == pts[i]);
        }
        lemma_points_bounds(u);
        assert forall|i: int| 0 <= i < pts.len() implies points_bounds(pts).spec_contains(
            #[trigger] pts[i],
        ) by {
            if i < u.len() {
                assert(u[i] == pts[i]);
            }
        }
    }
}

/// The bounding box of points lies inside any box that holds all of them.
pub proof fn lemma_points_bounds_within(pts: Seq<IVec2>, lo: IVec2, hi: IVec2)
    requires
        pts.len() > 0,
        forall|i: int|
            0 <= i < pts.len() ==> lo.x <= (#[trigger] pts[i]).x < hi.x && lo.y <= pts[i].y
                < hi.y,
    ensures
        lo.x <= points_bounds(pts).min.x,
        lo.y <= points_bounds(pts).min.y,
        points_bounds(pts).max.x <= hi.x,
        points_bounds(pts).max.y <= hi.y,
    decreases pts.len(),
{
    if pts.len() > 1 {
        let u = pts.drop_last();
        assert forall|i: int| 0 <= i < u.len() implies lo.x <= (#[trigger] u[i]).x < hi.x && lo.y
            <= u[i].y < hi.y by {
            assert(u[i] == pts[i]);
        }
        lemma_points_bounds_within(u, lo, hi);
        assert(pts.last() == pts[pts.len() - 1]);
    } else {
        assert(pts[0].x < hi.x);
    }
}

/// Points lie in their bounding rectangle, which is nonempty for a
/// nonempty set of points.
pub proof fn lemma_points_in_bounds(pts: Seq<IVec2>)
    requires
        points_boundable(pts),
    ensures
        pts.len() > 0 ==> points_bounds(pts).min.x < points_bounds(pts).max.x
            && points_bounds(pts).min.y < points_bounds(pts).max.y,
        forall|i: int| 0 <= i < pts.len() ==> points_bounds(pts).spec_contains(#[trigger] pts[i]),
{
    lemma_points_bounds(pts);
}

proof fn lemma_letter_of(l: Lettering, i: int)
    requires
        lettering_wf(l),
        0 <= i < l.len(),
    ensures
        lettering_has(l, l[i].0),
        letter_of(l, l[i].0) == l[i].1,
{
    let n = l[i].0;
    assert(lettering_has(l, n));
    let j = choose|j: int| 0 <= j < l.len() && (#[trigger] l[j]).0 == n;
    if j != i {
        if j < i {
            assert(l[j].0 != l[i].0);
        } else {
            assert(l[i].0 != l[j].0);
        }
    }
}

proof fn lemma_lettering_count(l: Lettering, names: Set<Seq<char>>, n: Seq<char>)
    requires
        lettering_wf(l),
        forall|i: int| 0 <= i < l.len() ==> names.contains((#[trigger] l[i]).0),
        names.contains(n),
        !lettering_has(l, n),
        names.finite(),
    ensures
        l.len() + 1 <= names.len(),
{
    let ns = l.map_values(|e: (Seq<char>, char)| e.0).push(n);
    assert(ns.no_duplicates()) by {
        assert forall|i: int, j: int| 0 <= i < ns.len() && 0 <= j < ns.len() && i != j implies ns[i]
            != ns[j] by {
            if i < l.len() && j < l.len() {
                if i < j {
                    assert(l[i].0 != l[j].0);
                } else {
                    assert(l[j].0 != l[i].0);
                }
            } else if i < l.len() {
                assert(ns[i] == l[i].0);
                assert(ns[j] == n);
            } else {
                assert(ns[j] == l[j].0);
                assert(ns[i] == n);
            }
        }
    }
    ns.unique_seq_to_set();
    assert(ns.to_set().subset_of(names)) by {
        assert forall|a: Seq<char>| ns.to_set().contains(a) implies names.contains(a) by {
            let i = choose|i: int| 0 <= i < ns.len() && ns[i] == a;
            if i < l.len() {
                assert(ns[i] == l[i].0);
            }
        }
    }
    vstd::set_lib::lemma_len_subset(ns.to_set(), names);
}

proof fn lemma_swap_remove(pool: Seq<char>, k: int)
    requires
        pool.no_duplicates(),
        0 <= k < pool.len(),
    ensures
        pool.update(k, pool.last()).drop_last().no_duplicates(),
        forall|j: int|
            0 <= j < pool.len() - 1 ==> pool.contains(
                #[trigger] pool.update(k, pool.last()).drop_last()[j],
            ) && pool.update(k, pool.last()).drop_last()[j] != pool[k],
{
    let q = pool.update(k, pool.last()).drop_last();
    assert forall|j: int| 0 <= j < pool.len() - 1 implies pool.contains(#[trigger] q[j]) && q[j]
        != pool[k] by {
        if j == k {
            assert(q[j] == pool[pool.len() - 1]);
        } else {
            assert(q[j] == pool[j]);
        }
    }
    assert forall|i: int, j: int| 0 <= i < q.len() && 0 <= j < q.len() && i != j implies q[i]
        != q[j] by {
        let si = if i == k {
            pool.len() - 1
        } else {
            i
        };
        let sj = if j == k {
            pool.len() - 1
        } else {
            j
        };
        assert(q[i] == pool[si]);
        assert(q[j] == pool[sj]);
    }
}

/// The spawn names of a patch have the same keys as its spawns, with each
/// name read off its spawn.
proof fn lemma_names_get(sp: Seq<(IVec2, Spawn)>, p: IVec2)
    requires
        keys_distinct(sp),
    ensures
        seq_has_key(spawn_names(sp), p) == seq_has_key(sp, p),
        seq_has_key(sp, p) ==> seq_get(spawn_names(sp), p) == Some(seq_get(sp, p).unwrap()@),
{
    let sn = spawn_names(sp);
    assert(keys_distinct(sn)) by {
        assert forall|i: int, j: int| 0 <= i < j < sn.len() implies (#[trigger] sn[i]).0 != (
        #[trigger] sn[j]).0 by {
            assert(sp[i].0 != sp[j].0);
        }
    }
    if seq_has_key(sp, p) {
        let k = seq_key_index(sp, p);
        lemma_key_index(sp, k);
        assert(sn[k] == (p, sp[k].1@));
        lemma_key_index(sn, k);
    } else if seq_has_key(sn, p) {
        let i = choose|i: int| 0 <= i < sn.len() && (#[trigger] sn[i]).0 == p;
        assert(sp[i].0 == sn[i].0);
    }
}

/// First alphabetic character of a spawn name, `'A'` if there is none.
fn first_alphabetic(name: &Spawn) -> (r: char)
    ensures
        r == first_alpha(name@, 0),
{
    let cs = chars_of(name.name());
    let n = cs.len();
    let mut i: usize = 0;
    while i < n
        invariant
            cs@ == name@,
            n == cs@.len(),
            i <= n,
            first_alpha(name@, i as int) == first_alpha(name@, 0),
        decreases n - i,
    {
        if is_alphabetic(cs[i]) {
            return cs[i];
        }
        i += 1;
    }
    'A'
}

/// Position of a spawn name in a lettering.
fn find_letter(l: &Vec<(Spawn, char)>, name: &Spawn) -> (r: Option<usize>)
    ensures
        r is None <==> !lettering_has(lview(l@), name@),
        r matches Some(i) ==> i < l@.len() && l@[i as int].0@ == name@,
{
    let n = l.len();
    let mut i: usize = 0;
    while i < n
        invariant
            n == l@.len(),
            i <= n,
            forall|j: int| 0 <= j < i ==> (#[trigger] lview(l@)[j]).0 != name@,
        decreases n - i,
    {
        if l[i].0.0 == name.0 {
            assert(lview(l@)[i as int].0 == name@);
            return Some(i);
        }
        assert(lview(l@)[i as int].0 == l@[i as int].0@);
        i += 1;
    }
    None
}

/// Position of a letter in the letter pool.
fn find_char(pool: &Vec<char>, c: char) -> (r: Option<usize>)
    ensures
        r is None <==> !pool@.contains(c),
        r matches Some(i) ==> i < pool@.len() && pool@[i as int] == c,
{
    let n = pool.len();
    let mut i: usize = 0;
    while i < n
        invariant
            n == pool@.len(),
            i <= n,
            forall|j: int| 0 <= j < i ==> pool@[j] != c,
        decreases n - i,
    {
        if pool[i] == c {
            return Some(i);
        }
        i += 1;
    }
    None
}

impl FlatPatch {
    /// Give every spawn name met while scanning the rectangle row by row a
    /// legend letter: the first alphabetic character of the name if still
    /// free, otherwise the next free letter.
    fn assign_letters(&self, b: Rect) -> (l: Vec<(Spawn, char)>)
        requires
            self.wf(),
            spawn_name_set(self.spawns@).len() <= pool_size(),
            b.min.x <= b.max.x,
            b.min.y <= b.max.y,
        ensures
            lettering_wf(lview(l@)),
            forall|i: int|
                0 <= i < self.spawns@.len() && needs_letter(b, self.entrance, self.spawns@[i].0)
                    ==> lettering_has(lview(l@), (#[trigger] self.spawns@[i]).1@),
            lview(l@) == spec_letters(spawn_names(self.spawns@), b, self.entrance),
            forall|i: int| 0 <= i < l@.len() ==> spec_legend_pool().contains((#[trigger] l@[i]).1),
    {
        let ghost sn = spawn_names(self.spawns@);
        let ghost init: LetterState = (Seq::empty(), spec_legend_pool());
        let mut pool = legend_pool();
        let mut l: Vec<(Spawn, char)> = Vec::new();
        let ghost names = spawn_name_set(self.spawns@);
        proof {
            vstd::seq_lib::seq_to_set_is_finite(spawn_name_seq(self.spawns@));
        }
        let mut y = b.min.y;
        while y < b.max.y
            invariant
                self.wf(),
                names == spawn_name_set(self.spawns@),
                names.finite(),
                names.len() <= pool_size(),
                b.min.x <= b.max.x,
                b.min.y <= y <= b.max.y,
                lettering_wf(lview(l@)),
                pool@.no_duplicates(),
                l@.len() + pool@.len() == pool_size(),
                forall|i: int, j: int|
                    0 <= i < l@.len() && 0 <= j < pool@.len() ==> (#[trigger] l@[i]).1 != (
                    #[trigger] pool@[j]),
                forall|i: int| 0 <= i < l@.len() ==> names.contains((#[trigger] l@[i]).0@),
                forall|i: int|
                    0 <= i < self.spawns@.len() && needs_letter(b, self.entrance, self.spawns@[i].0)
                        && self.spawns@[i].0.y < y ==> lettering_has(
                        lview(l@),
                        (#[trigger] self.spawns@[i]).1@,
                    ),
                sn == spawn_names(self.spawns@),
                init == (Seq::<(Seq<char>, char)>::empty(), spec_legend_pool()),
                (lview(l@), pool@) == rect_letters(sn, b, self.entrance, y as int, init),
                forall|i: int| 0 <= i < l@.len() ==> spec_legend_pool().contains((#[trigger] l@[i]).1),
                forall|j: int| 0 <= j < pool@.len() ==> spec_legend_pool().contains(#[trigger] pool@[j]),
            decreases b.max.y - y,
        {
            let mut x = b.min.x;
            while x < b.max.x
                invariant
                    self.wf(),
                    names == spawn_name_set(self.spawns@),
                    names.finite(),
                    names.len() <= pool_size(),
                    b.min.x <= x <= b.max.x,
                    b.min.y <= y < b.max.y,
                    lettering_wf(lview(l@)),
                    pool@.no_duplicates(),
                    l@.len() + pool@.len() == pool_size(),
                    forall|i: int, j: int|
                        0 <= i < l@.len() && 0 <= j < pool@.len() ==> (#[trigger] l@[i]).1 != (
                        #[trigger] pool@[j]),
                    forall|i: int| 0 <= i < l@.len() ==> names.contains((#[trigger] l@[i]).0@),
                    forall|i: int|
                        0 <= i < self.spawns@.len() && needs_letter(
                            b,
                            self.entrance,
                            self.spawns@[i].0,
                        ) && (self.spawns@[i].0.y < y || (self.spawns@[i].0.y == y
                            && self.spawns@[i].0.x < x)) ==> lettering_has(
                            lview(l@),
                            (#[trigger] self.spawns@[i]).1@,
                        ),
                    sn == spawn_names(self.spawns@),
                    init == (Seq::<(Seq<char>, char)>::empty(), spec_legend_pool()),
                    (lview(l@), pool@) == row_letters(
                        sn,
                        b,
                        self.entrance,
                        y as int,
                        x as int,
                        rect_letters(sn, b, self.entrance, y as int, init),
                    ),
                    forall|i: int| 0 <= i < l@.len() ==> spec_legend_pool().contains((#[trigger] l@[i]).1),
                    forall|j: int| 0 <= j < pool@.len() ==> spec_legend_pool().contains(#[trigger] pool@[j]),
                decreases b.max.x - x,
            {
                let p = ivec2(x, y);
                let at_entrance = match self.entrance {
                    Some(e) => e.x == x && e.y == y,
                    None => false,
                };
                let ghost l_before = l@;
                let ghost pool_before = pool@;
                let ghost sq = spec_ivec2(x as int, y as int);
                proof {
                    assert(p == sq);
                    lemma_names_get(self.spawns@, p);
                }
                if !at_entrance {
                    match self.spawns.get(&p) {
                        Some(s) => {
                            let ghost want = letter_step((lview(l_before), pool_before), s@);
                            proof {
                                lemma_key_index(self.spawns@, seq_key_index(self.spawns@, p));
                                assert(seq_get(sn, p) == Some(s@));
                                assert(needs_letter(b, self.entrance, p));
                                assert(cell_letters(sn, b, self.entrance, sq, (lview(l_before), pool_before)) == want);
                            }
                            match find_letter(&l, s) {
                                Some(_) => {},
                                None => {
                                    proof {
                                        let k = seq_key_index(self.spawns@, p);
                                        assert(spawn_name_seq(self.spawns@)[k] == s@);
                                        assert(names.contains(s@));
                                        assert forall|i: int|
                                            0 <= i < lview(l@).len() implies names.contains(
                                            (#[trigger] lview(l@)[i]).0,
                                        ) by {
                                            assert(lview(l@)[i].0 == l@[i].0@);
                                        }
                                        lemma_lettering_count(lview(l@), names, s@);
                                    }
                                    let c0 = first_alphabetic(s);
                                    let c = match find_char(&pool, c0) {
                                        Some(k) => {
                                            proof {
                                                lemma_swap_remove(pool@, k as int);
                                                let k2 = choose|k2: int|
                                                    0 <= k2 < pool_before.len() && pool_before[k2]
                                                        == c0;
                                                assert(pool_before[k as int] == c0);
                                                assert(k2 == k);
                                            }
                                            pool.swap_remove(k);
                                            proof {
                                                assert(pool@ == want.1);
                                                assert(want.0 == lview(l_before).push((s@, c0)));
                                            }
                                            c0
                                        },
                                        None => {
                                            let last = pool.pop();
                                            proof {
                                                assert(pool@ =~= pool_before.drop_last());
                                                assert(pool@ == want.1);
                                            }
                                            match last {
                                                Some(c) => {
                                                    proof {
                                                        assert(want.0 == lview(l_before).push((s@, c)));
                                                    }
                                                    c
                                                },
                                                None => { 'A' },
                                            }
                                        },
                                    };
                                    proof {
                                        assert(pool_before.contains(c));
                                        assert(pool@.len() + 1 == pool_before.len());
                                        assert forall|j: int| 0 <= j < pool@.len() implies pool_before.contains(
                                            #[trigger] pool@[j],
                                        ) && pool@[j] != c by {
                                            if pool@ != pool_before.drop_last() {
                                                let k = choose|k: int|
                                                    0 <= k < pool_before.len() && pool_before[k]
                                                        == c;
                                            } else {
                                                assert(pool@[j] == pool_before[j]);
                                                assert(pool_before.no_duplicates());
                                            }
                                        }
                                    }
                                    let cl = s.clone();
                                    l.push((cl, c));
                                    proof {
                                        let lv = lview(l@);
                                        let lb = lview(l_before);
                                        assert(lv.len() == lb.len() + 1);
                                        assert forall|i: int| 0 <= i < lb.len() implies #[trigger] lv[i]
                                            == lb[i] by {}
                                        assert(lv[lb.len() as int] == (s@, c));
                                        assert forall|i: int, j: int|
                                            0 <= i < j < lv.len() implies (#[trigger] lv[i]).0 != (
                                            #[trigger] lv[j]).0 && lv[i].1 != lv[j].1 by {
                                            if j == lb.len() {
                                                assert(lb[i].0 != s@);
                                                assert(lb[i].1 == l_before[i].1);
                                                assert(pool_before.contains(c));
                                                let k = choose|k: int|
                                                    0 <= k < pool_before.len() && pool_before[k]
                                                        == c;
                                                assert(l_before[i].1 != pool_before[k]);
                                            } else {
                                                assert(lb[i].0 != lb[j].0);
                                            }
                                        }
                                        assert(lettering_has(lv, s@)) by {
                                            assert(lv[lb.len() as int].0 == s@);
                                        }
                                        assert(lv =~= lb.push((s@, c)));
                                        assert((lv, pool@) == want);
                                    }
                                },
                            }
                        },
                        None => {},
                    }
                }
                proof {
                    let lv = lview(l@);
                    let lb = lview(l_before);
                    assert((lv, pool@) == cell_letters(sn, b, self.entrance, sq, (lb, pool_before)));
                    assert(lv.len() >= lb.len());
                    assert forall|i: int| 0 <= i < lb.len() implies #[trigger] lv[i] == lb[i] by {
                        assert(l@[i] == l_before[i]);
                    }
                    assert forall|i: int|
                        0 <= i < self.spawns@.len() && needs_letter(b, self.entrance, self.spawns@[i].0)
                            && (self.spawns@[i].0.y < y || (self.spawns@[i].0.y == y
                            && self.spawns@[i].0.x < x + 1)) implies lettering_has(
                        lv,
                        (#[trigger] self.spawns@[i]).1@,
                    ) by {
                        let q = self.spawns@[i].0;
                        if q.y < y || q.x < x {
                            let w = choose|w: int|
                                0 <= w < lb.len() && (#[trigger] lb[w]).0 == self.spawns@[i].1@;
                            assert(lv[w] == lb[w]);
                        } else {
                            assert(q == p);
                            lemma_key_index(self.spawns@, i);
                        }
                    }
                }
                x += 1;
            }
            y += 1;
        }
        l
    }
}

impl FlatPatch {
    /// Content character of a cell, given letters for the spawns.
    fn cell_content(&self, l: &Vec<(Spawn, char)>, b: Rect, p: IVec2) -> (r: Option<char>)
        requires
            self.wf(),
            lettering_wf(lview(l@)),
            b.spec_contains(p),
            forall|i: int|
                0 <= i < self.spawns@.len() && needs_letter(b, self.entrance, self.spawns@[i].0)
                    ==> lettering_has(lview(l@), (#[trigger] self.spawns@[i]).1@),
        ensures
            r == cell_char(self.terrain@, spawn_names(self.spawns@), self.entrance, lview(l@), p),
    {
        let ghost sn = spawn_names(self.spawns@);
        let at_entrance = match self.entrance {
            Some(e) => e.x == p.x && e.y == p.y,
            None => false,
        };
        if at_entrance {
            return Some('@');
        }
        proof {
            assert(seq_has_key(sn, p) == seq_has_key(self.spawns@, p)) by {
                if seq_has_key(sn, p) {
                    let k = seq_key_index(sn, p);
                    assert(self.spawns@[k].0 == p);
                }
                if seq_has_key(self.spawns@, p) {
                    let k = seq_key_index(self.spawns@, p);
                    assert(sn[k].0 == p);
                }
            }
        }
        match self.spawns.get(&p) {
            Some(s) => {
                let ghost k = seq_key_index(self.spawns@, p);
                proof {
                    lemma_key_index(self.spawns@, k);
                    assert(sn[k] == (p, s@));
                    assert(keys_distinct(sn)) by {
                        assert forall|i: int, j: int| 0 <= i < j < sn.len() implies (
                        #[trigger] sn[i]).0 != (#[trigger] sn[j]).0 by {
                            assert(self.spawns@[i].0 != self.spawns@[j].0);
                        }
                    }
                    lemma_key_index(sn, k);
                }
                match find_letter(l, s) {
                    Some(i) => {
                        proof {
                            lemma_letter_of(lview(l@), i as int);
                        }
                        Some(l[i].1)
                    },
                    None => {
                        // Every spawn in the bounds has a letter.
                        Some('A')
                    },
                }
            },
            None => {
                match self.terrain.get(&p) {
                    Some(t) => Some(t.to_char()),
                    None => None,
                }
            },
        }
    }

    /// Text rows for the cells of the rectangle, given letters for the
    /// spawns.
    fn render(&self, l: &Vec<(Spawn, char)>, b: Rect) -> (text: Vec<char>)
        requires
            self.wf(),
            lettering_wf(lview(l@)),
            b.min.x <= b.max.x,
            b.min.y <= b.max.y,
            forall|i: int|
                0 <= i < self.spawns@.len() && needs_letter(b, self.entrance, self.spawns@[i].0)
                    ==> lettering_has(lview(l@), (#[trigger] self.spawns@[i]).1@),
        ensures
            text@ == map_text(
                self.terrain@,
                spawn_names(self.spawns@),
                self.entrance,
                lview(l@),
                b,
                b.max.y - b.min.y,
            ),
    {
        let ghost t = self.terrain@;
        let ghost sn = spawn_names(self.spawns@);
        let ghost e = self.entrance;
        let ghost lv = lview(l@);
        let mut text: Vec<char> = Vec::new();
        let mut y = b.min.y;
        while y < b.max.y
            invariant
                self.wf(),
                lettering_wf(lview(l@)),
                t == self.terrain@,
                sn == spawn_names(self.spawns@),
                e == self.entrance,
                lv == lview(l@),
                b.min.x <= b.max.x,
                b.min.y <= y <= b.max.y,
                forall|i: int|
                    0 <= i < self.spawns@.len() && needs_letter(b, self.entrance, self.spawns@[i].0)
                        ==> lettering_has(lview(l@), (#[trigger] self.spawns@[i]).1@),
                text@ == map_text(t, sn, e, lv, b, y - b.min.y),
            decreases b.max.y - y,
        {
            let mut row: Vec<char> = Vec::new();
            let mut seen = false;
            let mut x = b.min.x;
            while x < b.max.x
                invariant
                    self.wf(),
                    lettering_wf(lview(l@)),
                    t == self.terrain@,
                    sn == spawn_names(self.spawns@),
                    e == self.entrance,
                    lv == lview(l@),
                    b.min.x <= x <= b.max.x,
                    b.min.y <= y < b.max.y,
                    forall|i: int|
                        0 <= i < self.spawns@.len() && needs_letter(
                            b,
                            self.entrance,
                            self.spawns@[i].0,
                        ) ==> lettering_has(lview(l@), (#[trigger] self.spawns@[i]).1@),
                    row@ == row_chars(t, sn, e, lv, y as int, b.min.x as int, x - b.min.x),
                    seen == row_has_content(t, sn, e, lv, y as int, b.min.x as int, x - b.min.x),
                decreases b.max.x - x,
            {
                let p = ivec2(x, y);
                assert(spec_ivec2(b.min.x + (x - b.min.x + 1) - 1, y as int) == p);
                match self.cell_content(l, b, p) {
                    Some(c) => {
                        row.push(c);
                        seen = true;
                    },
                    None => {
                        if seen {
                            row.push(' ');
                        } else {
                            // No-break space so that leading blanks do not
                            // read as indentation.
                            row.push('\u{a0}');
                        }
                    },
                }
                x += 1;
            }
            let ghost before = text@;
            let mut k: usize = 0;
            while k < row.len()
                invariant
                    k <= row@.len(),
                    text@ == before + row@.take(k as int),
                decreases row@.len() - k,
            {
                text.push(row[k]);
                assert(row@.take(k + 1) == row@.take(k as int).push(row@[k as int]));
                k += 1;
            }
            assert(row@.take(row@.len() as int) == row@);
            // Remove trailing whitespace.
            let ghost joined = text@;
            while text.len() > 0 && is_whitespace(text[text.len() - 1])
                invariant
                    trim_end(text@) == trim_end(joined),
                decreases text@.len(),
            {
                text.pop();
            }
            if y != b.max.y - 1 {
                text.push('\n');
            }
            y += 1;
        }
        text
    }
}

impl FlatPatch {
    /// Points that the text map covers, in order: terrain, spawns,
    /// entrance.
    fn points(&self) -> (r: Vec<IVec2>)
        ensures
            r@ == patch_points(self.terrain@, self.spawns@, self.entrance),
    {
        let mut r: Vec<IVec2> = Vec::new();
        let ghost tk = self.terrain@.map_values(|a: (IVec2, MapTile)| a.0);
        let ghost sk = self.spawns@.map_values(|a: (IVec2, Spawn)| a.0);
        let n = self.terrain.len();
        let mut i: usize = 0;
        while i < n
            invariant
                n == self.terrain@.len(),
                i <= n,
                tk == self.terrain@.map_values(|a: (IVec2, MapTile)| a.0),
                r@ == tk.take(i as int),
            decreases n - i,
        {
            r.push(self.terrain.key_at(i));
            assert(tk.take(i + 1) == tk.take(i as int).push(tk[i as int]));
            i += 1;
        }
        assert(tk.take(n as int) == tk);
        let m = self.spawns.len();
        let mut j: usize = 0;
        while j < m
            invariant
                m == self.spawns@.len(),
                j <= m,
                sk == self.spawns@.map_values(|a: (IVec2, Spawn)| a.0),
                r@ == tk + sk.take(j as int),
            decreases m - j,
        {
            r.push(self.spawns.key_at(j));
            assert(sk.take(j + 1) == sk.take(j as int).push(sk[j as int]));
            j += 1;
        }
        assert(sk.take(m as int) == sk);
        match self.entrance {
            Some(e) => {
                r.push(e);
            },
            None => {},
        }
        assert(r@ == patch_points(self.terrain@, self.spawns@, self.entrance));
        r
    }

    /// Write the patch as a text map with a legend for its spawns.
    ///
    /// The map covers the bounding rectangle of all defined cells row by
    /// row: `'@'` for the entrance, the spawn's legend letter, the terrain
    /// character, or blank space; trailing blanks are trimmed.
    pub fn to_text(&self) -> (r: (PatchData, String))
        requires
            self.wf(),
            points_boundable(patch_points(self.terrain@, self.spawns@, self.entrance)),
            spawn_name_set(self.spawns@).len() <= pool_size(),
        ensures
            r.0.legend.wf(),
            lettering_wf(legend_lettering(r.0.legend@)),
            forall|i: int|
                0 <= i < self.spawns@.len() && self.entrance != Some(self.spawns@[i].0)
                    ==> lettering_has(
                    legend_lettering(r.0.legend@),
                    (#[trigger] self.spawns@[i]).1@,
                ),
            ({
                let b = points_bounds(patch_points(self.terrain@, self.spawns@, self.entrance));
                r.1@ == map_text(
                    self.terrain@,
                    spawn_names(self.spawns@),
                    self.entrance,
                    legend_lettering(r.0.legend@),
                    b,
                    b.max.y - b.min.y,
                )
            }),
            legend_lettering(r.0.legend@) == spec_letters(
                spawn_names(self.spawns@),
                points_bounds(patch_points(self.terrain@, self.spawns@, self.entrance)),
                self.entrance,
            ),
            forall|i: int|
                0 <= i < r.0.legend@.len() ==> spec_legend_pool().contains((#[trigger] r.0.legend@[i]).0),
    {
        let pts = self.points();
        proof {
            lemma_points_bounds(pts@);
        }
        let b = from_points_inclusive(&pts);
        proof {
            assert forall|i: int| 0 <= i < self.spawns@.len() implies b.spec_contains(
                #[trigger] self.spawns@[i].0,
            ) by {
                let k = self.terrain@.len() + i;
                assert(pts@[k] == self.spawns@[i].0);
            }
        }
        let l = self.assign_letters(b);
        let text = self.render(&l, b);
        let mut legend: AssocMap<char, Spawn> = AssocMap::new();
        let n = l.len();
        let mut i: usize = 0;
        while i < n
            invariant
                n == l@.len(),
                i <= n,
                lettering_wf(lview(l@)),
                legend.wf(),
                legend_lettering(legend@) == lview(l@).take(i as int),
            decreases n - i,
        {
            let c = l[i].1;
            let s = l[i].0.clone();
            proof {
                let lt = lview(l@);
                assert(lt[i as int].1 == c);
                assert(lt.len() == n);
                assert(legend_lettering(legend@).len() == legend@.len());
                assert(legend@.len() == i);
                assert forall|j: int| 0 <= j < legend@.len() implies (#[trigger] legend@[j]).0 != c by {
                    assert(legend_lettering(legend@)[j] == lt.take(i as int)[j]);
                    assert(lt.take(i as int)[j] == lt[j]);
                    assert(legend_lettering(legend@)[j].1 == legend@[j].0);
                    assert(lt[j].1 != lt[i as int].1);
                }
            }
            let ghost before = legend@;
            let ghost sv = s@;
            legend.insert(c, s);
            assert(legend@ == before.push((c, legend@[before.len() as int].1)));
            assert(legend_lettering(legend@) =~= lview(l@).take(i + 1));
            i += 1;
        }
        assert(lview(l@).take(n as int) =~= lview(l@));
        assert forall|j: int| 0 <= j < legend@.len() implies spec_legend_pool().contains(
            (#[trigger] legend@[j]).0,
        ) by {
            assert(legend_lettering(legend@)[j] == lview(l@)[j]);
            assert(spec_legend_pool().contains(l@[j].1));
        }
        (PatchData { legend }, string_of(&text))
    }
}
/// A character from the ranges the legend letters are drawn from: Latin
/// letters, and the Latin-1, Greek and Cyrillic letters above `0xc0`.
pub open spec fn pool_char(c: char) -> bool {
    ('A' <= c && c <= 'Z') || ('a' <= c && c <= 'z') || (0xc0 <= (c as u32) && (c as u32) <= 0x490)
}

/// Every legend letter lies in those ranges.
#[verifier::rlimit(100)]
pub proof fn lemma_pool_chars()
    ensures
        forall|k: int| 0 <= k < spec_legend_pool().len() ==> pool_char(#[trigger] spec_legend_pool()[k]),
{
    let pool = spec_legend_pool();
    assert forall|k: int| 0 <= k < pool.len() implies pool_char(#[trigger] pool[k]) by {}
}


} // verus!
