//! Compact text encoding of character maps of a space: one text patch per
//! sector slice, each character at its grid position from the patch key.

use vstd::prelude::*;

use crate::assoc::{AssocMap, keys_distinct, lemma_insert_get, lemma_key_index, seq_get, seq_has_key};
use crate::atlas::{collect_slices, encodable, entries_view, lemma_concat_contains, lemma_cursor_prefix, lemma_rel_pos, seen_slice, slice_in_range, small_loc};
use crate::geom::{IVec2, IVec3, ivec2, ivec3, spec_ivec2, spec_ivec3};
use crate::location::{SECTOR_HEIGHT, SECTOR_WIDTH, spec_sector};
use crate::patch::cursor;
use crate::patch_text::from_points_inclusive;
use crate::text::{is_whitespace, spec_is_whitespace};

verus! {

/// Cells encoded by the first `n` characters of a patch text: each
/// non-whitespace character at its grid position from the key.
pub open spec fn text_cells(key: IVec3, text: Seq<char>, n: int) -> Seq<(IVec3, char)>
    decreases n,
{
    if n <= 0 {
        Seq::empty()
    } else {
        let prev = text_cells(key, text, n - 1);
        let c = text[n - 1];
        if spec_is_whitespace(c) {
            prev
        } else {
            prev.push(
                (
                    spec_ivec3(
                        key.x + cursor(text, n - 1).0,
                        key.y + cursor(text, n - 1).1,
                        key.z as int,
                    ),
                    c,
                ),
            )
        }
    }
}

/// Cells encoded by a sequence of patches, in order.
pub open spec fn atlas_cells(e: Seq<(IVec3, Seq<char>)>) -> Seq<(IVec3, char)>
    decreases e.len(),
{
    if e.len() == 0 {
        Seq::empty()
    } else {
        atlas_cells(e.drop_last()) + text_cells(e.last().0, e.last().1, e.last().1.len() as int)
    }
}

/// A space as a set of character patches keyed by location.
pub struct Atlas {
    entries: Vec<(IVec3, Vec<char>)>,
}

impl Atlas {
    pub closed spec fn patches(&self) -> Seq<(IVec3, Seq<char>)> {
        entries_view(self.entries@)
    }

    /// Patches small enough to decode without overflow.
    pub open spec fn decodable(&self) -> bool {
        forall|i: int|
            0 <= i < self.patches().len() ==> small_loc((#[trigger] self.patches()[i]).0)
                && self.patches()[i].1.len() < 0x0000_1000
    }

    /// The non-whitespace characters of the atlas at their locations.
    pub fn cells(&self) -> (r: Vec<(IVec3, char)>)
        requires
            self.decodable(),
        ensures
            r@ == atlas_cells(self.patches()),
    {
        let mut out: Vec<(IVec3, char)> = Vec::new();
        let n = self.entries.len();
        let mut i: usize = 0;
        while i < n
            invariant
                n == self.patches().len(),
                i <= n,
                self.decodable(),
                out@ == atlas_cells(self.patches().take(i as int)),
            decreases n - i,
        {
            let key = self.entries[i].0;
            let text = &self.entries[i].1;
            assert(self.patches()[i as int] == (key, text@));
            assert(self.patches().take(i + 1).drop_last() == self.patches().take(i as int));
            let ghost before = out@;
            let m = text.len();
            let mut j: usize = 0;
            let mut x: i32 = 0;
            let mut y: i32 = 0;
            while j < m
                invariant
                    m == text@.len(),
                    m < 0x0000_1000,
                    small_loc(key),
                    j <= m,
                    (x as int, y as int) == cursor(text@, j as int),
                    out@ == before + text_cells(key, text@, j as int),
                decreases m - j,
            {
                proof {
                    crate::patch::lemma_cursor_bound(text@, j as int);
                }
                let c = text[j];
                if !is_whitespace(c) {
                    out.push((ivec3(key.x + x, key.y + y, key.z), c));
                }
                if c == '\n' {
                    x = 0;
                    y = y + 1;
                } else {
                    x = x + 1;
                }
                j += 1;
            }
            i += 1;
        }
        assert(self.patches().take(n as int) == self.patches());
        out
    }
}

/// The bin holds character `c` at the position of `q` relative to the
/// slice, and `c` shows.
pub open spec fn bin_has(slice: IVec3, bin: Seq<(IVec2, char)>, q: IVec3, c: char) -> bool {
    &&& q.z == slice.z
    &&& 0 <= q.x - slice.x < SECTOR_WIDTH
    &&& 0 <= q.y - slice.y < SECTOR_HEIGHT
    &&& !spec_is_whitespace(c)
    &&& seq_get(bin, spec_ivec2(q.x - slice.x, q.y - slice.y)) == Some(c)
}

/// A bin of characters that fits a sector.
pub open spec fn char_bin_ok(bin: Seq<(IVec2, char)>) -> bool {
    &&& bin.len() > 0
    &&& keys_distinct(bin)
    &&& forall|i: int|
        0 <= i < bin.len() ==> 0 <= (#[trigger] bin[i]).0.x < SECTOR_WIDTH && 0 <= bin[i].0.y
            < SECTOR_HEIGHT && bin[i].1 != '\n'
}

/// The cells of the rows before row `v`, and of row `v` before column `u`,
/// of the grid of a bin with corner `bmin` and width `w`.
pub open spec fn grid_done(
    key: IVec3,
    bmin: IVec2,
    w: int,
    bin: Seq<(IVec2, char)>,
    u: int,
    v: int,
    q: IVec3,
    c: char,
) -> bool {
    let u2 = q.x - key.x;
    let v2 = q.y - key.y;
    &&& q.z == key.z
    &&& 0 <= u2 < w
    &&& 0 <= v2
    &&& (v2 < v || (v2 == v && u2 < u))
    &&& !spec_is_whitespace(c)
    &&& seq_get(bin, spec_ivec2(bmin.x + u2, bmin.y + v2)) == Some(c)
}

/// A sequence with one more element holds exactly that element besides the
/// old ones.
proof fn lemma_push_contains<A>(s: Seq<A>, x: A, y: A)
    ensures
        s.push(x).contains(y) <==> (s.contains(y) || y == x),
{
    if s.push(x).contains(y) {
        let i = choose|i: int| 0 <= i < s.push(x).len() && s.push(x)[i] == y;
        if i < s.len() {
            assert(s[i] == y);
        }
    }
    if s.contains(y) {
        let i = choose|i: int| 0 <= i < s.len() && s[i] == y;
        assert(s.push(x)[i] == y);
    }
    if y == x {
        assert(s.push(x)[s.len() as int] == y);
    }
}

/// Taking one more grid cell: it adds the cell of the character `c`
/// written there, if that character shows.
proof fn lemma_grid_step(
    key: IVec3,
    bmin: IVec2,
    w: int,
    bin: Seq<(IVec2, char)>,
    u: int,
    v: int,
    c: char,
    q: IVec3,
    c2: char,
)
    requires
        0 <= u < w,
        0 <= v,
        -0x7FFF_B000 <= key.x <= 0x7FFF_B000,
        -0x7FFF_B000 <= key.y <= 0x7FFF_B000,
        0 <= bmin.x < 0x1000,
        0 <= bmin.y < 0x1000,
        w <= 0x1000,
        v <= 0x1000,
        seq_get(bin, spec_ivec2(bmin.x + u, bmin.y + v)) matches Some(x) ==> x == c,
        seq_get(bin, spec_ivec2(bmin.x + u, bmin.y + v)) is None ==> spec_is_whitespace(c),
    ensures
        grid_done(key, bmin, w, bin, u + 1, v, q, c2) <==> (grid_done(key, bmin, w, bin, u, v, q, c2)
            || (!spec_is_whitespace(c) && (q, c2) == (spec_ivec3(key.x + u, key.y + v, key.z as int), c))),
{
    let cell_q = spec_ivec3(key.x + u, key.y + v, key.z as int);
    if q == cell_q {
        assert(q.x - key.x == u && q.y - key.y == v);
    }
    if q.z == key.z && q.x - key.x == u && q.y - key.y == v {
        assert(q == cell_q);
    }
}

/// Decoding a prefix does not depend on what follows.
proof fn lemma_text_cells_prefix(key: IVec3, s: Seq<char>, t: Seq<char>, k: int)
    requires
        t.len() <= s.len(),
        forall|i: int| 0 <= i < t.len() ==> s[i] == t[i],
        0 <= k <= t.len(),
    ensures
        text_cells(key, s, k) == text_cells(key, t, k),
    decreases k,
{
    if k > 0 {
        lemma_text_cells_prefix(key, s, t, k - 1);
        lemma_cursor_prefix(s, t, k - 1);
    }
}

/// Keys of an entry sequence.
fn keys_of(bin: &AssocMap<IVec2, char>) -> (r: Vec<IVec2>)
    ensures
        r@ == bin@.map_values(|e: (IVec2, char)| e.0),
{
    let mut out: Vec<IVec2> = Vec::new();
    let n = bin.len();
    let mut i: usize = 0;
    while i < n
        invariant
            n == bin@.len(),
            i <= n,
            out@ == bin@.map_values(|e: (IVec2, char)| e.0).take(i as int),
        decreases n - i,
    {
        out.push(bin.key_at(i));
        i += 1;
        assert(out@ == bin@.map_values(|e: (IVec2, char)| e.0).take(i as int));
    }
    assert(bin@.map_values(|e: (IVec2, char)| e.0).take(n as int) == bin@.map_values(|e: (IVec2, char)| e.0));
    out
}

/// Encode a bin of characters as a text patch keyed at the corner of its
/// bounding box; cells without a character get a no-break space.
#[verifier::rlimit(40)]
fn encode_char_bin(slice: IVec3, bin: &AssocMap<IVec2, char>) -> (r: (IVec3, Vec<char>))
    requires
        char_bin_ok(bin@),
        bin.wf(),
        slice_in_range(slice),
    ensures
        small_loc(r.0),
        r.1@.len() < 0x0000_1000,
        forall|q: IVec3, c: char|
            text_cells(r.0, r.1@, r.1@.len() as int).contains((q, c)) <==> bin_has(slice, bin@, q, c),
{
    let keys = keys_of(bin);
    proof {
        assert forall|i: int| 0 <= i < keys@.len() implies 0 <= (#[trigger] keys@[i]).x < SECTOR_WIDTH
            && 0 <= keys@[i].y < SECTOR_HEIGHT by {
            assert(keys@[i] == bin@[i].0);
        }
        crate::patch_text::lemma_points_in_bounds(keys@);
        crate::patch_text::lemma_points_bounds_within(
            keys@,
            spec_ivec2(0, 0),
            spec_ivec2(SECTOR_WIDTH as int, SECTOR_HEIGHT as int),
        );
    }
    let bounds = from_points_inclusive(&keys);
    let bmin = bounds.min;
    let w = bounds.max.x - bounds.min.x;
    let h = bounds.max.y - bounds.min.y;
    let key = ivec3(slice.x + bmin.x, slice.y + bmin.y, slice.z);
    let mut text: Vec<char> = Vec::new();
    let mut v: i32 = 0;
    while v < h
        invariant
            char_bin_ok(bin@),
            slice_in_range(slice),
            key == spec_ivec3(slice.x + bmin.x, slice.y + bmin.y, slice.z as int),
            0 <= bmin.x < SECTOR_WIDTH,
            0 <= bmin.y < SECTOR_HEIGHT,
            1 <= w <= SECTOR_WIDTH,
            1 <= h <= SECTOR_HEIGHT,
            0 <= v <= h,
            text@.len() == v * (w + 1),
            cursor(text@, text@.len() as int) == (0int, v as int),
            forall|q: IVec3, c: char|
                text_cells(key, text@, text@.len() as int).contains((q, c)) <==> grid_done(
                    key,
                    bmin,
                    w as int,
                    bin@,
                    0,
                    v as int,
                    q,
                    c,
                ),
        decreases h - v,
    {
        let mut u: i32 = 0;
        while u < w
            invariant
                char_bin_ok(bin@),
                slice_in_range(slice),
                key == spec_ivec3(slice.x + bmin.x, slice.y + bmin.y, slice.z as int),
                0 <= bmin.x < SECTOR_WIDTH,
                0 <= bmin.y < SECTOR_HEIGHT,
                1 <= w <= SECTOR_WIDTH,
                1 <= h <= SECTOR_HEIGHT,
                0 <= v < h,
                0 <= u <= w,
                text@.len() == v * (w + 1) + u,
                cursor(text@, text@.len() as int) == (u as int, v as int),
                forall|q: IVec3, c: char|
                    text_cells(key, text@, text@.len() as int).contains((q, c)) <==> grid_done(
                        key,
                        bmin,
                        w as int,
                        bin@,
                        u as int,
                        v as int,
                        q,
                        c,
                    ),
            decreases w - u,
        {
            let p = ivec2(bmin.x + u, bmin.y + v);
            let c = match bin.get(&p) {
                Some(c) => *c,
                None => '\u{a0}',
            };
            proof {
                if seq_has_key(bin@, p) {
                    let k = choose|k: int| 0 <= k < bin@.len() && (#[trigger] bin@[k]).0 == p;
                    lemma_key_index(bin@, k);
                    assert(c == bin@[k].1);
                }
            }
            let ghost old_text = text@;
            text.push(c);
            proof {
                assert(text@.drop_last() == old_text);
                lemma_cursor_prefix(text@, old_text, old_text.len() as int);
                lemma_text_cells_prefix(key, text@, old_text, old_text.len() as int);
                let cell = (spec_ivec3(key.x + u, key.y + v, key.z as int), c);
                let tc = text_cells(key, old_text, old_text.len() as int);
                assert(text@[old_text.len() as int] == c);
                if spec_is_whitespace(c) {
                    assert(text_cells(key, text@, text@.len() as int) == tc);
                } else {
                    assert(text_cells(key, text@, text@.len() as int) == tc.push(cell));
                }
                assert forall|q: IVec3, c2: char|
                    text_cells(key, text@, text@.len() as int).contains((q, c2)) <==> grid_done(
                        key,
                        bmin,
                        w as int,
                        bin@,
                        u + 1,
                        v as int,
                        q,
                        c2,
                    ) by {
                    lemma_grid_step(key, bmin, w as int, bin@, u as int, v as int, c, q, c2);
                    if !spec_is_whitespace(c) {
                        lemma_push_contains(tc, cell, (q, c2));
                    }
                }
            }
            u += 1;
        }
        let ghost old_text = text@;
        text.push('\n');
        proof {
            assert((v + 1) * (w + 1) == v * (w + 1) + w + 1) by (nonlinear_arith);
            assert(text@.drop_last() == old_text);
            lemma_cursor_prefix(text@, old_text, old_text.len() as int);
            lemma_text_cells_prefix(key, text@, old_text, old_text.len() as int);
            assert(spec_is_whitespace('\n'));
            assert(text@[old_text.len() as int] == '\n');
            assert(text_cells(key, text@, text@.len() as int) == text_cells(key, old_text, old_text.len() as int));
            assert forall|q: IVec3, c: char|
                grid_done(key, bmin, w as int, bin@, w as int, v as int, q, c) <==> grid_done(
                    key,
                    bmin,
                    w as int,
                    bin@,
                    0,
                    v + 1,
                    q,
                    c,
                ) by {}
            assert forall|q: IVec3, c: char|
                text_cells(key, text@, text@.len() as int).contains((q, c)) <==> grid_done(
                    key,
                    bmin,
                    w as int,
                    bin@,
                    0,
                    v + 1,
                    q,
                    c,
                ) by {
                assert(text_cells(key, old_text, old_text.len() as int).contains((q, c)) <==> grid_done(
                    key,
                    bmin,
                    w as int,
                    bin@,
                    w as int,
                    v as int,
                    q,
                    c,
                ));
            }
        }
        v += 1;
    }
    proof {
        assert((h as int) * (w + 1) <= 40 * 49) by (nonlinear_arith)
            requires
                1 <= w <= 48,
                1 <= h <= 40,
        ;
        assert forall|q: IVec3, c: char|
            grid_done(key, bmin, w as int, bin@, 0, h as int, q, c) <==> bin_has(slice, bin@, q, c) by {
            let b = spec_ivec2(q.x - slice.x, q.y - slice.y);
            if bin_has(slice, bin@, q, c) {
                assert(seq_has_key(bin@, b));
                let k = choose|k: int| 0 <= k < bin@.len() && (#[trigger] bin@[k]).0 == b;
                assert(keys@[k] == b);
                assert(bounds.spec_contains(keys@[k]));
            }
            if grid_done(key, bmin, w as int, bin@, 0, h as int, q, c) {
                let b2 = spec_ivec2(bmin.x + q.x - key.x, bmin.y + q.y - key.y);
                assert(seq_has_key(bin@, b2));
                let k = choose|k: int| 0 <= k < bin@.len() && (#[trigger] bin@[k]).0 == b2;
                assert(0 <= bin@[k].0.x < SECTOR_WIDTH);
                assert(b2 == b);
            }
        }
    }
    (key, text)
}

/// The character last written at `q` by the first `n` items; the null
/// character stands for nothing and is skipped.
pub open spec fn last_char(items: Seq<(IVec3, char)>, n: int, q: IVec3) -> Option<char>
    decreases n,
{
    if n <= 0 {
        None
    } else if items[n - 1].0 == q && items[n - 1].1 != '\0' {
        Some(items[n - 1].1)
    } else {
        last_char(items, n - 1, q)
    }
}

/// A character map of the items shows `c` at `q`: it is the last character
/// written there and it is not whitespace.
pub open spec fn shown(items: Seq<(IVec3, char)>, q: IVec3, c: char) -> bool {
    last_char(items, items.len() as int, q) == Some(c) && !spec_is_whitespace(c)
}

/// Everything a character map of the items shows.
pub open spec fn shown_cells(items: Seq<(IVec3, char)>) -> Set<(IVec3, char)> {
    Set::new(|e: (IVec3, char)| shown(items, e.0, e.1))
}

/// What a character map of the items shows in sector slice `s`.
pub open spec fn slice_shown(items: Seq<(IVec3, char)>, s: IVec3) -> Set<(IVec3, char)> {
    Set::new(|e: (IVec3, char)| spec_sector(e.0) == s && shown(items, e.0, e.1))
}

/// What a character map of the items shows in any of the given slices.
pub open spec fn slices_shown(items: Seq<(IVec3, char)>, done: Seq<IVec3>) -> Set<(IVec3, char)> {
    Set::new(|e: (IVec3, char)| done.contains(spec_sector(e.0)) && shown(items, e.0, e.1))
}

/// Positions of the first `n` items that are not the null character.
pub open spec fn live_points(items: Seq<(IVec3, char)>, n: int) -> Seq<IVec3>
    decreases n,
{
    if n <= 0 {
        Seq::empty()
    } else if items[n - 1].1 != '\0' {
        live_points(items, n - 1).push(items[n - 1].0)
    } else {
        live_points(items, n - 1)
    }
}

/// Character at position `b` of the bin of slice `s` after the first `n`
/// items.
pub open spec fn slice_char(items: Seq<(IVec3, char)>, n: int, s: IVec3, b: IVec2) -> Option<char> {
    if 0 <= b.x < SECTOR_WIDTH && 0 <= b.y < SECTOR_HEIGHT {
        last_char(items, n, spec_ivec3(s.x + b.x, s.y + b.y, s.z as int))
    } else {
        None
    }
}

/// Items that can go in a character map.
pub open spec fn items_ok(items: Seq<(IVec3, char)>) -> bool {
    forall|i: int| 0 <= i < items.len() ==> encodable((#[trigger] items[i]).0) && items[i].1 != '\n'
}

/// A last character was written by one of the items.
proof fn lemma_last_char(items: Seq<(IVec3, char)>, n: int, q: IVec3)
    requires
        0 <= n <= items.len(),
    ensures
        last_char(items, n, q) matches Some(c) ==> exists|k: int|
            0 <= k < n && #[trigger] items[k] == (q, c) && c != '\0',
        (exists|k: int| 0 <= k < n && (#[trigger] items[k]).0 == q && items[k].1 != '\0')
            ==> last_char(items, n, q) is Some,
    decreases n,
{
    if n > 0 {
        lemma_last_char(items, n - 1, q);
        if items[n - 1].0 == q && items[n - 1].1 != '\0' {
            assert(items[n - 1] == (q, items[n - 1].1));
        } else {
            if exists|k: int| 0 <= k < n && (#[trigger] items[k]).0 == q && items[k].1 != '\0' {
                let k = choose|k: int| 0 <= k < n && (#[trigger] items[k]).0 == q && items[k].1 != '\0';
                assert(k != n - 1);
            }
        }
    }
}

/// Live positions come from items that are not null.
proof fn lemma_live_points(items: Seq<(IVec3, char)>, n: int)
    requires
        0 <= n <= items.len(),
    ensures
        forall|j: int|
            0 <= j < live_points(items, n).len() ==> exists|k: int|
                0 <= k < n && items[k].0 == #[trigger] live_points(items, n)[j] && items[k].1 != '\0',
        forall|k: int|
            0 <= k < n && (#[trigger] items[k]).1 != '\0' ==> live_points(items, n).contains(items[k].0),
    decreases n,
{
    if n > 0 {
        lemma_live_points(items, n - 1);
        let prev = live_points(items, n - 1);
        let cur = live_points(items, n);
        assert forall|j: int| 0 <= j < cur.len() implies exists|k: int|
            0 <= k < n && items[k].0 == #[trigger] cur[j] && items[k].1 != '\0' by {
            if j < prev.len() {
                assert(cur[j] == prev[j]);
            } else {
                assert(items[n - 1].0 == cur[j]);
            }
        }
        assert forall|k: int| 0 <= k < n && (#[trigger] items[k]).1 != '\0' implies cur.contains(items[k].0) by {
            if k < n - 1 {
                assert(prev.contains(items[k].0));
                let j = choose|j: int| 0 <= j < prev.len() && prev[j] == items[k].0;
                if items[n - 1].1 != '\0' {
                    assert(cur[j] == prev[j]);
                }
            } else {
                assert(cur[cur.len() - 1] == items[k].0);
            }
        }
    }
}

/// An offset within the sector box stays in the sector of its origin.
proof fn lemma_sector_offset(l: IVec3, b: IVec2)
    requires
        encodable(l),
        0 <= b.x < SECTOR_WIDTH,
        0 <= b.y < SECTOR_HEIGHT,
    ensures
        spec_sector(
            spec_ivec3(spec_sector(l).x + b.x, spec_sector(l).y + b.y, spec_sector(l).z as int),
        ) == spec_sector(l),
{
    lemma_rel_pos(l);
}

/// Positions of the non-null items, in order.
fn live_positions(items: &Vec<(IVec3, char)>) -> (r: Vec<IVec3>)
    ensures
        r@ == live_points(items@, items@.len() as int),
{
    let n = items.len();
    let mut out: Vec<IVec3> = Vec::new();
    let mut i: usize = 0;
    while i < n
        invariant
            n == items@.len(),
            i <= n,
            out@ == live_points(items@, i as int),
        decreases n - i,
    {
        if items[i].1 != '\0' {
            out.push(items[i].0);
        }
        i += 1;
    }
    out
}

/// The characters of the items in sector slice `s`, by position relative to
/// the slice; a later item at the same position replaces an earlier one.
fn char_bin_of(items: &Vec<(IVec3, char)>, s: IVec3) -> (bin: AssocMap<IVec2, char>)
    requires
        items_ok(items@),
        exists|k: int| 0 <= k < items@.len() && spec_sector(#[trigger] items@[k].0) == s,
    ensures
        bin.wf(),
        forall|b: IVec2| #[trigger] seq_get(bin@, b) == slice_char(items@, items@.len() as int, s, b),
{
    let ghost k0 = choose|k: int| 0 <= k < items@.len() && spec_sector(#[trigger] items@[k].0) == s;
    proof {
        lemma_rel_pos(items@[k0].0);
    }
    let n = items.len();
    let mut bin: AssocMap<IVec2, char> = AssocMap::new();
    let mut i: usize = 0;
    while i < n
        invariant
            n == items@.len(),
            i <= n,
            items_ok(items@),
            s == spec_sector(items@[k0].0),
            encodable(items@[k0].0),
            bin.wf(),
            forall|b: IVec2| #[trigger] seq_get(bin@, b) == slice_char(items@, i as int, s, b),
        decreases n - i,
    {
        let (q, c) = items[i];
        proof {
            lemma_rel_pos(q);
        }
        let ghost before = bin@;
        let qs = q.sector_snap_2d();
        if c != '\0' && qs == s {
            let b0 = ivec2(q.x - s.x, q.y - s.y);
            bin.insert(b0, c);
            proof {
                assert forall|b: IVec2| #[trigger] seq_get(bin@, b) == slice_char(items@, i + 1, s, b) by {
                    lemma_insert_get(before, b0, c, b);
                    if 0 <= b.x < SECTOR_WIDTH && 0 <= b.y < SECTOR_HEIGHT {
                        let t = spec_ivec3(s.x + b.x, s.y + b.y, s.z as int);
                        if b == b0 {
                            assert(t == q);
                        }
                        if t == q {
                            assert(b == b0);
                        }
                    }
                }
            }
        } else {
            proof {
                assert forall|b: IVec2| #[trigger] seq_get(bin@, b) == slice_char(items@, i + 1, s, b) by {
                    if 0 <= b.x < SECTOR_WIDTH && 0 <= b.y < SECTOR_HEIGHT {
                        let t = spec_ivec3(s.x + b.x, s.y + b.y, s.z as int);
                        if t == q && c != '\0' {
                            lemma_sector_offset(items@[k0].0, b);
                        }
                    }
                }
            }
        }
        i += 1;
    }
    bin
}

/// Text patch of what a character map of the items shows in slice `s`.
fn encode_slice_chars(items: &Vec<(IVec3, char)>, s: IVec3) -> (e: (IVec3, Vec<char>))
    requires
        items_ok(items@),
        exists|k: int|
            0 <= k < items@.len() && spec_sector((#[trigger] items@[k]).0) == s && items@[k].1 != '\0',
    ensures
        small_loc(e.0),
        e.1@.len() < 0x0000_1000,
        text_cells(e.0, e.1@, e.1@.len() as int).to_set() == slice_shown(items@, s),
{
    let ghost n = items@.len() as int;
    let ghost k0 = choose|k: int|
        0 <= k < items@.len() && spec_sector((#[trigger] items@[k]).0) == s && items@[k].1 != '\0';
    let ghost q0 = items@[k0].0;
    proof {
        lemma_rel_pos(q0);
    }
    let bin = char_bin_of(items, s);
    proof {
        let b0 = spec_ivec2(q0.x - s.x, q0.y - s.y);
        lemma_last_char(items@, n, q0);
        assert(seq_get(bin@, b0) == slice_char(items@, n, s, b0));
        assert(spec_ivec3(s.x + b0.x, s.y + b0.y, s.z as int) == q0);
        assert(seq_has_key(bin@, b0));
        assert forall|i: int| 0 <= i < bin@.len() implies 0 <= (#[trigger] bin@[i]).0.x < SECTOR_WIDTH
            && 0 <= bin@[i].0.y < SECTOR_HEIGHT && bin@[i].1 != '\n' by {
            lemma_key_index(bin@, i);
            let b = bin@[i].0;
            assert(seq_get(bin@, b) == slice_char(items@, n, s, b));
            let t = spec_ivec3(s.x + b.x, s.y + b.y, s.z as int);
            lemma_last_char(items@, n, t);
            let k = choose|k: int| 0 <= k < n && #[trigger] items@[k] == (t, bin@[i].1) && bin@[i].1 != '\0';
            assert(items@[k].1 != '\n');
        }
        assert(char_bin_ok(bin@));
        lemma_rel_pos(q0);
    }
    let e = encode_char_bin(s, &bin);
    proof {
        assert forall|x: (IVec3, char)|
            text_cells(e.0, e.1@, e.1@.len() as int).to_set().contains(x) <==> slice_shown(items@, s).contains(x) by {
            let (q, c) = x;
            assert(text_cells(e.0, e.1@, e.1@.len() as int).contains((q, c)) <==> bin_has(s, bin@, q, c));
            let b = spec_ivec2(q.x - s.x, q.y - s.y);
            if bin_has(s, bin@, q, c) {
                assert(seq_get(bin@, b) == slice_char(items@, n, s, b));
                assert(spec_ivec3(s.x + b.x, s.y + b.y, s.z as int) == q);
                lemma_sector_offset(q0, b);
            }
            if spec_sector(q) == s && shown(items@, q, c) {
                lemma_last_char(items@, n, q);
                let k = choose|k: int| 0 <= k < n && #[trigger] items@[k] == (q, c) && c != '\0';
                assert(encodable(items@[k].0));
                lemma_rel_pos(q);
                assert(seq_get(bin@, b) == slice_char(items@, n, s, b));
                assert(spec_ivec3(s.x + b.x, s.y + b.y, s.z as int) == q);
            }
        }
        assert(text_cells(e.0, e.1@, e.1@.len() as int).to_set() =~= slice_shown(items@, s));
    }
    e
}

/// Adding the patch of one more slice adds exactly what that slice shows.
proof fn lemma_char_atlas_step(
    e: Seq<(IVec3, Seq<char>)>,
    ev: (IVec3, Seq<char>),
    items: Seq<(IVec3, char)>,
    done: Seq<IVec3>,
    s: IVec3,
)
    requires
        atlas_cells(e).to_set() == slices_shown(items, done),
        text_cells(ev.0, ev.1, ev.1.len() as int).to_set() == slice_shown(items, s),
    ensures
        atlas_cells(e.push(ev)).to_set() == slices_shown(items, done.push(s)),
{
    assert(e.push(ev).drop_last() =~= e);
    assert(e.push(ev).last() == ev);
    assert(atlas_cells(e.push(ev)) == atlas_cells(e) + text_cells(ev.0, ev.1, ev.1.len() as int));
    assert forall|x: (IVec3, char)|
        atlas_cells(e.push(ev)).to_set().contains(x) <==> slices_shown(items, done.push(s)).contains(x) by {
        lemma_concat_contains(atlas_cells(e), text_cells(ev.0, ev.1, ev.1.len() as int), x);
        assert(atlas_cells(e).to_set().contains(x) == atlas_cells(e).contains(x));
        assert(slices_shown(items, done).contains(x) == (done.contains(spec_sector(x.0)) && shown(items, x.0, x.1)));
        assert(slice_shown(items, s).contains(x) == (spec_sector(x.0) == s && shown(items, x.0, x.1)));
        lemma_push_contains(done, s, spec_sector(x.0));
    }
    assert(atlas_cells(e.push(ev)).to_set() =~= slices_shown(items, done.push(s)));
}

impl Atlas {
    /// Encode a character map as text patches, one per sector slice that
    /// holds any of its characters, in the order in which the slices first
    /// occur. The null character stands for nothing, and a later character
    /// at the same location replaces an earlier one.
    pub fn from_cells(items: &Vec<(IVec3, char)>) -> (r: Atlas)
        requires
            items_ok(items@),
        ensures
            r.decodable(),
            atlas_cells(r.patches()).to_set() == shown_cells(items@),
    {
        let pts = live_positions(items);
        proof {
            lemma_live_points(items@, items@.len() as int);
            assert forall|i: int| 0 <= i < pts@.len() implies encodable(#[trigger] pts@[i]) by {
                let k = choose|k: int| 0 <= k < items@.len() && items@[k].0 == pts@[i] && items@[k].1 != '\0';
                assert(encodable(items@[k].0));
            }
        }
        let slices = collect_slices(&pts);
        let m = slices.len();
        let mut entries: Vec<(IVec3, Vec<char>)> = Vec::new();
        let mut j: usize = 0;
        while j < m
            invariant
                m == slices@.len(),
                j <= m,
                entries@.len() == j,
                items_ok(items@),
                forall|k: int| 0 <= k < pts@.len() ==> slices@.contains(spec_sector(#[trigger] pts@[k])),
                forall|jj: int| 0 <= jj < slices@.len() ==> seen_slice(pts@, pts@.len() as int, #[trigger] slices@[jj]),
                forall|jj: int|
                    0 <= jj < pts@.len() ==> exists|k: int|
                        0 <= k < items@.len() && items@[k].0 == #[trigger] pts@[jj] && items@[k].1 != '\0',
                forall|t: int|
                    0 <= t < j ==> small_loc((#[trigger] entries_view(entries@)[t]).0)
                        && entries_view(entries@)[t].1.len() < 0x0000_1000,
                atlas_cells(entries_view(entries@)).to_set() == slices_shown(items@, slices@.take(j as int)),
            decreases m - j,
        {
            let s = slices[j];
            proof {
                assert(seen_slice(pts@, pts@.len() as int, slices@[j as int]));
                let kp = choose|k: int| 0 <= k < pts@.len() && spec_sector(#[trigger] pts@[k]) == s;
                let k = choose|k: int| 0 <= k < items@.len() && items@[k].0 == pts@[kp] && items@[k].1 != '\0';
                assert(spec_sector(items@[k].0) == s);
            }
            let e = encode_slice_chars(items, s);
            let ghost old_entries = entries@;
            let ghost ev = (e.0, e.1@);
            entries.push(e);
            proof {
                assert(entries_view(entries@) =~= entries_view(old_entries).push(ev));
                assert(slices@.take(j + 1) =~= slices@.take(j as int).push(s));
                lemma_char_atlas_step(entries_view(old_entries), ev, items@, slices@.take(j as int), s);
                assert forall|t: int| 0 <= t < j + 1 implies small_loc(
                    (#[trigger] entries_view(entries@)[t]).0,
                ) && entries_view(entries@)[t].1.len() < 0x0000_1000 by {
                    if t < j {
                        assert(entries_view(entries@)[t] == entries_view(old_entries)[t]);
                    }
                }
            }
            j += 1;
        }
        let r = Atlas { entries };
        proof {
            assert(slices@.take(m as int) =~= slices@);
            assert forall|x: (IVec3, char)| slices_shown(items@, slices@).contains(x) <==> shown_cells(items@).contains(x) by {
                if shown(items@, x.0, x.1) {
                    lemma_last_char(items@, items@.len() as int, x.0);
                    let k = choose|k: int| 0 <= k < items@.len() && #[trigger] items@[k] == (x.0, x.1) && x.1 != '\0';
                    assert(items@[k].1 != '\0');
                    assert(pts@.contains(items@[k].0));
                    let kp = choose|kp: int| 0 <= kp < pts@.len() && pts@[kp] == items@[k].0;
                    assert(slices@.contains(spec_sector(pts@[kp])));
                }
            }
            assert(slices_shown(items@, slices@) =~= shown_cells(items@));
        }
        r
    }
}

} // verus!
