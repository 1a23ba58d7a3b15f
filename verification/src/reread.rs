//! Reading a written patch map back: the text that a patch is written to
//! parses to the same terrain, spawns and entrance.

use vstd::prelude::*;

use crate::assoc::{
    keys_distinct, lemma_insert_get, lemma_key_index, seq_get, seq_has_key, seq_insert, seq_key_index,
};
use crate::geom::{IVec2, Rect, spec_ivec2};
use crate::map_tile::MapTile;
use crate::patch::{FlatPatch, PatchData, Spawn, cursor, cursor_pos, legend_get, parse_prefix, PatchModel, spawn_names};
use crate::patch_text::{
    Lettering, cell_char, legend_lettering, lemma_points_in_bounds, letter_of, lettering_has,
    lettering_wf, map_text, patch_points, points_boundable, points_bounds, row_chars,
    row_has_content, trim_end, pool_char, lemma_pool_chars, spec_legend_pool, spec_letters,
};
use crate::sector_map::{grid_cells, lemma_grid_cells_distinct};
use crate::text::spec_is_whitespace;

verus! {

/// A map character that parsing accepts: blank, the entrance, a legend
/// letter or a terrain character.
pub open spec fn char_ok(c: char, legend: Seq<(char, Spawn)>) -> bool {
    spec_is_whitespace(c) || c == '@' || legend_get(legend, c) is Some || MapTile::spec_from_char(
        c,
    ) is Some
}

/// Terrain that parsing puts under a non-blank map character.
pub open spec fn parsed_tile(c: char, legend: Seq<(char, Spawn)>) -> MapTile {
    if c == '@' || legend_get(legend, c) is Some {
        MapTile::Ground
    } else {
        MapTile::spec_from_char(c).unwrap()
    }
}

/// Spawn name that parsing reads from a non-blank map character.
pub open spec fn parsed_spawn(c: char, legend: Seq<(char, Spawn)>) -> Option<Seq<char>> {
    if c == '@' {
        None
    } else {
        legend_get(legend, c)
    }
}

/// Position of the last entrance mark among the cells.
pub open spec fn last_entrance(cells: Seq<(IVec2, char)>) -> Option<IVec2>
    decreases cells.len(),
{
    if cells.len() == 0 {
        None
    } else if cells.last().1 == '@' {
        Some(cells.last().0)
    } else {
        last_entrance(cells.drop_last())
    }
}

/// Pushing an entry with a new key is inserting it.
proof fn lemma_push_get<K, T>(s: Seq<(K, T)>, k: K, v: T, q: K)
    requires
        keys_distinct(s),
        !seq_has_key(s, k),
    ensures
        keys_distinct(s.push((k, v))),
        seq_get(s.push((k, v)), q) == if q == k {
            Some(v)
        } else {
            seq_get(s, q)
        },
        seq_has_key(s.push((k, v)), q) == (q == k || seq_has_key(s, q)),
{
    assert(seq_insert(s, k, v) == s.push((k, v)));
    lemma_insert_get(s, k, v, q);
}

/// Parsing fails exactly when some character of the text is not accepted,
/// and then it names the first such character.
pub proof fn lemma_parse_error(s: Seq<char>, legend: Seq<(char, Spawn)>, n: int)
    requires
        0 <= n <= s.len(),
    ensures
        parse_prefix(s, legend, n) is Err <==> exists|i: int|
            0 <= i < n && !char_ok(#[trigger] s[i], legend),
        parse_prefix(s, legend, n) matches Err(c) ==> exists|i: int|
            0 <= i < n && !char_ok(#[trigger] s[i], legend) && c == s[i] && forall|j: int|
                0 <= j < i ==> char_ok(#[trigger] s[j], legend),
    decreases n,
{
    if n > 0 {
        lemma_parse_error(s, legend, n - 1);
        if parse_prefix(s, legend, n - 1) is Ok {
            assert(forall|j: int| 0 <= j < n - 1 ==> char_ok(#[trigger] s[j], legend));
            if !char_ok(s[n - 1], legend) {
                assert(parse_prefix(s, legend, n) == Err::<PatchModel, char>(s[n - 1]));
            }
        } else {
            let i = choose|i: int| 0 <= i < n - 1 && !char_ok(#[trigger] s[i], legend);
            assert(!char_ok(s[i], legend));
        }
    }
}

/// Parsing a text whose characters are all accepted succeeds, and what it
/// reads at each grid position is what the character there stands for.
pub proof fn lemma_parse_cells(s: Seq<char>, legend: Seq<(char, Spawn)>, n: int)
    requires
        0 <= n <= s.len(),
        s.len() < i32::MAX,
        forall|i: int| 0 <= i < n ==> char_ok(#[trigger] s[i], legend),
    ensures
        parse_prefix(s, legend, n) is Ok,
        keys_distinct(parse_prefix(s, legend, n).unwrap().0),
        keys_distinct(parse_prefix(s, legend, n).unwrap().1),
        forall|q: IVec2|
            #[trigger] seq_get(parse_prefix(s, legend, n).unwrap().0, q) == match seq_get(
                grid_cells(s, n),
                q,
            ) {
                Some(c) => Some(parsed_tile(c, legend)),
                None => None,
            },
        forall|q: IVec2|
            #[trigger] seq_get(parse_prefix(s, legend, n).unwrap().1, q) == match seq_get(
                grid_cells(s, n),
                q,
            ) {
                Some(c) => parsed_spawn(c, legend),
                None => None,
            },
        parse_prefix(s, legend, n).unwrap().2 == last_entrance(grid_cells(s, n)),
    decreases n,
{
    if n > 0 {
        lemma_parse_cells(s, legend, n - 1);
        lemma_grid_cells_distinct(s, n - 1);
        lemma_grid_cells_distinct(s, n);
        let m = parse_prefix(s, legend, n - 1).unwrap();
        let prev = grid_cells(s, n - 1);
        let c = s[n - 1];
        let p = cursor_pos(s, n - 1);
        assert(char_ok(s[n - 1], legend));
        if !spec_is_whitespace(c) {
            let g = grid_cells(s, n);
            assert(g == prev.push((p, c)));
            assert(g.drop_last() == prev);
            assert(g.last() == (p, c));
            assert(!seq_has_key(prev, p)) by {
                if seq_has_key(prev, p) {
                    let k = choose|k: int| 0 <= k < prev.len() && (#[trigger] prev[k]).0 == p;
                    assert(g[k].0 == g[prev.len() as int].0);
                }
            }
            assert(seq_get(m.0, p) is None);
            assert(seq_get(m.1, p) is None);
            let r = parse_prefix(s, legend, n).unwrap();
            assert forall|q: IVec2| #[trigger] seq_get(r.0, q) == match seq_get(g, q) {
                Some(c) => Some(parsed_tile(c, legend)),
                None => None,
            } by {
                lemma_push_get(prev, p, c, q);
                lemma_insert_get(m.0, p, parsed_tile(c, legend), q);
            }
            assert forall|q: IVec2| #[trigger] seq_get(r.1, q) == match seq_get(g, q) {
                Some(c) => parsed_spawn(c, legend),
                None => None,
            } by {
                lemma_push_get(prev, p, c, q);
                if c != '@' && legend_get(legend, c) is Some {
                    lemma_insert_get(m.1, p, legend_get(legend, c).unwrap(), q);
                } else {
                    if q == p {
                        assert(seq_get(r.1, q) == seq_get(m.1, p));
                    }
                }
            }
            lemma_insert_get(m.0, p, parsed_tile(c, legend), p);
            if c != '@' && legend_get(legend, c) is Some {
                lemma_insert_get(m.1, p, legend_get(legend, c).unwrap(), p);
            }
        }
    }
}

/// Cursor and cells of a text depend only on the characters before the
/// index.
proof fn lemma_prefix_same(s1: Seq<char>, s2: Seq<char>, n: int)
    requires
        0 <= n <= s1.len(),
        n <= s2.len(),
        forall|i: int| 0 <= i < n ==> s1[i] == s2[i],
    ensures
        cursor(s1, n) == cursor(s2, n),
        grid_cells(s1, n) == grid_cells(s2, n),
    decreases n,
{
    if n > 0 {
        lemma_prefix_same(s1, s2, n - 1);
        assert(s1[n - 1] == s2[n - 1]);
    }
}

/// The non-blank characters among the first `i` of a row text, at their
/// columns in row `y`.
pub open spec fn row_cells(r: Seq<char>, i: int, y: int) -> Seq<(IVec2, char)>
    decreases i,
{
    if i <= 0 {
        Seq::empty()
    } else {
        let prev = row_cells(r, i - 1, y);
        if spec_is_whitespace(r[i - 1]) {
            prev
        } else {
            prev.push((spec_ivec2(i - 1, y), r[i - 1]))
        }
    }
}

/// Writing a row without line breaks after a text that ends at the start of
/// row `y` adds the row's non-blank characters at their columns.
proof fn lemma_append_row(a: Seq<char>, b: Seq<char>, i: int)
    requires
        0 <= i <= b.len(),
        cursor(a, a.len() as int).0 == 0,
        forall|j: int| 0 <= j < b.len() ==> b[j] != '\n',
    ensures
        cursor(a + b, a.len() + i) == (i, cursor(a, a.len() as int).1),
        grid_cells(a + b, a.len() + i) == grid_cells(a, a.len() as int) + row_cells(
            b,
            i,
            cursor(a, a.len() as int).1,
        ),
    decreases i,
{
    let y = cursor(a, a.len() as int).1;
    if i == 0 {
        lemma_prefix_same(a + b, a, a.len() as int);
        assert(grid_cells(a, a.len() as int) + row_cells(b, 0, y) == grid_cells(a, a.len() as int));
    } else {
        lemma_append_row(a, b, i - 1);
        let s = a + b;
        assert(s[a.len() + i - 1] == b[i - 1]);
        let g = grid_cells(a, a.len() as int);
        if !spec_is_whitespace(b[i - 1]) {
            assert(g + row_cells(b, i - 1, y).push((spec_ivec2(i - 1, y), b[i - 1])) == (g
                + row_cells(b, i - 1, y)).push((spec_ivec2(i - 1, y), b[i - 1])));
        }
    }
}

/// Blank characters at the end of a row add no cells.
proof fn lemma_row_cells_tail(r: Seq<char>, j: int, i: int, y: int)
    requires
        0 <= j <= i <= r.len(),
        forall|m: int| j <= m < i ==> spec_is_whitespace(#[trigger] r[m]),
    ensures
        row_cells(r, i, y) == row_cells(r, j, y),
    decreases i - j,
{
    if i > j {
        lemma_row_cells_tail(r, j, i - 1, y);
        assert(spec_is_whitespace(r[i - 1]));
    }
}

/// Row cells depend only on the characters before the index.
proof fn lemma_row_cells_prefix(r1: Seq<char>, r2: Seq<char>, i: int, y: int)
    requires
        0 <= i <= r1.len(),
        i <= r2.len(),
        forall|m: int| 0 <= m < i ==> r1[m] == r2[m],
    ensures
        row_cells(r1, i, y) == row_cells(r2, i, y),
    decreases i,
{
    if i > 0 {
        lemma_row_cells_prefix(r1, r2, i - 1, y);
        assert(r1[i - 1] == r2[i - 1]);
    }
}

/// Trimming a text whose second part has a non-blank character trims only
/// the second part.
proof fn lemma_trim_concat(a: Seq<char>, b: Seq<char>)
    requires
        exists|m: int| 0 <= m < b.len() && !spec_is_whitespace(#[trigger] b[m]),
    ensures
        trim_end(a + b) == a + trim_end(b),
    decreases b.len(),
{
    let m = choose|m: int| 0 <= m < b.len() && !spec_is_whitespace(#[trigger] b[m]);
    assert((a + b).last() == b.last());
    if spec_is_whitespace(b.last()) {
        assert(m < b.len() - 1);
        assert(b.drop_last()[m] == b[m]);
        assert((a + b).drop_last() == a + b.drop_last());
        lemma_trim_concat(a, b.drop_last());
    }
}

/// Trimming keeps a prefix and removes only blanks.
proof fn lemma_trim_shape(b: Seq<char>)
    ensures
        trim_end(b).len() <= b.len(),
        trim_end(b) == b.take(trim_end(b).len() as int),
        forall|m: int| trim_end(b).len() <= m < b.len() ==> spec_is_whitespace(#[trigger] b[m]),
    decreases b.len(),
{
    if b.len() > 0 && spec_is_whitespace(b.last()) {
        lemma_trim_shape(b.drop_last());
        let t = trim_end(b.drop_last());
        assert(b.drop_last().take(t.len() as int) == b.take(t.len() as int));
        assert forall|m: int| t.len() <= m < b.len() implies spec_is_whitespace(#[trigger] b[m]) by {
            if m < b.len() - 1 {
                assert(b.drop_last()[m] == b[m]);
            }
        }
    } else {
        assert(b.take(b.len() as int) == b);
    }
}

/// The characters of a written row: each cell's character, or a blank.
proof fn lemma_row_chars(
    t: Seq<(IVec2, MapTile)>,
    sp: Seq<(IVec2, Seq<char>)>,
    e: Option<IVec2>,
    l: Lettering,
    y: int,
    x0: int,
    k: int,
)
    requires
        k >= 0,
    ensures
        row_chars(t, sp, e, l, y, x0, k).len() == k,
        forall|i: int|
            0 <= i < k ==> (#[trigger] row_chars(t, sp, e, l, y, x0, k)[i]) == match cell_char(
                t,
                sp,
                e,
                l,
                spec_ivec2(x0 + i, y),
            ) {
                Some(c) => c,
                None => if row_has_content(t, sp, e, l, y, x0, i) {
                    ' '
                } else {
                    '\u{a0}'
                },
            },
    decreases k,
{
    if k > 0 {
        lemma_row_chars(t, sp, e, l, y, x0, k - 1);
        let r = row_chars(t, sp, e, l, y, x0, k);
        let prev = row_chars(t, sp, e, l, y, x0, k - 1);
        assert forall|i: int| 0 <= i < k - 1 implies #[trigger] r[i] == prev[i] by {}
    }
}

/// A row with content has a cell with a character.
proof fn lemma_row_content(
    t: Seq<(IVec2, MapTile)>,
    sp: Seq<(IVec2, Seq<char>)>,
    e: Option<IVec2>,
    l: Lettering,
    y: int,
    x0: int,
    k: int,
)
    requires
        row_has_content(t, sp, e, l, y, x0, k),
    ensures
        exists|m: int| 0 <= m < k && (#[trigger] cell_char(t, sp, e, l, spec_ivec2(x0 + m, y))) is Some,
    decreases k,
{
    if k > 0 {
        if cell_char(t, sp, e, l, spec_ivec2(x0 + k - 1, y)) is Some {
            assert(spec_ivec2(x0 + (k - 1), y) == spec_ivec2(x0 + k - 1, y));
            assert(cell_char(t, sp, e, l, spec_ivec2(x0 + (k - 1), y)) is Some);
        } else {
            lemma_row_content(t, sp, e, l, y, x0, k - 1);
        }
    }
}

/// Cells of the first `k` rows of a written map of width `w`.
pub open spec fn all_rows(
    t: Seq<(IVec2, MapTile)>,
    sp: Seq<(IVec2, Seq<char>)>,
    e: Option<IVec2>,
    l: Lettering,
    w: int,
    k: int,
) -> Seq<(IVec2, char)>
    decreases k,
{
    if k <= 0 {
        Seq::empty()
    } else {
        all_rows(t, sp, e, l, w, k - 1) + row_cells(row_text(t, sp, e, l, w, k - 1), w, k - 1)
    }
}

/// Every cell's character, where there is one, is neither blank nor a line
/// break.
pub open spec fn cells_plain(
    t: Seq<(IVec2, MapTile)>,
    sp: Seq<(IVec2, Seq<char>)>,
    e: Option<IVec2>,
    l: Lettering,
) -> bool {
    forall|q: IVec2|
        #[trigger] cell_char(t, sp, e, l, q) matches Some(c) ==> !spec_is_whitespace(c) && c != '\n'
}

/// The cells of a written map are the non-blank characters of its rows, row
/// by row, when every row has content.
proof fn lemma_map_text_cells(
    t: Seq<(IVec2, MapTile)>,
    sp: Seq<(IVec2, Seq<char>)>,
    e: Option<IVec2>,
    l: Lettering,
    b: Rect,
    k: int,
)
    requires
        b.min.x == 0 && b.min.y == 0,
        b.max.x >= 0,
        0 <= k <= b.max.y,
        cells_plain(t, sp, e, l),
        forall|y: int| 0 <= y < b.max.y ==> #[trigger] row_has_content(t, sp, e, l, y, 0, b.max.x as int),
    ensures
        grid_cells(map_text(t, sp, e, l, b, k), map_text(t, sp, e, l, b, k).len() as int) == all_rows(
            t,
            sp,
            e,
            l,
            b.max.x as int,
            k,
        ),
        0 < k < b.max.y ==> cursor(map_text(t, sp, e, l, b, k), map_text(t, sp, e, l, b, k).len() as int)
            == (0int, k),
        k == 0 ==> map_text(t, sp, e, l, b, k).len() == 0,
    decreases k,
{
    if k > 0 {
        let w = b.max.x as int;
        let h = b.max.y as int;
        lemma_map_text_cells(t, sp, e, l, b, k - 1);
        let a = map_text(t, sp, e, l, b, k - 1);
        let r = row_chars(t, sp, e, l, b.min.y + k - 1, b.min.x as int, b.max.x - b.min.x);
        assert(r == row_chars(t, sp, e, l, k - 1, 0, w));
        lemma_row_chars(t, sp, e, l, k - 1, 0, w);
        assert(row_has_content(t, sp, e, l, k - 1, 0, w));
        lemma_row_content(t, sp, e, l, k - 1, 0, w);
        let m = choose|m: int| 0 <= m < w && (#[trigger] cell_char(t, sp, e, l, spec_ivec2(0 + m, k - 1))) is Some;
        assert(!spec_is_whitespace(r[m]));
        lemma_trim_concat(a, r);
        lemma_trim_shape(r);
        let tr = trim_end(r);
        let j = tr.len() as int;
        assert forall|i: int| 0 <= i < tr.len() implies tr[i] != '\n' by {
            assert(tr[i] == r[i]);
            if cell_char(t, sp, e, l, spec_ivec2(0 + i, k - 1)) is None {
                assert(r[i] == ' ' || r[i] == '\u{a0}');
            }
        }
        if k - 1 == 0 {
            assert(a.len() == 0);
        }
        assert(cursor(a, a.len() as int).0 == 0);
        lemma_append_row(a, tr, j);
        let x = trim_end(a + r);
        assert(x == a + tr);
        lemma_row_cells_prefix(tr, r, j, k - 1);
        lemma_row_cells_tail(r, j, w, k - 1);
        assert(cursor(a, a.len() as int).1 == k - 1) by {
            if k - 1 == 0 {
                assert(a.len() == 0);
            }
        }
        assert(grid_cells(x, x.len() as int) == all_rows(t, sp, e, l, w, k));
        if k < h {
            let y2 = x.push('\n');
            assert(map_text(t, sp, e, l, b, k) == y2);
            lemma_prefix_same(y2, x, x.len() as int);
            assert(y2[x.len() as int] == '\n');
        } else {
            assert(map_text(t, sp, e, l, b, k) == x);
        }
    }
}

/// Each entry of a row's cells is a non-blank character of the row at its
/// column, and each non-blank character of the row has an entry.
proof fn lemma_row_cells_member(r: Seq<char>, i: int, y: int)
    requires
        0 <= i <= r.len(),
    ensures
        forall|k: int|
            0 <= k < row_cells(r, i, y).len() ==> exists|x: int|
                0 <= x < i && !spec_is_whitespace(r[x]) && #[trigger] row_cells(r, i, y)[k] == (
                    spec_ivec2(x, y),
                    r[x],
                ),
        forall|x: int|
            0 <= x < i && !spec_is_whitespace(#[trigger] r[x]) ==> exists|k: int|
                0 <= k < row_cells(r, i, y).len() && row_cells(r, i, y)[k] == (spec_ivec2(x, y), r[x]),
    decreases i,
{
    if i > 0 {
        lemma_row_cells_member(r, i - 1, y);
        let prev = row_cells(r, i - 1, y);
        let cur = row_cells(r, i, y);
        assert forall|k: int| 0 <= k < cur.len() implies exists|x: int|
            0 <= x < i && !spec_is_whitespace(r[x]) && #[trigger] cur[k] == (spec_ivec2(x, y), r[x]) by {
            if k < prev.len() {
                assert(cur[k] == prev[k]);
            } else {
                assert(cur[k] == (spec_ivec2(i - 1, y), r[i - 1]));
            }
        }
        assert forall|x: int| 0 <= x < i && !spec_is_whitespace(#[trigger] r[x]) implies exists|k: int|
            0 <= k < cur.len() && cur[k] == (spec_ivec2(x, y), r[x]) by {
            if x < i - 1 {
                let k = choose|k: int| 0 <= k < prev.len() && prev[k] == (spec_ivec2(x, y), r[x]);
                assert(cur[k] == prev[k]);
            } else {
                assert(cur[prev.len() as int] == (spec_ivec2(x, y), r[x]));
            }
        }
    }
}

/// Text of row `y` of a written map of width `w`.
pub open spec fn row_text(
    t: Seq<(IVec2, MapTile)>,
    sp: Seq<(IVec2, Seq<char>)>,
    e: Option<IVec2>,
    l: Lettering,
    w: int,
    y: int,
) -> Seq<char> {
    row_chars(t, sp, e, l, y, 0, w)
}

/// A written row has one character per cell.
proof fn lemma_row_len(
    t: Seq<(IVec2, MapTile)>,
    sp: Seq<(IVec2, Seq<char>)>,
    e: Option<IVec2>,
    l: Lettering,
    y: int,
    x0: int,
    k: int,
)
    requires
        k >= 0,
    ensures
        row_chars(t, sp, e, l, y, x0, k).len() == k,
    decreases k,
{
    if k > 0 {
        lemma_row_len(t, sp, e, l, y, x0, k - 1);
    }
}

/// Each entry of the cells of the first `k` rows is a non-blank row
/// character at its column and row.
#[verifier::spinoff_prover]
proof fn lemma_all_rows_entries(
    t: Seq<(IVec2, MapTile)>,
    sp: Seq<(IVec2, Seq<char>)>,
    e: Option<IVec2>,
    l: Lettering,
    w: int,
    k: int,
)
    requires
        w >= 0,
        k >= 0,
    ensures
        forall|j: int|
            0 <= j < all_rows(t, sp, e, l, w, k).len() ==> exists|x: int, y: int|
                0 <= x < w && 0 <= y < k && !spec_is_whitespace(row_text(t, sp, e, l, w, y)[x])
                    && #[trigger] all_rows(t, sp, e, l, w, k)[j] == (
                    spec_ivec2(x, y),
                    row_text(t, sp, e, l, w, y)[x],
                ),
    decreases k,
{
    if k > 0 {
        lemma_all_rows_entries(t, sp, e, l, w, k - 1);
        let prev = all_rows(t, sp, e, l, w, k - 1);
        let r = row_text(t, sp, e, l, w, k - 1);
        lemma_row_len(t, sp, e, l, k - 1, 0, w);
        lemma_row_cells_member(r, w, k - 1);
        let rc = row_cells(r, w, k - 1);
        let cur = all_rows(t, sp, e, l, w, k);
        assert(cur == prev + rc);
        assert forall|j: int| 0 <= j < cur.len() implies exists|x: int, y: int|
            0 <= x < w && 0 <= y < k && !spec_is_whitespace(row_text(t, sp, e, l, w, y)[x])
                && #[trigger] cur[j] == (spec_ivec2(x, y), row_text(t, sp, e, l, w, y)[x]) by {
            if j < prev.len() {
                assert(cur[j] == prev[j]);
            } else {
                assert(cur[j] == rc[j - prev.len()]);
                let x = choose|x: int|
                    0 <= x < w && !spec_is_whitespace(r[x]) && #[trigger] rc[j - prev.len()] == (
                        spec_ivec2(x, k - 1),
                        r[x],
                    );
                assert(cur[j] == (spec_ivec2(x, k - 1), row_text(t, sp, e, l, w, k - 1)[x]));
            }
        }
    }
}

/// Each non-blank row character has an entry among the cells of the first
/// `k` rows.
#[verifier::spinoff_prover]
proof fn lemma_all_rows_complete(
    t: Seq<(IVec2, MapTile)>,
    sp: Seq<(IVec2, Seq<char>)>,
    e: Option<IVec2>,
    l: Lettering,
    w: int,
    k: int,
    x: int,
    y: int,
)
    requires
        w >= 0,
        0 <= x < w,
        0 <= y < k,
        !spec_is_whitespace(row_text(t, sp, e, l, w, y)[x]),
    ensures
        exists|j: int|
            0 <= j < all_rows(t, sp, e, l, w, k).len() && all_rows(t, sp, e, l, w, k)[j] == (
                spec_ivec2(x, y),
                row_text(t, sp, e, l, w, y)[x],
            ),
    decreases k,
{
    let prev = all_rows(t, sp, e, l, w, k - 1);
    let cur = all_rows(t, sp, e, l, w, k);
    assert(cur == prev + row_cells(row_text(t, sp, e, l, w, k - 1), w, k - 1));
    if y < k - 1 {
        lemma_all_rows_complete(t, sp, e, l, w, k - 1, x, y);
        let j = choose|j: int|
            0 <= j < prev.len() && prev[j] == (spec_ivec2(x, y), row_text(t, sp, e, l, w, y)[x]);
        assert(cur[j] == prev[j]);
    } else {
        let r = row_text(t, sp, e, l, w, k - 1);
        lemma_row_len(t, sp, e, l, k - 1, 0, w);
        lemma_row_cells_member(r, w, k - 1);
        let rc = row_cells(r, w, k - 1);
        let i = choose|i: int| 0 <= i < rc.len() && rc[i] == (spec_ivec2(x, k - 1), r[x]);
        assert(cur[prev.len() + i] == rc[i]);
    }
}

/// Looking a position up among the cells of a written map gives the cell's
/// character inside the map's rectangle and nothing outside.
proof fn lemma_map_cells_get(
    t: Seq<(IVec2, MapTile)>,
    sp: Seq<(IVec2, Seq<char>)>,
    e: Option<IVec2>,
    l: Lettering,
    w: int,
    h: int,
    q: IVec2,
)
    requires
        0 <= w <= i32::MAX,
        0 <= h <= i32::MAX,
        keys_distinct(all_rows(t, sp, e, l, w, h)),
        cells_plain(t, sp, e, l),
    ensures
        seq_get(all_rows(t, sp, e, l, w, h), q) == if 0 <= q.x < w && 0 <= q.y < h {
            cell_char(t, sp, e, l, q)
        } else {
            None
        },
{
    let a = all_rows(t, sp, e, l, w, h);
    lemma_all_rows_entries(t, sp, e, l, w, h);
    if 0 <= q.x < w && 0 <= q.y < h {
        let y = q.y as int;
        lemma_row_chars(t, sp, e, l, y, 0, w);
        assert(spec_ivec2(q.x as int, y) == q);
        assert(spec_ivec2(0 + q.x, y) == q);
        let c = row_text(t, sp, e, l, w, y)[q.x as int];
        if let Some(cc) = cell_char(t, sp, e, l, q) {
            assert(c == cc);
            lemma_all_rows_complete(t, sp, e, l, w, h, q.x as int, y);
            let j = choose|j: int| 0 <= j < a.len() && a[j] == (spec_ivec2(q.x as int, y), c);
            lemma_key_index(a, j);
        } else {
            assert(spec_is_whitespace(c));
            if seq_has_key(a, q) {
                let j = choose|j: int| 0 <= j < a.len() && (#[trigger] a[j]).0 == q;
                let (x, y2) = choose|x: int, y2: int|
                    0 <= x < w && 0 <= y2 < h && !spec_is_whitespace(row_text(t, sp, e, l, w, y2)[x])
                        && #[trigger] a[j] == (spec_ivec2(x, y2), row_text(t, sp, e, l, w, y2)[x]);
                assert(x == q.x && y2 == q.y);
            }
        }
    } else {
        if seq_has_key(a, q) {
            let j = choose|j: int| 0 <= j < a.len() && (#[trigger] a[j]).0 == q;
            let (x, y2) = choose|x: int, y2: int|
                0 <= x < w && 0 <= y2 < h && !spec_is_whitespace(row_text(t, sp, e, l, w, y2)[x])
                    && #[trigger] a[j] == (spec_ivec2(x, y2), row_text(t, sp, e, l, w, y2)[x]);
            assert(spec_ivec2(x, y2).x == x);
        }
    }
}

/// Every non-blank character of the first `n` of a text has a cell.
proof fn lemma_grid_cells_has(s: Seq<char>, n: int, i: int)
    requires
        0 <= i < n <= s.len(),
        !spec_is_whitespace(s[i]),
    ensures
        exists|k: int| 0 <= k < grid_cells(s, n).len() && grid_cells(s, n)[k] == (cursor_pos(s, i), s[i]),
    decreases n,
{
    let prev = grid_cells(s, n - 1);
    if i < n - 1 {
        lemma_grid_cells_has(s, n - 1, i);
        let k = choose|k: int| 0 <= k < prev.len() && prev[k] == (cursor_pos(s, i), s[i]);
        assert(grid_cells(s, n)[k] == prev[k]);
    } else {
        assert(grid_cells(s, n)[prev.len() as int] == (cursor_pos(s, i), s[i]));
    }
}

/// The last entrance mark among cells with distinct positions is at the
/// one position holding the mark, if any.
proof fn lemma_last_entrance(cells: Seq<(IVec2, char)>, e: Option<IVec2>)
    requires
        forall|k: int| 0 <= k < cells.len() && (#[trigger] cells[k]).1 == '@' ==> e == Some(cells[k].0),
        e matches Some(q) ==> exists|k: int| 0 <= k < cells.len() && cells[k] == (q, '@'),
    ensures
        last_entrance(cells) == e,
    decreases cells.len(),
{
    if cells.len() > 0 {
        let u = cells.drop_last();
        if cells.last().1 != '@' {
            assert forall|k: int| 0 <= k < u.len() && (#[trigger] u[k]).1 == '@' implies e == Some(
                u[k].0,
            ) by {
                assert(u[k] == cells[k]);
            }
            if let Some(q) = e {
                let k = choose|k: int| 0 <= k < cells.len() && cells[k] == (q, '@');
                assert(k < cells.len() - 1);
                assert(u[k] == cells[k]);
            }
            lemma_last_entrance(u, e);
        } else {
            assert(cells[cells.len() - 1].1 == '@');
        }
    } else {
        if let Some(q) = e {
            let k = choose|k: int| 0 <= k < cells.len() && cells[k] == (q, '@');
        }
    }
}

/// The letters of a legend are neither blank, the entrance mark nor
/// terrain characters.
pub open spec fn letters_plain(legend: Seq<(char, Spawn)>, t: Seq<(IVec2, MapTile)>) -> bool {
    forall|i: int|
        0 <= i < legend.len() ==> !spec_is_whitespace((#[trigger] legend[i]).0) && legend[i].0 != '@'
            && (MapTile::spec_from_char(legend[i].0) matches Some(m) ==> forall|q: IVec2|
            seq_get(t, q) != Some(m))
}

/// Some point lies on row `y`.
pub open spec fn row_has_point(pts: Seq<IVec2>, y: int) -> bool {
    exists|i: int| 0 <= i < pts.len() && (#[trigger] pts[i]).y == y
}

/// A patch that a text map represents exactly: laid out from the origin,
/// with something on every row of its bounds, ground under its spawns and
/// its entrance, and no spawn on its entrance.
pub open spec fn rereadable(p: FlatPatch) -> bool {
    let pts = patch_points(p.terrain@, p.spawns@, p.entrance);
    let b = points_bounds(pts);
    &&& b.min.x == 0 && b.min.y == 0
    &&& forall|y: int| 0 <= y < b.max.y ==> #[trigger] row_has_point(pts, y)
    &&& forall|q: IVec2| seq_has_key(p.spawns@, q) ==> seq_get(p.terrain@, q) == Some(MapTile::Ground)
    &&& p.entrance matches Some(q) ==> seq_get(p.terrain@, q) == Some(MapTile::Ground) && !seq_has_key(
        p.spawns@,
        q,
    )
}

/// What the text written for a patch says of it: the legend letters, and
/// the map text over the bounds of its points.
pub open spec fn written_as(p: FlatPatch, legend: Seq<(char, Spawn)>, text: Seq<char>) -> bool {
    let b = points_bounds(patch_points(p.terrain@, p.spawns@, p.entrance));
    &&& keys_distinct(legend)
    &&& lettering_wf(legend_lettering(legend))
    &&& forall|i: int|
        0 <= i < p.spawns@.len() && p.entrance != Some(p.spawns@[i].0) ==> lettering_has(
            legend_lettering(legend),
            (#[trigger] p.spawns@[i]).1@,
        )
    &&& text == map_text(
        p.terrain@,
        spawn_names(p.spawns@),
        p.entrance,
        legend_lettering(legend),
        b,
        b.max.y - b.min.y,
    )
}

/// A cell's character reads back as the cell: the terrain under it, its
/// spawn and whether it is the entrance.
proof fn lemma_cell_reads_back(p: FlatPatch, legend: Seq<(char, Spawn)>, text: Seq<char>, q: IVec2)
    requires
        p.wf(),
        rereadable(p),
        written_as(p, legend, text),
        letters_plain(legend, p.terrain@),
    ensures
        ({
            let t = p.terrain@;
            let sp = spawn_names(p.spawns@);
            match cell_char(t, sp, p.entrance, legend_lettering(legend), q) {
                Some(c) => char_ok(c, legend) && !spec_is_whitespace(c) && c != '\n' && Some(
                    parsed_tile(c, legend),
                ) == seq_get(t, q) && parsed_spawn(c, legend) == seq_get(sp, q) && (c == '@') == (
                p.entrance == Some(q)),
                None => seq_get(t, q) is None && seq_get(sp, q) is None && p.entrance != Some(q),
            }
        }),
{
    let t = p.terrain@;
    let sps = p.spawns@;
    let sp = spawn_names(sps);
    let l = legend_lettering(legend);
    let e = p.entrance;
    assert(sp.len() == sps.len());
    assert(seq_has_key(sp, q) == seq_has_key(sps, q)) by {
        if seq_has_key(sp, q) {
            let i = choose|i: int| 0 <= i < sp.len() && (#[trigger] sp[i]).0 == q;
            assert(sps[i].0 == q);
        }
        if seq_has_key(sps, q) {
            let i = choose|i: int| 0 <= i < sps.len() && (#[trigger] sps[i]).0 == q;
            assert(sp[i].0 == q);
        }
    }
    assert(keys_distinct(sp)) by {
        assert forall|a: int, b: int| 0 <= a < b < sp.len() implies (#[trigger] sp[a]).0 != (
        #[trigger] sp[b]).0 by {
            assert(sps[a].0 != sps[b].0);
        }
    }
    if e == Some(q) {
        assert(!seq_has_key(sps, q));
    } else if seq_has_key(sp, q) {
        let i = seq_key_index(sps, q);
        lemma_key_index(sps, i);
        lemma_key_index(sp, i);
        let name = sps[i].1@;
        assert(seq_get(sp, q) == Some(name));
        assert(lettering_has(l, sps[i].1@));
        let j = choose|j: int| 0 <= j < l.len() && (#[trigger] l[j]).0 == name;
        let c = letter_of(l, name);
        assert(c == legend[j].0);
        assert(legend[j].1@ == name);
        lemma_key_index(legend, j);
        assert(legend_get(legend, c) == Some(name));
    } else {
        if let Some(m) = seq_get(t, q) {
            let c = m.spec_char();
            assert(MapTile::spec_from_char(c) == Some(m));
            if seq_has_key(legend, c) {
                let j = choose|j: int| 0 <= j < legend.len() && (#[trigger] legend[j]).0 == c;
                assert(MapTile::spec_from_char(legend[j].0) == Some(m));
                assert(seq_get(t, q) != Some(m));
            }
        }
    }
}

/// A cell with a character gives its row content.
proof fn lemma_content_row(
    t: Seq<(IVec2, MapTile)>,
    sp: Seq<(IVec2, Seq<char>)>,
    e: Option<IVec2>,
    l: Lettering,
    y: int,
    x: int,
    k: int,
)
    requires
        0 <= x < k,
        cell_char(t, sp, e, l, spec_ivec2(x, y)) is Some,
    ensures
        row_has_content(t, sp, e, l, y, 0, k),
    decreases k,
{
    if x < k - 1 {
        lemma_content_row(t, sp, e, l, y, x, k - 1);
    } else {
        assert(spec_ivec2(0 + k - 1, y) == spec_ivec2(x, y));
    }
}

/// Reading back the text map that a patch is written to, with the legend it
/// is written with, gives the same terrain, the same spawns and the same
/// entrance, for a patch laid out from the origin with something on every
/// row, ground under its spawns and its entrance and no spawn on its
/// entrance, when the legend letters are neither blank nor `'@'`, and none
/// is the character of a terrain kind that the patch holds.
pub proof fn lemma_patch_reread(p: FlatPatch, legend: Seq<(char, Spawn)>, text: Seq<char>)
    requires
        p.wf(),
        rereadable(p),
        points_boundable(patch_points(p.terrain@, p.spawns@, p.entrance)),
        written_as(p, legend, text),
        letters_plain(legend, p.terrain@),
        text.len() < i32::MAX,
    ensures
        parse_prefix(text, legend, text.len() as int) matches Ok(m) && (forall|q: IVec2|
            seq_get(m.0, q) == seq_get(p.terrain@, q)) && (forall|q: IVec2|
            seq_get(m.1, q) == seq_get(spawn_names(p.spawns@), q)) && m.2 == p.entrance,
{
    let t = p.terrain@;
    let sp = spawn_names(p.spawns@);
    let e = p.entrance;
    let l = legend_lettering(legend);
    let pts = patch_points(t, p.spawns@, e);
    let b = points_bounds(pts);
    let w = b.max.x as int;
    let h = b.max.y as int;
    let n = text.len() as int;
    lemma_points_in_bounds(pts);
    assert(cells_plain(t, sp, e, l)) by {
        assert forall|q: IVec2| #[trigger] cell_char(t, sp, e, l, q) is Some implies !spec_is_whitespace(
            cell_char(t, sp, e, l, q).unwrap(),
        ) && cell_char(t, sp, e, l, q).unwrap() != '\n' by {
            lemma_cell_reads_back(p, legend, text, q);
        }
    }
    // Every point lies in the bounds and makes a cell with a character.
    assert forall|i: int| 0 <= i < pts.len() implies (#[trigger] cell_char(t, sp, e, l, pts[i])) is Some
        && b.spec_contains(pts[i]) by {
        lemma_cell_reads_back(p, legend, text, pts[i]);
        let tn = t.len() as int;
        let sn = p.spawns@.len() as int;
        if i < tn {
            lemma_key_index(t, i);
        } else if i < tn + sn {
            lemma_key_index(p.spawns@, i - tn);
            assert(sp[i - tn].0 == p.spawns@[i - tn].0);
            lemma_key_index(sp, i - tn);
        }
    }
    if h > 0 {
        assert(pts.len() > 0) by {
            assert(row_has_point(pts, 0));
        }
    }
    assert(w >= 0 && h >= 0) by {
        if pts.len() == 0 {
            assert(b == Rect { min: spec_ivec2(0, 0), max: spec_ivec2(0, 0) });
        }
    }
    assert forall|y: int| 0 <= y < h implies #[trigger] row_has_content(t, sp, e, l, y, 0, w) by {
        assert(row_has_point(pts, y));
        let i = choose|i: int| 0 <= i < pts.len() && (#[trigger] pts[i]).y == y;
        assert(spec_ivec2(pts[i].x as int, y) == pts[i]);
        lemma_content_row(t, sp, e, l, y, pts[i].x as int, w);
    }
    lemma_map_text_cells(t, sp, e, l, b, h);
    let cells = grid_cells(text, n);
    assert(cells == all_rows(t, sp, e, l, w, h));
    lemma_grid_cells_distinct(text, n);
    assert forall|q: IVec2| #[trigger] seq_get(cells, q) == if 0 <= q.x < w && 0 <= q.y < h {
        cell_char(t, sp, e, l, q)
    } else {
        None
    } by {
        lemma_map_cells_get(t, sp, e, l, w, h, q);
    }
    assert forall|i: int| 0 <= i < n implies char_ok(#[trigger] text[i], legend) by {
        if !spec_is_whitespace(text[i]) {
            lemma_grid_cells_has(text, n, i);
            let k = choose|k: int| 0 <= k < cells.len() && cells[k] == (cursor_pos(text, i), text[i]);
            lemma_key_index(cells, k);
            let q = cursor_pos(text, i);
            lemma_cell_reads_back(p, legend, text, q);
        }
    }
    lemma_parse_cells(text, legend, n);
    let m = parse_prefix(text, legend, n).unwrap();
    assert forall|q: IVec2| seq_get(m.0, q) == seq_get(t, q) && seq_get(m.1, q) == seq_get(sp, q) by {
        lemma_cell_reads_back(p, legend, text, q);
        if !(0 <= q.x < w && 0 <= q.y < h) {
            if seq_has_key(t, q) {
                let i = choose|i: int| 0 <= i < t.len() && (#[trigger] t[i]).0 == q;
                assert(pts[i] == q);
            }
            if seq_has_key(sp, q) {
                let i = choose|i: int| 0 <= i < sp.len() && (#[trigger] sp[i]).0 == q;
                assert(pts[t.len() + i] == p.spawns@[i].0);
            }
        }
    }
    assert(last_entrance(cells) == e) by {
        assert forall|k: int| 0 <= k < cells.len() && (#[trigger] cells[k]).1 == '@' implies e == Some(
            cells[k].0,
        ) by {
            lemma_key_index(cells, k);
            lemma_cell_reads_back(p, legend, text, cells[k].0);
        }
        if let Some(q) = e {
            assert(pts[pts.len() - 1] == q);
            lemma_cell_reads_back(p, legend, text, q);
            let k = seq_key_index(cells, q);
            lemma_key_index(cells, k);
        }
        lemma_last_entrance(cells, e);
    }
}


/// A legend letter is neither blank nor `'@'`, and `'X'` is the only one
/// that names a terrain kind.
proof fn lemma_pool_char_plain(c: char)
    requires
        pool_char(c),
    ensures
        !spec_is_whitespace(c),
        c != '@',
        MapTile::spec_from_char(c) is Some ==> c == 'X',
{
}

/// Reading back what `to_text` writes gives the patch back: for a patch laid
/// out from the origin with something on every row, ground under its spawns
/// and its entrance and no spawn on its entrance, the text and legend that
/// `to_text` produces parse to the same terrain, spawns and entrance. The
/// one exception is a patch that holds exit tiles and whose lettering hands
/// out `'X'`, the exit character, to a spawn name.
pub proof fn lemma_written_patch_rereads(p: FlatPatch, legend: Seq<(char, Spawn)>, text: Seq<char>)
    requires
        p.wf(),
        rereadable(p),
        points_boundable(patch_points(p.terrain@, p.spawns@, p.entrance)),
        written_as(p, legend, text),
        forall|i: int| 0 <= i < legend.len() ==> spec_legend_pool().contains((#[trigger] legend[i]).0),
        legend_lettering(legend) == spec_letters(
            spawn_names(p.spawns@),
            points_bounds(patch_points(p.terrain@, p.spawns@, p.entrance)),
            p.entrance,
        ),
        (forall|q: IVec2| seq_get(p.terrain@, q) != Some(MapTile::Exit)) || (forall|i: int|
            0 <= i < legend_lettering(legend).len() ==> (#[trigger] legend_lettering(legend)[i]).1
                != 'X'),
        text.len() < i32::MAX,
    ensures
        parse_prefix(text, legend, text.len() as int) matches Ok(m) && (forall|q: IVec2|
            seq_get(m.0, q) == seq_get(p.terrain@, q)) && (forall|q: IVec2|
            seq_get(m.1, q) == seq_get(spawn_names(p.spawns@), q)) && m.2 == p.entrance,
{
    lemma_pool_chars();
    assert forall|i: int| 0 <= i < legend.len() implies !spec_is_whitespace((#[trigger] legend[i]).0)
        && legend[i].0 != '@' && (MapTile::spec_from_char(legend[i].0) matches Some(m) ==> forall|q: IVec2|
        seq_get(p.terrain@, q) != Some(m)) by {
        let pool = spec_legend_pool();
        let k = choose|k: int| 0 <= k < pool.len() && pool[k] == legend[i].0;
        lemma_pool_char_plain(legend[i].0);
        if MapTile::spec_from_char(legend[i].0) is Some {
            assert(legend_lettering(legend)[i].1 == legend[i].0);
        }
    }
    lemma_patch_reread(p, legend, text);
}

} // verus!
