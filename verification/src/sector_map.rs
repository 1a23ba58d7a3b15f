//! Text maps of sector-sized world parts: a character grid and a legend of
//! spawn letters.

use vstd::prelude::*;

use crate::assoc::{AssocMap, keys_distinct, seq_has_key};
use crate::geom::{IVec2, IVec3, dir8, ivec2, ivec3, s8_dir, spec_ivec2, spec_ivec3};
use crate::patch::{Spawn, cursor, cursor_pos, lemma_cursor_bound};
use crate::rng::gen_range_i32;
use crate::text::{chars_of, is_whitespace, spec_is_whitespace, string_of};
use rand::rngs::StdRng;

verus! {

/// The non-whitespace characters of the first `n` characters of a text,
/// each at its grid position, in reading order.
pub open spec fn grid_cells(s: Seq<char>, n: int) -> Seq<(IVec2, char)>
    decreases n,
{
    if n <= 0 {
        Seq::empty()
    } else {
        let prev = grid_cells(s, n - 1);
        if spec_is_whitespace(s[n - 1]) {
            prev
        } else {
            prev.push((cursor_pos(s, n - 1), s[n - 1]))
        }
    }
}

/// The non-whitespace characters of a text at their grid positions.
pub open spec fn cells_of(s: Seq<char>) -> Seq<(IVec2, char)> {
    grid_cells(s, s.len() as int)
}

/// Grid positions, in order, of the cells holding `c`.
pub open spec fn positions_of(cells: Seq<(IVec2, char)>, c: char) -> Seq<IVec2>
    decreases cells.len(),
{
    if cells.len() == 0 {
        Seq::empty()
    } else {
        let prev = positions_of(cells.drop_last(), c);
        if cells.last().1 == c {
            prev.push(cells.last().0)
        } else {
            prev
        }
    }
}

/// Position of the first cell holding `c`.
pub open spec fn first_position(cells: Seq<(IVec2, char)>, c: char) -> Option<IVec2> {
    if positions_of(cells, c).len() > 0 {
        Some(positions_of(cells, c)[0])
    } else {
        None
    }
}

/// Size of the smallest grid from the origin that holds every cell.
pub open spec fn grid_dim(cells: Seq<(IVec2, char)>) -> IVec2
    decreases cells.len(),
{
    if cells.len() == 0 {
        spec_ivec2(0, 0)
    } else {
        let d = grid_dim(cells.drop_last());
        let p = cells.last().0;
        spec_ivec2(
            if p.x + 1 > d.x {
                p.x + 1
            } else {
                d.x as int
            },
            if p.y + 1 > d.y {
                p.y + 1
            } else {
                d.y as int
            },
        )
    }
}

/// All eight neighbors of `p` are cells.
pub open spec fn interior(cells: Seq<(IVec2, char)>, p: IVec2) -> bool {
    forall|i: int|
        0 <= i < 8 ==> seq_has_key(cells, #[trigger] spec_ivec2(p.x + dir8(i).x, p.y + dir8(i).y))
}

/// The cells of `part`, in order, that are interior to `all` (or, for
/// `inside == false`, that are not).
pub open spec fn split_cells(part: Seq<(IVec2, char)>, all: Seq<(IVec2, char)>, inside: bool) -> Seq<
    (IVec2, char),
>
    decreases part.len(),
{
    if part.len() == 0 {
        Seq::empty()
    } else {
        let prev = split_cells(part.drop_last(), all, inside);
        if interior(all, part.last().0) == inside {
            prev.push(part.last())
        } else {
            prev
        }
    }
}

/// Character of a rectangular room at `(x, y)`: corners are wall, the other
/// edge cells are doors, the rest is floor.
pub open spec fn room_cell(w: int, h: int, x: int, y: int) -> char {
    let on_v_edge = x == 0 || x == w - 1;
    let on_h_edge = y == 0 || y == h - 1;
    if on_v_edge && on_h_edge {
        '#'
    } else if on_v_edge || on_h_edge {
        '+'
    } else {
        '.'
    }
}

/// Row `y` of a room of width `w`.
pub open spec fn room_row(w: int, h: int, y: int) -> Seq<char> {
    Seq::new(w as nat, |x: int| room_cell(w, h, x, y))
}

/// The first `k` rows of a room map, each but the last row of the room
/// ending in a line break.
pub open spec fn room_text(w: int, h: int, k: int) -> Seq<char>
    decreases k,
{
    if k <= 0 {
        Seq::empty()
    } else {
        room_text(w, h, k - 1) + room_row(w, h, k - 1) + if k - 1 < h - 1 {
            seq!['\n']
        } else {
            Seq::empty()
        }
    }
}

/// Map of a room `2a + 1` wide and `2b + 1` high.
pub open spec fn odd_room(a: int, b: int) -> Seq<char> {
    room_text(2 * a + 1, 2 * b + 1, 2 * b + 1)
}

/// Spawns of the cells whose letter the legend names, placed at `origin`.
pub open spec fn legend_spawns(cells: Seq<(IVec2, char)>, legend: Seq<(char, String)>, origin: IVec3) -> Seq<(IVec3, Seq<char>)>
    decreases cells.len(),
{
    if cells.len() == 0 {
        Seq::empty()
    } else {
        let prev = legend_spawns(cells.drop_last(), legend, origin);
        let (p, c) = cells.last();
        match crate::assoc::seq_get(legend, c) {
            Some(name) => prev.push((spec_ivec3(origin.x + p.x, origin.y + p.y, origin.z as int), name@)),
            None => prev,
        }
    }
}

/// Cells of a text, each at its grid position, in reading order.
pub fn char_grid(s: &str) -> (r: Vec<(IVec2, char)>)
    requires
        s@.len() < i32::MAX,
    ensures
        r@ == cells_of(s@),
{
    let chars = chars_of(s);
    let n = chars.len();
    let mut out: Vec<(IVec2, char)> = Vec::new();
    let mut x: i32 = 0;
    let mut y: i32 = 0;
    let mut i: usize = 0;
    while i < n
        invariant
            chars@ == s@,
            n == s@.len(),
            n < i32::MAX,
            i <= n,
            (x as int, y as int) == cursor(s@, i as int),
            out@ == grid_cells(s@, i as int),
        decreases n - i,
    {
        proof {
            lemma_cursor_bound(s@, i as int);
        }
        let c = chars[i];
        if !is_whitespace(c) {
            out.push((ivec2(x, y), c));
        }
        if c == '\n' {
            x = 0;
            y = y + 1;
        } else {
            x = x + 1;
        }
        i += 1;
    }
    out
}

/// Grid positions come in strictly increasing reading order.
pub proof fn lemma_cursor_order(s: Seq<char>, i: int, j: int)
    requires
        0 <= i < j,
    ensures
        cursor(s, i).1 < cursor(s, j).1 || (cursor(s, i).1 == cursor(s, j).1 && cursor(s, i).0
            < cursor(s, j).0),
    decreases j - i,
{
    if j > i + 1 {
        lemma_cursor_order(s, i, j - 1);
    }
}

/// Every cell of the first `n` characters comes from one of them, at its
/// grid position.
pub proof fn lemma_grid_cells_origin(s: Seq<char>, n: int, k: int) -> (i: int)
    requires
        0 <= n <= s.len(),
        0 <= k < grid_cells(s, n).len(),
    ensures
        0 <= i < n,
        grid_cells(s, n)[k] == (cursor_pos(s, i), s[i]),
        !spec_is_whitespace(s[i]),
        forall|k2: int| k < k2 < grid_cells(s, n).len() ==> exists|i2: int| i < i2 < n && (#[trigger] grid_cells(s, n)[k2]).0 == cursor_pos(s, i2),
    decreases n,
{
    let prev = grid_cells(s, n - 1);
    if k < prev.len() {
        let i = lemma_grid_cells_origin(s, n - 1, k);
        assert forall|k2: int| k < k2 < grid_cells(s, n).len() implies exists|i2: int|
            i < i2 < n && (#[trigger] grid_cells(s, n)[k2]).0 == cursor_pos(s, i2) by {
            if k2 < prev.len() {
                assert(grid_cells(s, n)[k2] == prev[k2]);
            } else {
                assert(grid_cells(s, n)[k2].0 == cursor_pos(s, n - 1));
            }
        }
        i
    } else {
        n - 1
    }
}

/// No two cells of a prefix of a text share a grid position.
pub proof fn lemma_grid_cells_distinct(s: Seq<char>, n: int)
    requires
        0 <= n <= s.len(),
        s.len() < i32::MAX,
    ensures
        keys_distinct(grid_cells(s, n)),
{
    let c = grid_cells(s, n);
    assert forall|a: int, b: int| 0 <= a < b < c.len() implies (#[trigger] c[a]).0 != (#[trigger] c[b]).0 by {
        let i = lemma_grid_cells_origin(s, n, a);
        let j = choose|i2: int| i < i2 < n && c[b].0 == cursor_pos(s, i2);
        lemma_cursor_order(s, i, j);
        lemma_cursor_bound(s, i);
        lemma_cursor_bound(s, j);
    }
}

/// No two cells share a grid position.
pub proof fn lemma_cells_distinct(s: Seq<char>)
    requires
        s.len() < i32::MAX,
    ensures
        keys_distinct(cells_of(s)),
{
    let c = cells_of(s);
    let n = s.len() as int;
    assert forall|a: int, b: int| 0 <= a < b < c.len() implies (#[trigger] c[a]).0 != (#[trigger] c[b]).0 by {
        let i = lemma_grid_cells_origin(s, n, a);
        let j = choose|i2: int| i < i2 < n && c[b].0 == cursor_pos(s, i2);
        lemma_cursor_order(s, i, j);
        lemma_cursor_bound(s, i);
        lemma_cursor_bound(s, j);
    }
}

/// Text map for 2D world part.
pub struct SectorMap {
    pub name: String,
    pub map: String,
    /// Spawn names by legend letter; they are checked against the game data
    /// only when that is loaded.
    pub legend: AssocMap<char, String>,
}

impl View for SectorMap {
    type V = (Seq<char>, Seq<char>, Seq<(char, String)>);

    open spec fn view(&self) -> (Seq<char>, Seq<char>, Seq<(char, String)>) {
        (self.name@, self.map@, self.legend@)
    }
}

impl Clone for SectorMap {
    fn clone(&self) -> (r: Self)
        ensures
            r@ == self@,
            r.legend.wf() == self.legend.wf(),
    {
        SectorMap {
            name: self.name.clone(),
            map: self.map.clone(),
            legend: self.legend.clone_strings(),
        }
    }
}

impl SectorMap {
    /// A map that fits the grid coordinates.
    pub open spec fn fits(&self) -> bool {
        self.map@.len() < i32::MAX
    }

    /// The map of a single upward staircase.
    pub fn upstairs() -> (r: SectorMap)
        ensures
            r.name@ == Seq::<char>::empty(),
            r.map@ == "###\n#<#\n#.#"@,
            r.legend@ == Seq::<(char, String)>::empty(),
            r.legend.wf(),
    {
        SectorMap { name: String::new(), map: "###\n#<#\n#.#".to_owned(), legend: AssocMap::new() }
    }

    /// The map of a single downward staircase.
    pub fn downstairs() -> (r: SectorMap)
        ensures
            r.name@ == Seq::<char>::empty(),
            r.map@ == "#.#\n#>#\n#_#\n###"@,
            r.legend@ == Seq::<(char, String)>::empty(),
            r.legend.wf(),
    {
        SectorMap {
            name: String::new(),
            map: "#.#\n#>#\n#_#\n###".to_owned(),
            legend: AssocMap::new(),
        }
    }

    /// Split the cells into the border, those with a neighbor outside the
    /// map, and the inside, those with all eight neighbors on the map; both
    /// in reading order.
    pub fn border_and_inside(&self) -> (r: (AssocMap<IVec2, char>, AssocMap<IVec2, char>))
        requires
            self.fits(),
        ensures
            r.0.wf(),
            r.1.wf(),
            r.0@ == split_cells(cells_of(self.map@), cells_of(self.map@), false),
            r.1@ == split_cells(cells_of(self.map@), cells_of(self.map@), true),
    {
        let cells = char_grid(self.map.as_str());
        proof {
            lemma_cells_bounded(self.map@);
            lemma_cells_distinct(self.map@);
        }
        let n = cells.len();
        let mut border: AssocMap<IVec2, char> = AssocMap::new();
        let mut inside: AssocMap<IVec2, char> = AssocMap::new();
        let mut i: usize = 0;
        while i < n
            invariant
                n == cells@.len(),
                i <= n,
                keys_distinct(cells@),
                forall|k: int| 0 <= k < n ==> 0 <= (#[trigger] cells@[k]).0.x < i32::MAX && 0 <= cells@[k].0.y < i32::MAX,
                border.wf(),
                inside.wf(),
                border@ == split_cells(cells@.take(i as int), cells@, false),
                inside@ == split_cells(cells@.take(i as int), cells@, true),
            decreases n - i,
        {
            let (p, c) = cells[i];
            let inner = is_interior(&cells, p);
            proof {
                assert(cells@.take(i + 1).drop_last() == cells@.take(i as int));
                assert(cells@.take(i + 1).last() == (p, c));
                assert(!seq_has_key(cells@.take(i as int), p)) by {
                    if seq_has_key(cells@.take(i as int), p) {
                        let k = choose|k: int| 0 <= k < i && (#[trigger] cells@.take(i as int)[k]).0 == p;
                        assert(cells@[k].0 != cells@[i as int].0);
                    }
                }
                lemma_split_keys(cells@.take(i as int), cells@, false, p);
                lemma_split_keys(cells@.take(i as int), cells@, true, p);
            }
            if inner {
                inside.insert(p, c);
            } else {
                border.insert(p, c);
            }
            i += 1;
        }
        assert(cells@.take(n as int) == cells@);
        (border, inside)
    }

    /// A rectangular room of the given size.
    pub fn room(w: i32, h: i32) -> (r: SectorMap)
        requires
            0 <= w < 0x1000,
            0 <= h < 0x1000,
        ensures
            r.name@ == Seq::<char>::empty(),
            r.map@ == room_text(w as int, h as int, h as int),
            r.legend@ == Seq::<(char, String)>::empty(),
            r.legend.wf(),
    {
        let mut out: Vec<char> = Vec::new();
        let mut y: i32 = 0;
        while y < h
            invariant
                0 <= w < 0x1000,
                0 <= h < 0x1000,
                0 <= y <= h,
                out@ == room_text(w as int, h as int, y as int),
            decreases h - y,
        {
            let ghost before = out@;
            let mut x: i32 = 0;
            while x < w
                invariant
                    0 <= w < 0x1000,
                    0 <= h < 0x1000,
                    0 <= y < h,
                    0 <= x <= w,
                    out@ == before + room_row(w as int, h as int, y as int).take(x as int),
                decreases w - x,
            {
                let on_v_edge = x == 0 || x == w - 1;
                let on_h_edge = y == 0 || y == h - 1;
                if on_v_edge && on_h_edge {
                    out.push('#');
                } else if on_v_edge || on_h_edge {
                    out.push('+');
                } else {
                    out.push('.');
                }
                assert(room_row(w as int, h as int, y as int).take(x + 1) == room_row(
                    w as int,
                    h as int,
                    y as int,
                ).take(x as int).push(room_cell(w as int, h as int, x as int, y as int)));
                x += 1;
            }
            assert(room_row(w as int, h as int, y as int).take(w as int) == room_row(
                w as int,
                h as int,
                y as int,
            ));
            if y < h - 1 {
                out.push('\n');
            }
            y += 1;
            assert(out@ == room_text(w as int, h as int, y as int));
        }
        SectorMap { name: String::new(), map: string_of(&out), legend: AssocMap::new() }
    }

    /// A regular empty room of random odd size from 5 to 11 on a side.
    pub fn sample(rng: &mut StdRng) -> (r: SectorMap)
        ensures
            exists|a: int, b: int| 2 <= a < 6 && 2 <= b < 6 && r.map@ == #[trigger] odd_room(a, b),
            r.name@ == Seq::<char>::empty(),
            r.legend@ == Seq::<(char, String)>::empty(),
    {
        // Dimensions must be odd.
        let a = gen_range_i32(rng, 2, 6);
        let b = gen_range_i32(rng, 2, 6);
        let r = SectorMap::room(2 * a + 1, 2 * b + 1);
        assert(r.map@ == odd_room(a as int, b as int));
        r
    }

    /// The spawns that the legend letters of the map stand for, placed
    /// relative to `origin`, in reading order.
    pub fn spawns(&self, origin: &IVec3) -> (r: Vec<(IVec3, Spawn)>)
        requires
            self.fits(),
            self.legend.wf(),
            origin.x + self.map@.len() <= i32::MAX,
            origin.y + self.map@.len() <= i32::MAX,
        ensures
            r@.map_values(|e: (IVec3, Spawn)| (e.0, e.1@)) == legend_spawns(cells_of(self.map@), self.legend@, *origin),
    {
        let cells = char_grid(self.map.as_str());
        proof {
            lemma_cells_bounded_len(self.map@);
        }
        let n = cells.len();
        let mut out: Vec<(IVec3, Spawn)> = Vec::new();
        let mut i: usize = 0;
        while i < n
            invariant
                n == cells@.len(),
                i <= n,
                self.legend.wf(),
                origin.x + self.map@.len() <= i32::MAX,
                origin.y + self.map@.len() <= i32::MAX,
                forall|k: int| 0 <= k < n ==> 0 <= (#[trigger] cells@[k]).0.x < self.map@.len() && 0 <= cells@[k].0.y < self.map@.len(),
                out@.map_values(|e: (IVec3, Spawn)| (e.0, e.1@)) == legend_spawns(cells@.take(i as int), self.legend@, *origin),
            decreases n - i,
        {
            let (p, c) = cells[i];
            assert(cells@.take(i + 1).drop_last() == cells@.take(i as int));
            assert(cells@.take(i + 1).last() == (p, c));
            let ghost before = out@;
            match self.legend.get(&c) {
                Some(name) => {
                    let loc = ivec3(origin.x + p.x, origin.y + p.y, origin.z);
                    out.push((loc, Spawn::new(name.clone())));
                    assert(out@.map_values(|e: (IVec3, Spawn)| (e.0, e.1@)) == before.map_values(
                        |e: (IVec3, Spawn)| (e.0, e.1@),
                    ).push((loc, name@)));
                },
                None => {},
            }
            i += 1;
        }
        assert(cells@.take(n as int) == cells@);
        out
    }

    /// An empty map with an empty legend.
    pub fn empty() -> (r: SectorMap)
        ensures
            r.name@ == Seq::<char>::empty(),
            r.map@ == Seq::<char>::empty(),
            r.legend@ == Seq::<(char, String)>::empty(),
            r.legend.wf(),
    {
        SectorMap { name: String::new(), map: String::new(), legend: AssocMap::new() }
    }

    /// Positions of the player entrances, marked `@`, in reading order.
    pub fn entrances(&self) -> (r: Vec<IVec2>)
        requires
            self.fits(),
        ensures
            r@ == positions_of(cells_of(self.map@), '@'),
    {
        positions(&char_grid(self.map.as_str()), '@')
    }

    /// Position of the first downstairs, marked `>`.
    pub fn find_downstairs(&self) -> (r: Option<IVec2>)
        requires
            self.fits(),
        ensures
            r == first_position(cells_of(self.map@), '>'),
    {
        first(&char_grid(self.map.as_str()), '>')
    }

    /// Position of the first upstairs, marked `<`.
    pub fn find_upstairs(&self) -> (r: Option<IVec2>)
        requires
            self.fits(),
        ensures
            r == first_position(cells_of(self.map@), '<'),
    {
        first(&char_grid(self.map.as_str()), '<')
    }

    /// Size of the map grid: one past the largest coordinates of a cell.
    pub fn dim(&self) -> (r: IVec2)
        requires
            self.fits(),
        ensures
            r == grid_dim(cells_of(self.map@)),
    {
        let cells = char_grid(self.map.as_str());
        proof {
            lemma_cells_bounded(self.map@);
        }
        let n = cells.len();
        let mut d = ivec2(0, 0);
        let mut i: usize = 0;
        while i < n
            invariant
                n == cells@.len(),
                i <= n,
                forall|k: int| 0 <= k < n ==> 0 <= (#[trigger] cells@[k]).0.x < i32::MAX && 0 <= cells@[k].0.y < i32::MAX,
                d == grid_dim(cells@.take(i as int)),
                0 <= d.x && 0 <= d.y,
            decreases n - i,
        {
            let p = cells[i].0;
            assert(cells@.take(i + 1).drop_last() == cells@.take(i as int));
            let dx = if p.x + 1 > d.x { p.x + 1 } else { d.x };
            let dy = if p.y + 1 > d.y { p.y + 1 } else { d.y };
            d = ivec2(dx, dy);
            i += 1;
        }
        assert(cells@.take(n as int) == cells@);
        d
    }
}

/// Cell positions lie in the non-negative quadrant below the text length.
proof fn lemma_cells_bounded(s: Seq<char>)
    requires
        s.len() < i32::MAX,
    ensures
        forall|k: int|
            0 <= k < cells_of(s).len() ==> 0 <= (#[trigger] cells_of(s)[k]).0.x < i32::MAX && 0
                <= cells_of(s)[k].0.y < i32::MAX,
{
    assert forall|k: int| 0 <= k < cells_of(s).len() implies 0 <= (#[trigger] cells_of(s)[k]).0.x
        < i32::MAX && 0 <= cells_of(s)[k].0.y < i32::MAX by {
        let i = lemma_grid_cells_origin(s, s.len() as int, k);
        lemma_cursor_bound(s, i);
    }
}

/// Cell positions lie below the text length.
pub proof fn lemma_cells_bounded_len(s: Seq<char>)
    requires
        s.len() < i32::MAX,
    ensures
        forall|k: int|
            0 <= k < cells_of(s).len() ==> 0 <= (#[trigger] cells_of(s)[k]).0.x < s.len() && 0
                <= cells_of(s)[k].0.y < s.len(),
{
    assert forall|k: int| 0 <= k < cells_of(s).len() implies 0 <= (#[trigger] cells_of(s)[k]).0.x
        < s.len() && 0 <= cells_of(s)[k].0.y < s.len() by {
        let i = lemma_grid_cells_origin(s, s.len() as int, k);
        lemma_cursor_bound(s, i);
    }
}

/// Positions of the cells holding `c`, in order.
fn positions(cells: &Vec<(IVec2, char)>, c: char) -> (r: Vec<IVec2>)
    ensures
        r@ == positions_of(cells@, c),
{
    let n = cells.len();
    let mut out: Vec<IVec2> = Vec::new();
    let mut i: usize = 0;
    while i < n
        invariant
            n == cells@.len(),
            i <= n,
            out@ == positions_of(cells@.take(i as int), c),
        decreases n - i,
    {
        assert(cells@.take(i + 1).drop_last() == cells@.take(i as int));
        if cells[i].1 == c {
            out.push(cells[i].0);
        }
        i += 1;
    }
    assert(cells@.take(n as int) == cells@);
    out
}

/// Position of the first cell holding `c`.
fn first(cells: &Vec<(IVec2, char)>, c: char) -> (r: Option<IVec2>)
    ensures
        r == first_position(cells@, c),
{
    let n = cells.len();
    let mut i: usize = 0;
    while i < n
        invariant
            n == cells@.len(),
            i <= n,
            positions_of(cells@.take(i as int), c).len() == 0,
        decreases n - i,
    {
        assert(cells@.take(i + 1).drop_last() == cells@.take(i as int));
        if cells[i].1 == c {
            proof {
                lemma_positions_prefix(cells@, i + 1, c);
            }
            return Some(cells[i].0);
        }
        i += 1;
    }
    assert(cells@.take(n as int) == cells@);
    None
}

/// Positions in a prefix of the cells come first among all positions.
proof fn lemma_positions_prefix(cells: Seq<(IVec2, char)>, k: int, c: char)
    requires
        0 <= k <= cells.len(),
    ensures
        positions_of(cells.take(k), c).len() <= positions_of(cells, c).len(),
        forall|j: int|
            0 <= j < positions_of(cells.take(k), c).len() ==> #[trigger] positions_of(cells, c)[j]
                == positions_of(cells.take(k), c)[j],
    decreases cells.len() - k,
{
    if k < cells.len() {
        lemma_positions_prefix(cells, k + 1, c);
        assert(cells.take(k + 1).drop_last() == cells.take(k));
    } else {
        assert(cells.take(k) == cells);
    }
}

/// A split of some cells holds no position that those cells lack.
proof fn lemma_split_keys(part: Seq<(IVec2, char)>, all: Seq<(IVec2, char)>, inside: bool, p: IVec2)
    ensures
        seq_has_key(split_cells(part, all, inside), p) ==> seq_has_key(part, p),
    decreases part.len(),
{
    if part.len() > 0 {
        let t = part.drop_last();
        lemma_split_keys(t, all, inside, p);
        let prev = split_cells(t, all, inside);
        let sp = split_cells(part, all, inside);
        if seq_has_key(sp, p) {
            let k = choose|k: int| 0 <= k < sp.len() && (#[trigger] sp[k]).0 == p;
            if k < prev.len() {
                assert(prev[k].0 == p);
                let j = choose|j: int| 0 <= j < t.len() && (#[trigger] t[j]).0 == p;
                assert(part[j].0 == p);
            } else {
                assert(part[part.len() - 1].0 == p);
            }
        }
    }
}

/// Whether the cells hold a position.
fn has_cell(cells: &Vec<(IVec2, char)>, p: IVec2) -> (r: bool)
    ensures
        r == seq_has_key(cells@, p),
{
    let n = cells.len();
    let mut i: usize = 0;
    while i < n
        invariant
            n == cells@.len(),
            i <= n,
            forall|k: int| 0 <= k < i ==> (#[trigger] cells@[k]).0 != p,
        decreases n - i,
    {
        if cells[i].0.x == p.x && cells[i].0.y == p.y {
            assert(cells@[i as int].0 == p);
            return true;
        }
        i += 1;
    }
    false
}

/// Whether all eight neighbors of `p` are cells.
fn is_interior(cells: &Vec<(IVec2, char)>, p: IVec2) -> (r: bool)
    requires
        0 <= p.x < i32::MAX,
        0 <= p.y < i32::MAX,
    ensures
        r == interior(cells@, p),
{
    let mut i: usize = 0;
    while i < 8
        invariant
            0 <= p.x < i32::MAX,
            0 <= p.y < i32::MAX,
            i <= 8,
            forall|k: int| 0 <= k < i ==> seq_has_key(cells@, #[trigger] spec_ivec2(p.x + dir8(k).x, p.y + dir8(k).y)),
        decreases 8 - i,
    {
        let d = s8_dir(i);
        let q = ivec2(p.x + d.x, p.y + d.y);
        if !has_cell(cells, q) {
            assert(q == spec_ivec2(p.x + dir8(i as int).x, p.y + dir8(i as int).y));
            assert(!interior(cells@, p));
            return false;
        }
        i += 1;
    }
    true
}

} // verus!
