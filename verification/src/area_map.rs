//! Text maps drawn from a volume of a voxel environment, for looking at
//! generated terrain.

use vstd::prelude::*;

use crate::assoc::{AssocMap, keys_distinct, lemma_insert_get, seq_get, seq_insert};
use crate::block::{Block, Tile};
use crate::environs::{Environs, spec_tile, tile_range};
use crate::geom::{Cube, IVec3, ivec3, spec_ivec3};
use crate::patch::Spawn;
use crate::patch_text::{legend_pool, pool_size, spec_legend_pool};
use crate::sector_map::SectorMap;
use crate::text::string_of;

verus! {

/// Map character of the tile at `p`: stairs where the surface is a level
/// up or down, the surface material, or the wall material.
pub open spec fn tile_char(t: Tile, p: IVec3) -> char {
    match t {
        Tile::Surface(loc, b) => if loc == spec_ivec3(p.x as int, p.y as int, p.z + 1) {
            '<'
        } else if loc == spec_ivec3(p.x as int, p.y as int, p.z - 1) {
            '>'
        } else {
            match b {
                Block::Water => '~',
                Block::Magma => '&',
                Block::Grass => ',',
                Block::SplatteredRock => '§',
                _ => '.',
            }
        },
        Tile::Wall(Block::Door) => '+',
        Tile::Wall(Block::Glass) => '|',
        Tile::Wall(_) => '#',
        Tile::Void => '_',
    }
}

/// Distinct names of the first `n` spawns that lie in the volume, in order
/// of first appearance.
pub open spec fn area_names(sp: Seq<(IVec3, Spawn)>, vol: Cube, n: int) -> Seq<Seq<char>>
    decreases n,
{
    if n <= 0 {
        Seq::empty()
    } else {
        let prev = area_names(sp, vol, n - 1);
        let (l, s) = sp[n - 1];
        if vol.spec_contains(l) && !prev.contains(s@) {
            prev.push(s@)
        } else {
            prev
        }
    }
}

/// Legend letter of the `k`th distinct name: letters are handed out in
/// alphabet order.
pub open spec fn nth_letter(k: int) -> char {
    spec_legend_pool()[pool_size() - 1 - k]
}

/// Position of a name in a list of distinct names.
pub open spec fn name_index(names: Seq<Seq<char>>, name: Seq<char>) -> int {
    choose|k: int| 0 <= k < names.len() && names[k] == name
}

/// Letters of the first `n` spawns in the volume by their position on the
/// bottom level of the volume; a later spawn at the same position replaces
/// an earlier one.
pub open spec fn area_marks(sp: Seq<(IVec3, Spawn)>, vol: Cube, names: Seq<Seq<char>>, n: int) -> Seq<
    (IVec3, char),
>
    decreases n,
{
    if n <= 0 {
        Seq::empty()
    } else {
        let prev = area_marks(sp, vol, names, n - 1);
        let (l, s) = sp[n - 1];
        if vol.spec_contains(l) {
            seq_insert(
                prev,
                spec_ivec3(l.x as int, l.y as int, vol.min.z as int),
                nth_letter(name_index(names, s@)),
            )
        } else {
            prev
        }
    }
}

/// A floor one level up from a cell is drawn as an up staircase `<`, a
/// floor one level down as a down staircase `>`, whatever it is made of.
pub proof fn lemma_stairs_chars(p: IVec3, b: Block)
    requires
        i32::MIN < p.z < i32::MAX,
    ensures
        tile_char(Tile::Surface(IVec3 { x: p.x, y: p.y, z: (p.z + 1) as i32 }, b), p) == '<',
        tile_char(Tile::Surface(IVec3 { x: p.x, y: p.y, z: (p.z - 1) as i32 }, b), p) == '>',
        tile_char(Tile::Surface(p, b), p) != '<' && tile_char(Tile::Surface(p, b), p) != '>',
{
}

/// How the map draws a cell from the voxels around it: a solid block with
/// open space above is a floor one level up, `<`; empty space over empty
/// space over a block is a floor one level down, `>`; empty space over
/// water, magma, grass or splattered rock is `~`, `&`, `,` or `§`, over
/// stone `.`; a glass block between stone is `|`; a stack of three blocks
/// with a door in it is a door `+`,
/// and three stone blocks a wall `#`; nothing down to two levels below is
/// `_`.
pub proof fn lemma_cell_chars<E: Environs>(r: &E, p: IVec3)
    requires
        i32::MIN + 2 <= p.z < i32::MAX,
    ensures
        ({
            let up = r.spec_voxel(spec_ivec3(p.x as int, p.y as int, p.z + 1));
            let here = r.spec_voxel(p);
            let down = r.spec_voxel(spec_ivec3(p.x as int, p.y as int, p.z - 1));
            let down2 = r.spec_voxel(spec_ivec3(p.x as int, p.y as int, p.z - 2));
            let c = tile_char(spec_tile(r, p), p);
            &&& up is None && here is Some ==> c == '<'
            &&& here is None && down is None && down2 is Some ==> c == '>'
            &&& here is None && down == Some(Block::Water) ==> c == '~'
            &&& here is None && down == Some(Block::Magma) ==> c == '&'
            &&& here is None && down == Some(Block::Grass) ==> c == ','
            &&& here is None && down == Some(Block::SplatteredRock) ==> c == '§'
            &&& here is None && down == Some(Block::Stone) ==> c == '.'
            &&& up == Some(Block::Stone) && here == Some(Block::Glass) && down == Some(Block::Stone)
                ==> c == '|'
            &&& up == Some(Block::Door) && here is Some && down is Some ==> c == '+'
            &&& up is Some && here is Some && down == Some(Block::Door) ==> c == '+'
            &&& up == Some(Block::Stone) && here == Some(Block::Stone) && down == Some(Block::Stone)
                ==> c == '#'
            &&& here is None && down is None && down2 is None ==> c == '_'
        }),
{
}

/// Character of a map cell: a spawn letter, or the tile character.
pub open spec fn area_cell<E: Environs>(r: &E, marks: Seq<(IVec3, char)>, p: IVec3) -> char {
    match seq_get(marks, p) {
        Some(c) => c,
        None => tile_char(spec_tile(r, p), p),
    }
}

/// Row `y` of the map of the volume's bottom level.
pub open spec fn area_row<E: Environs>(r: &E, marks: Seq<(IVec3, char)>, vol: Cube, y: int) -> Seq<
    char,
> {
    Seq::new(
        (vol.max.x - vol.min.x) as nat,
        |i: int| area_cell(r, marks, spec_ivec3(vol.min.x + i, y, vol.min.z as int)),
    )
}

/// The first `k` rows of the map, each ending in a line break.
pub open spec fn area_text<E: Environs>(r: &E, marks: Seq<(IVec3, char)>, vol: Cube, k: int) -> Seq<
    char,
>
    decreases k,
{
    if k <= 0 {
        Seq::empty()
    } else {
        area_text(r, marks, vol, k - 1) + area_row(r, marks, vol, vol.min.y + k - 1) + seq!['\n']
    }
}

/// The map is a grid: `k` rows, each holding the cells of one row of the
/// volume's bottom level and ending in a line break, so the character at
/// column `x` of row `y` is the cell at `(min.x + x, min.y + y)`.
pub proof fn lemma_area_grid<E: Environs>(r: &E, marks: Seq<(IVec3, char)>, vol: Cube, k: int)
    requires
        0 <= k,
        vol.min.x <= vol.max.x,
    ensures
        area_text(r, marks, vol, k).len() == k * (vol.max.x - vol.min.x + 1),
        forall|y: int, x: int|
            0 <= y < k && 0 <= x <= vol.max.x - vol.min.x ==> #[trigger] area_text(r, marks, vol, k)[y
                * (vol.max.x - vol.min.x + 1) + x] == if x < vol.max.x - vol.min.x {
                area_cell(r, marks, spec_ivec3(vol.min.x + x, vol.min.y + y, vol.min.z as int))
            } else {
                '\n'
            },
    decreases k,
{
    let w = vol.max.x - vol.min.x;
    if k > 0 {
        lemma_area_grid(r, marks, vol, k - 1);
        let prev = area_text(r, marks, vol, k - 1);
        let row = area_row(r, marks, vol, vol.min.y + k - 1);
        let t = area_text(r, marks, vol, k);
        assert(t == prev + row + seq!['\n']);
        assert(prev.len() == (k - 1) * (w + 1));
        assert(k * (w + 1) == (k - 1) * (w + 1) + w + 1) by (nonlinear_arith);
        assert forall|y: int, x: int| 0 <= y < k && 0 <= x <= w implies #[trigger] t[y * (w + 1) + x]
            == if x < w {
            area_cell(r, marks, spec_ivec3(vol.min.x + x, vol.min.y + y, vol.min.z as int))
        } else {
            '\n'
        } by {
            if y < k - 1 {
                assert(y * (w + 1) + x < (k - 1) * (w + 1)) by (nonlinear_arith)
                    requires
                        0 <= y < k - 1,
                        0 <= x <= w,
                ;
                assert(prev[y * (w + 1) + x] == t[y * (w + 1) + x]);
            } else {
                assert(y * (w + 1) == (k - 1) * (w + 1));
                if x < w {
                    assert(t[y * (w + 1) + x] == row[x]);
                } else {
                    assert(t[y * (w + 1) + x] == seq!['\n'][0]);
                }
            }
        }
    }
}

/// The spawn marks have one letter per column.
proof fn lemma_marks_distinct(sp: Seq<(IVec3, Spawn)>, vol: Cube, names: Seq<Seq<char>>, n: int)
    requires
        0 <= n <= sp.len(),
    ensures
        keys_distinct(area_marks(sp, vol, names, n)),
    decreases n,
{
    if n > 0 {
        lemma_marks_distinct(sp, vol, names, n - 1);
        let prev = area_marks(sp, vol, names, n - 1);
        let l = sp[n - 1].0;
        if vol.spec_contains(l) {
            lemma_insert_get(
                prev,
                spec_ivec3(l.x as int, l.y as int, vol.min.z as int),
                nth_letter(name_index(names, sp[n - 1].1@)),
                l,
            );
        }
    }
}

/// Every spawn in the volume has its name among the legend's names.
proof fn lemma_area_names_has(sp: Seq<(IVec3, Spawn)>, vol: Cube, n: int, i: int)
    requires
        0 <= i < n <= sp.len(),
        vol.spec_contains(sp[i].0),
    ensures
        area_names(sp, vol, n).contains(sp[i].1@),
{
    lemma_area_names_prefix(sp, vol, n);
    let a = area_names(sp, vol, i + 1);
    assert(a.contains(sp[i].1@)) by {
        let prev = area_names(sp, vol, i);
        if prev.contains(sp[i].1@) {
            let k = choose|k: int| 0 <= k < prev.len() && prev[k] == sp[i].1@;
            assert(a[k] == prev[k]);
        } else {
            assert(a[prev.len() as int] == sp[i].1@);
        }
    }
    let k = choose|k: int| 0 <= k < a.len() && a[k] == sp[i].1@;
    assert(a == area_names(sp, vol, n).take(a.len() as int));
    assert(area_names(sp, vol, n)[k] == sp[i].1@);
}

/// The cell of a spawn in the volume shows the legend letter of the
/// spawn's name, unless a later spawn in the volume stands in the same
/// column: the letter is the one whose legend entry names that spawn.
pub proof fn lemma_spawn_letter(sp: Seq<(IVec3, Spawn)>, vol: Cube, n: int, i: int)
    requires
        0 <= i < n <= sp.len(),
        vol.spec_contains(sp[i].0),
        forall|j: int|
            i < j < n && vol.spec_contains(#[trigger] sp[j].0) ==> !(sp[j].0.x == sp[i].0.x
                && sp[j].0.y == sp[i].0.y),
    ensures
        ({
            let names = area_names(sp, vol, sp.len() as int);
            exists|k: int|
                0 <= k < names.len() && names[k] == sp[i].1@ && seq_get(
                    area_marks(sp, vol, names, n),
                    spec_ivec3(sp[i].0.x as int, sp[i].0.y as int, vol.min.z as int),
                ) == Some(#[trigger] nth_letter(k))
        }),
    decreases n,
{
    let names = area_names(sp, vol, sp.len() as int);
    let col = spec_ivec3(sp[i].0.x as int, sp[i].0.y as int, vol.min.z as int);
    let prev = area_marks(sp, vol, names, n - 1);
    lemma_marks_distinct(sp, vol, names, n - 1);
    if n == i + 1 {
        lemma_area_names_has(sp, vol, sp.len() as int, i);
        let k = name_index(names, sp[i].1@);
        assert(0 <= k < names.len() && names[k] == sp[i].1@);
        lemma_insert_get(prev, col, nth_letter(k), col);
        assert(seq_get(area_marks(sp, vol, names, n), col) == Some(nth_letter(k)));
    } else {
        lemma_spawn_letter(sp, vol, n - 1, i);
        let k = choose|k: int|
            0 <= k < names.len() && names[k] == sp[i].1@ && seq_get(prev, col) == Some(
                #[trigger] nth_letter(k),
            );
        let l = sp[n - 1].0;
        if vol.spec_contains(l) {
            let c2 = spec_ivec3(l.x as int, l.y as int, vol.min.z as int);
            assert(c2 != col);
            lemma_insert_get(prev, c2, nth_letter(name_index(names, sp[n - 1].1@)), col);
        }
        assert(seq_get(area_marks(sp, vol, names, n), col) == Some(nth_letter(k)));
    }
}

/// A volume whose width and height fit the `i32` range, with the layer
/// below its bottom in range too.
pub open spec fn area_ok(vol: Cube) -> bool {
    &&& vol.min.x <= vol.max.x
    &&& vol.min.y <= vol.max.y
    &&& vol.max.x - vol.min.x <= i32::MAX
    &&& vol.max.y - vol.min.y <= i32::MAX
    &&& tile_range(vol.min)
}

/// The distinct names of a prefix of the spawns come first among all of
/// them, and none repeats.
proof fn lemma_area_names_prefix(sp: Seq<(IVec3, Spawn)>, vol: Cube, n: int)
    requires
        0 <= n,
    ensures
        area_names(sp, vol, n).no_duplicates(),
        forall|j: int|
            0 <= j <= n ==> #[trigger] area_names(sp, vol, j).len() <= area_names(sp, vol, n).len()
                && area_names(sp, vol, j) == area_names(sp, vol, n).take(
                area_names(sp, vol, j).len() as int,
            ),
    decreases n,
{
    if n > 0 {
        lemma_area_names_prefix(sp, vol, n - 1);
        let prev = area_names(sp, vol, n - 1);
        let cur = area_names(sp, vol, n);
        if cur != prev {
            assert(cur == prev.push(sp[n - 1].1@));
            assert forall|a: int, b: int| 0 <= a < cur.len() && 0 <= b < cur.len() && a != b implies cur[a] != cur[b] by {
                if a < prev.len() && b < prev.len() {
                    assert(cur[a] == prev[a] && cur[b] == prev[b]);
                } else if a < prev.len() {
                    assert(cur[a] == prev[a]);
                    assert(prev.contains(cur[a]));
                } else {
                    assert(cur[b] == prev[b]);
                    assert(prev.contains(cur[b]));
                }
            }
            assert forall|j: int| 0 <= j <= n implies #[trigger] area_names(sp, vol, j).len() <= cur.len()
                && area_names(sp, vol, j) == cur.take(area_names(sp, vol, j).len() as int) by {
                if j < n {
                    assert(prev.take(area_names(sp, vol, j).len() as int) == cur.take(area_names(sp, vol, j).len() as int));
                } else {
                    assert(cur.take(cur.len() as int) == cur);
                }
            }
        } else {
            assert(cur.take(cur.len() as int) == cur);
        }
    } else {
        assert(area_names(sp, vol, 0).take(0) == area_names(sp, vol, 0));
    }
}

/// In a list of distinct names, a name of a prefix sits at its own index.
proof fn lemma_name_index(all: Seq<Seq<char>>, prefix: Seq<Seq<char>>, k: int)
    requires
        all.no_duplicates(),
        prefix.len() <= all.len(),
        prefix == all.take(prefix.len() as int),
        0 <= k < prefix.len(),
    ensures
        name_index(all, prefix[k]) == k,
{
    assert(all[k] == prefix[k]);
    let j = name_index(all, prefix[k]);
    assert(0 <= j < all.len() && all[j] == prefix[k]);
}

/// Map character of the tile at a location.
fn tile_char_at<E: Environs>(r: &E, p: IVec3) -> (c: char)
    requires
        tile_range(p),
    ensures
        c == tile_char(spec_tile(r, p), p),
{
    let above = ivec3(p.x, p.y, p.z + 1);
    let below = ivec3(p.x, p.y, p.z - 1);
    match p.tile(r) {
        Tile::Surface(loc, b) => {
            if loc == above {
                '<'
            } else if loc == below {
                '>'
            } else {
                match b {
                    Block::Water => '~',
                    Block::Magma => '&',
                    Block::Grass => ',',
                    Block::SplatteredRock => '§',
                    _ => '.',
                }
            }
        },
        Tile::Wall(Block::Door) => '+',
        Tile::Wall(Block::Glass) => '|',
        Tile::Wall(_) => '#',
        Tile::Void => '_',
    }
}

/// Whether a list of names holds `name`.
fn find_name(names: &Vec<String>, name: &String) -> (r: Option<usize>)
    ensures
        match r {
            Some(k) => k < names@.len() && names@[k as int]@ == name@,
            None => forall|k: int| 0 <= k < names@.len() ==> names@[k]@ != name@,
        },
{
    let n = names.len();
    let mut i: usize = 0;
    while i < n
        invariant
            n == names@.len(),
            i <= n,
            forall|k: int| 0 <= k < i ==> names@[k]@ != name@,
        decreases n - i,
    {
        if names[i] == *name {
            return Some(i);
        }
        i += 1;
    }
    None
}

impl SectorMap {
    /// Draw the bottom level of a volume of an environment as a map, spawns
    /// in the volume shown by legend letters handed out in alphabet order.
    #[verifier::rlimit(60)]
    pub fn from_area<E: Environs>(r: &E, volume: &Cube, spawns: &Vec<(IVec3, Spawn)>) -> (m:
        SectorMap)
        requires
            area_ok(*volume),
            area_names(spawns@, *volume, spawns@.len() as int).len() <= pool_size(),
        ensures
            ({
                let names = area_names(spawns@, *volume, spawns@.len() as int);
                let marks = area_marks(spawns@, *volume, names, spawns@.len() as int);
                &&& m.name@ == Seq::<char>::empty()
                &&& m.map@ == area_text(r, marks, *volume, volume.max.y - volume.min.y)
                &&& m.legend.wf()
                &&& m.legend@.map_values(|e: (char, String)| (e.0, e.1@)) == Seq::new(
                    names.len(),
                    |k: int| (nth_letter(k), names[k]),
                )
            }),
    {
        let z = volume.min.z;
        let pool = legend_pool();
        let mut names: Vec<String> = Vec::new();
        let mut marks: AssocMap<IVec3, char> = AssocMap::new();
        let ghost all_names = area_names(spawns@, *volume, spawns@.len() as int);
        proof {
            lemma_area_names_prefix(spawns@, *volume, spawns@.len() as int);
        }
        let n = spawns.len();
        let mut i: usize = 0;
        while i < n
            invariant
                n == spawns@.len(),
                i <= n,
                z == volume.min.z,
                all_names == area_names(spawns@, *volume, n as int),
                all_names.len() <= pool_size(),
                all_names.no_duplicates(),
                forall|j: int| 0 <= j <= n ==> #[trigger] area_names(spawns@, *volume, j).len() <= all_names.len()
                    && area_names(spawns@, *volume, j) == all_names.take(area_names(spawns@, *volume, j).len() as int),
                names@.map_values(|s: String| s@) == area_names(spawns@, *volume, i as int),
                pool@ == spec_legend_pool(),
                marks.wf(),
                marks@ == area_marks(spawns@, *volume, all_names, i as int),
            decreases n - i,
        {
            let loc = spawns[i].0;
            let ghost before_names = names@.map_values(|s: String| s@);
            proof {
                assert(area_names(spawns@, *volume, i + 1).len() <= all_names.len());
            }
            if volume.contains(loc) {
                let key = ivec3(loc.x, loc.y, z);
                let name = spawns[i].1.0.clone();
                let c = match find_name(&names, &name) {
                    Some(k) => {
                        proof {
                            lemma_name_index(all_names, before_names, k as int);
                        }
                        pool[pool.len() - 1 - k]
                    },
                    None => {
                        proof {
                            assert(!before_names.contains(name@)) by {
                                if before_names.contains(name@) {
                                    let k = choose|k: int| 0 <= k < before_names.len() && before_names[k] == name@;
                                    assert(names@[k]@ == name@);
                                }
                            }
                            assert(area_names(spawns@, *volume, i + 1) == before_names.push(name@));
                            lemma_name_index(all_names, before_names.push(name@), before_names.len() as int);
                        }
                        let c = pool[pool.len() - 1 - names.len()];
                        names.push(name);
                        proof {
                            assert(names@.map_values(|s: String| s@) == before_names.push(spawns@[i as int].1@));
                        }
                        c
                    },
                };
                proof {
                    lemma_insert_get(marks@, key, c, key);
                }
                marks.insert(key, c);
            } else {
                proof {
                    assert(area_names(spawns@, *volume, i + 1) == before_names);
                }
            }
            i += 1;
        }
        proof {
            assert forall|j: int| 0 <= j < names@.len() implies #[trigger] names@[j]@ == all_names[j] by {
                assert(names@.map_values(|s: String| s@)[j] == names@[j]@);
            }
        }
        let mut map: Vec<char> = Vec::new();
        let rows = volume.max.y - volume.min.y;
        let mut y = volume.min.y;
        while y < volume.max.y
            invariant
                area_ok(*volume),
                z == volume.min.z,
                volume.min.y <= y <= volume.max.y,
                marks.wf(),
                marks@ == area_marks(spawns@, *volume, all_names, n as int),
                map@ == area_text(r, marks@, *volume, y - volume.min.y),
            decreases volume.max.y - y,
        {
            let ghost before = map@;
            let mut x = volume.min.x;
            while x < volume.max.x
                invariant
                    area_ok(*volume),
                    z == volume.min.z,
                    volume.min.y <= y < volume.max.y,
                    volume.min.x <= x <= volume.max.x,
                    marks.wf(),
                    map@ == before + area_row(r, marks@, *volume, y as int).take(x - volume.min.x),
                decreases volume.max.x - x,
            {
                let p = ivec3(x, y, z);
                let c = match marks.get(&p) {
                    Some(c) => *c,
                    None => tile_char_at(r, p),
                };
                map.push(c);
                assert(area_row(r, marks@, *volume, y as int).take(x + 1 - volume.min.x) == area_row(
                    r,
                    marks@,
                    *volume,
                    y as int,
                ).take(x - volume.min.x).push(c));
                x += 1;
            }
            assert(area_row(r, marks@, *volume, y as int).take(volume.max.x - volume.min.x) == area_row(
                r,
                marks@,
                *volume,
                y as int,
            ));
            map.push('\n');
            y += 1;
        }
        let mut legend: AssocMap<char, String> = AssocMap::new();
        let m = names.len();
        let mut k: usize = 0;
        while k < m
            invariant
                m == names@.len(),
                k <= m,
                m <= pool_size(),
                forall|j: int| 0 <= j < m ==> #[trigger] names@[j]@ == all_names[j],
                pool@ == spec_legend_pool(),
                pool@.no_duplicates(),
                legend.wf(),
                legend@.len() == k,
                forall|j: int|
                    0 <= j < k ==> (#[trigger] legend@[j]).0 == nth_letter(j) && legend@[j].1@
                        == all_names[j],
            decreases m - k,
        {
            let c = pool[pool.len() - 1 - k];
            let ghost before = legend@;
            proof {
                assert forall|j: int| 0 <= j < before.len() implies (#[trigger] before[j]).0 != c by {
                    assert(pool@[pool_size() - 1 - j] != pool@[pool_size() - 1 - k]);
                }
                assert(!crate::assoc::seq_has_key(before, c));
            }
            legend.insert(c, names[k].clone());
            proof {
                assert(legend@ == before.push((c, names@[k as int])));
            }
            k += 1;
        }
        proof {
            assert(names@.map_values(|s: String| s@).len() == all_names.len());
            assert(legend@.map_values(|e: (char, String)| (e.0, e.1@)) =~= Seq::new(
                all_names.len(),
                |j: int| (nth_letter(j), all_names[j]),
            ));
        }
        SectorMap { name: String::new(), map: string_of(&map), legend }
    }
}

} // verus!
