//! Unfolding the structural regions of a scenario (repeats and side
//! branches) into a column of primitive regions per world position.

use vstd::prelude::*;

use crate::rng::{draw_seeded, place_seed, seed_for_place, seeded_draw};
use crate::assoc::{AssocMap, keys_distinct, lemma_key_index, seq_has_key, seq_insert, seq_key_index};
use crate::data::{GenericSector, Region, count_fits, spec_count, spec_is_site};
use crate::geom::{IVec2, IVec3, dir4, ivec2, ivec3, s4_dir, spec_ivec2, spec_ivec3};

verus! {

/// What an unfolded position holds: a generator kind or a prefab map.
pub ghost enum RegionView {
    Generate(GenericSector),
    Site((Seq<char>, Seq<char>, Seq<(char, String)>)),
    Hall((Seq<char>, Seq<char>, Seq<(char, String)>)),
    Layout,
}

pub open spec fn region_view(r: Region) -> RegionView {
    match r {
        Region::Generate(g) => RegionView::Generate(g),
        Region::Site(m) => RegionView::Site(m@),
        Region::Hall(m) => RegionView::Hall(m@),
        _ => RegionView::Layout,
    }
}

/// Unfolded regions by position.
pub open spec fn views(out: Seq<(IVec3, Region)>) -> Seq<(IVec3, RegionView)> {
    out.map_values(|e: (IVec3, Region)| (e.0, region_view(e.1)))
}

/// Most floors a single region may stack up.
pub open spec fn stack_bound() -> int {
    0x100_0000
}

/// A region that stacks floors in place: primitives, and repeats of such,
/// with no branch inside a repeat.
pub open spec fn stack_ok(r: Region) -> bool
    decreases r,
{
    match r {
        Region::Branch(_) => false,
        Region::Repeat(n, a) => stack_ok(*a) && count_fits(r, stack_bound()),
        _ => true,
    }
}

/// Stack a region downwards from `pos`: each primitive floor goes at the
/// current position and the next one a level below. Gives the entries and
/// the position below the stack.
pub open spec fn stack_insert(r: Region, pos: IVec3, out: Seq<(IVec3, RegionView)>) -> (Seq<
    (IVec3, RegionView),
>, IVec3)
    decreases r, 0nat,
{
    match r {
        Region::Repeat(n, a) => repeat_insert(n as nat, *a, pos, out),
        Region::Branch(_) => (out, pos),
        _ => (seq_insert(out, pos, region_view(r)), spec_ivec3(pos.x as int, pos.y as int, pos.z - 1)),
    }
}

/// Stack a region `n` times.
pub open spec fn repeat_insert(n: nat, r: Region, pos: IVec3, out: Seq<(IVec3, RegionView)>) -> (Seq<
    (IVec3, RegionView),
>, IVec3)
    decreases r, n + 1,
{
    if n == 0 {
        (out, pos)
    } else {
        let (o, p) = repeat_insert((n - 1) as nat, r, pos, out);
        stack_insert(r, p, o)
    }
}

/// Looking up entries commutes with taking their views.
pub proof fn lemma_views_insert(s: Seq<(IVec3, Region)>, k: IVec3, v: Region)
    requires
        keys_distinct(s),
    ensures
        keys_distinct(views(s)),
        views(seq_insert(s, k, v)) == seq_insert(views(s), k, region_view(v)),
{
    let w = views(s);
    assert forall|i: int, j: int| 0 <= i < j < w.len() implies (#[trigger] w[i]).0 != (#[trigger] w[j]).0 by {
        assert(s[i].0 != s[j].0);
    }
    assert forall|i: int| 0 <= i < s.len() implies (#[trigger] w[i]).0 == s[i].0 by {}
    assert(seq_has_key(s, k) == seq_has_key(w, k)) by {
        if seq_has_key(s, k) {
            let i = choose|i: int| 0 <= i < s.len() && (#[trigger] s[i]).0 == k;
            assert(w[i].0 == k);
        }
        if seq_has_key(w, k) {
            let i = choose|i: int| 0 <= i < w.len() && (#[trigger] w[i]).0 == k;
            assert(s[i].0 == k);
        }
    }
    if seq_has_key(s, k) {
        let i = seq_key_index(s, k);
        lemma_key_index(s, i);
        lemma_key_index(w, i);
        assert(seq_key_index(w, k) == i);
        assert(views(s.update(i, (k, v))) =~= w.update(i, (k, region_view(v))));
    } else {
        assert(views(s.push((k, v))) =~= w.push((k, region_view(v))));
    }
}

/// Copy of a primitive region.
fn clone_primitive(r: &Region) -> (c: Region)
    requires
        !(*r is Branch || *r is Repeat),
    ensures
        region_view(c) == region_view(*r),
        !(c is Branch || c is Repeat),
{
    match r {
        Region::Generate(g) => Region::Generate(*g),
        Region::Site(m) => Region::Site(m.clone()),
        Region::Hall(m) => Region::Hall(m.clone()),
        _ => Region::Generate(GenericSector::Water),
    }
}

/// Stacking lowers the position by the floor count of the region.
proof fn lemma_stack_pos(r: Region, pos: IVec3, out: Seq<(IVec3, RegionView)>)
    requires
        stack_ok(r),
        i32::MIN <= pos.z - spec_count(r),
    ensures
        stack_insert(r, pos, out).1 == spec_ivec3(pos.x as int, pos.y as int, pos.z - spec_count(r)),
    decreases r, 0nat,
{
    if let Region::Repeat(n, a) = r {
        crate::data::lemma_count_nonneg(*a);
        lemma_repeat_pos(n as nat, *a, pos, out);
    }
}

proof fn lemma_repeat_pos(n: nat, r: Region, pos: IVec3, out: Seq<(IVec3, RegionView)>)
    requires
        stack_ok(r),
        i32::MIN <= pos.z - n * spec_count(r),
    ensures
        repeat_insert(n, r, pos, out).1 == spec_ivec3(pos.x as int, pos.y as int, pos.z - n * spec_count(r)),
    decreases r, n + 1,
{
    crate::data::lemma_count_nonneg(r);
    if n > 0 {
        assert((n - 1) * spec_count(r) <= n * spec_count(r)) by (nonlinear_arith)
            requires
                spec_count(r) >= 0,
                n >= 1,
        ;
        assert(n * spec_count(r) == (n - 1) * spec_count(r) + spec_count(r)) by (nonlinear_arith);
        lemma_repeat_pos((n - 1) as nat, r, pos, out);
        let p = repeat_insert((n - 1) as nat, r, pos, out).1;
        lemma_stack_pos(r, p, repeat_insert((n - 1) as nat, r, pos, out).0);
    }
}

/// Stack a region downwards from `pos`, giving the position below it.
#[verifier::loop_isolation(false)]
fn insert_region(pos: IVec3, reg: &Region, out: &mut AssocMap<IVec3, Region>) -> (p: IVec3)
    requires
        old(out).wf(),
        stack_ok(*reg),
        i32::MIN <= pos.z - spec_count(*reg),
    ensures
        final(out).wf(),
        (views(final(out)@), p) == stack_insert(*reg, pos, views(old(out)@)),
        p == spec_ivec3(pos.x as int, pos.y as int, pos.z - spec_count(*reg)),
    decreases *reg,
{
    proof {
        lemma_stack_pos(*reg, pos, views(out@));
    }
    match reg {
        Region::Repeat(n, inner) => {
            let ghost start = views(out@);
            proof {
                crate::data::lemma_count_nonneg(**inner);
            }
            let mut p = pos;
            let mut i: u32 = 0;
            while i < *n
                invariant
                    *reg == Region::Repeat(*n, *inner),
                    out.wf(),
                    stack_ok(**inner),
                    0 <= spec_count(**inner),
                    *n * spec_count(**inner) <= stack_bound(),
                    i32::MIN <= pos.z - *n * spec_count(**inner),
                    i <= *n,
                    (views(out@), p) == repeat_insert(i as nat, **inner, pos, start),
                    p == spec_ivec3(pos.x as int, pos.y as int, pos.z - i * spec_count(**inner)),
                decreases *n - i,
            {
                assert((i + 1) * spec_count(**inner) <= *n * spec_count(**inner)) by (nonlinear_arith)
                    requires
                        i < *n,
                        spec_count(**inner) >= 0,
                ;
                assert((i + 1) * spec_count(**inner) == i * spec_count(**inner) + spec_count(**inner))
                    by (nonlinear_arith);
                p = insert_region(p, inner, out);
                i += 1;
            }
            p
        },
        Region::Branch(_) => pos,
        _ => {
            let c = clone_primitive(reg);
            proof {
                lemma_views_insert(out@, pos, c);
            }
            out.insert(pos, c);
            ivec3(pos.x, pos.y, pos.z - 1)
        },
    }
}

/// Why a scenario column could not be unfolded.
#[derive(Copy, Clone, PartialEq, Eq, Structural, Debug)]
pub enum UnfoldError {
    /// Surface sites present at an underground branch.
    SurfaceSitesUnderground,
    /// No free position left beside the column for a branch shaft.
    NoRoomForBranch,
}

/// Floors of the run of sites that starts at item `i`.
pub open spec fn leading_sites(s: Seq<Region>, i: int) -> int
    decreases s.len() - i,
{
    if 0 <= i < s.len() && spec_is_site(s[i]) {
        spec_count(s[i]) + leading_sites(s, i + 1)
    } else {
        0
    }
}

/// Size of a region tree from item `i`: one per item and branch, plus the
/// floors that items stack.
pub open spec fn tree_size(s: Seq<Region>, i: int) -> int
    decreases s, s.len() - i,
{
    if 0 <= i < s.len() {
        item_size(s[i]) + tree_size(s, i + 1)
    } else {
        0
    }
}

pub open spec fn item_size(r: Region) -> int
    decreases r, 0int,
{
    match r {
        Region::Branch(v) => 1 + tree_size(v@, 0),
        _ => spec_count(r) + 1,
    }
}

/// Every item from `i` on, branches included, can be unfolded.
pub open spec fn tree_ok(s: Seq<Region>, i: int) -> bool
    decreases s, s.len() - i,
{
    if 0 <= i < s.len() {
        item_ok(s[i]) && tree_ok(s, i + 1)
    } else {
        true
    }
}

pub open spec fn item_ok(r: Region) -> bool
    decreases r, 0int,
{
    match r {
        Region::Branch(v) => tree_ok(v@, 0),
        _ => stack_ok(r),
    }
}

/// Coordinates stay clear of the `i32` limits however the tree unfolds.
pub open spec fn unfold_bounds(origin: IVec3, s: Seq<Region>) -> bool {
    let t = tree_size(s, 0);
    &&& t <= 0x1000_0000
    &&& -0x6000_0000 <= origin.z - t
    &&& origin.z <= 0x6000_0000
    &&& -0x6000_0000 <= origin.x - t
    &&& origin.x + t <= 0x6000_0000
    &&& -0x6000_0000 <= origin.y - t
    &&& origin.y + t <= 0x6000_0000
}

/// A set of shaft positions with one more position.
pub open spec fn set_add(s: Seq<IVec2>, p: IVec2) -> Seq<IVec2> {
    if s.contains(p) {
        s
    } else {
        s.push(p)
    }
}

/// The neighbors of `pos` among the first `k` directions, clockwise from
/// north, that are not shaft positions yet.
pub open spec fn free_neighbors(pos: IVec3, shafts: Seq<IVec2>, k: int) -> Seq<IVec2>
    decreases k,
{
    if k <= 0 {
        Seq::empty()
    } else {
        let prev = free_neighbors(pos, shafts, k - 1);
        let q = spec_ivec2(pos.x + dir4(k - 1).x, pos.y + dir4(k - 1).y);
        if shafts.contains(q) {
            prev
        } else {
            prev.push(q)
        }
    }
}

/// Which of `n` free neighbors a branch takes: drawn by the generator
/// seeded for the world seed and the branching position.
pub open spec fn branch_pick(seed: u64, pos: IVec3, n: int) -> int {
    (seeded_draw(place_seed(seed, pos), n as u32) % (n as u32)) as int
}

/// Outcome of unfolding: success or the error, the unfolded regions and
/// the shaft positions, both as far as unfolding got.
pub type UnfoldState = (Result<(), UnfoldError>, Seq<(IVec3, RegionView)>, Seq<IVec2>);

/// Unfold a column of regions whose top is at `origin`.
pub open spec fn unfold_spec(seed: u64, origin: IVec3, out: Seq<(IVec3, RegionView)>, shafts: Seq<IVec2>, s: Seq<Region>) -> UnfoldState
    decreases s, s.len() + 1,
{
    if s.len() == 0 {
        (Ok(()), out, shafts)
    } else {
        let shafts1 = set_add(shafts, spec_ivec2(origin.x as int, origin.y as int));
        let sites = leading_sites(s, 0);
        if sites > 0 && origin.z < 0 {
            (Err(UnfoldError::SurfaceSitesUnderground), out, shafts1)
        } else {
            let top = if sites > 1 {
                spec_ivec3(origin.x as int, origin.y as int, sites - 1)
            } else {
                origin
            };
            unfold_items(seed, top, out, shafts1, s, 0)
        }
    }
}

/// Unfold the items of a column from item `i` on, the next floor at `pos`:
/// stacks go down the column, branches start a new column beside it.
pub open spec fn unfold_items(seed: u64, pos: IVec3, out: Seq<(IVec3, RegionView)>, shafts: Seq<IVec2>, s: Seq<Region>, i: int) -> UnfoldState
    decreases s, s.len() - i,
{
    if !(0 <= i < s.len()) {
        (Ok(()), out, shafts)
    } else {
        match s[i] {
            Region::Branch(v) => {
                let opts = free_neighbors(pos, shafts, 4);
                if opts.len() == 0 {
                    (Err(UnfoldError::NoRoomForBranch), out, shafts)
                } else {
                    let d = opts[branch_pick(seed, pos, opts.len() as int)];
                    let b = unfold_spec(seed, spec_ivec3(d.x as int, d.y as int, pos.z as int), out, shafts, v@);
                    if b.0 is Err {
                        b
                    } else {
                        unfold_items(seed, pos, b.1, b.2, s, i + 1)
                    }
                }
            },
            _ => {
                let (o, p) = stack_insert(s[i], pos, out);
                unfold_items(seed, p, o, shafts, s, i + 1)
            },
        }
    }
}

proof fn lemma_tree_nonneg(s: Seq<Region>, i: int)
    ensures
        tree_size(s, i) >= 0,
    decreases s, s.len() - i,
{
    if 0 <= i < s.len() {
        lemma_item_pos(s[i]);
        lemma_tree_nonneg(s, i + 1);
    }
}

proof fn lemma_item_pos(r: Region)
    ensures
        item_size(r) >= 1,
        !(r is Branch) ==> item_size(r) == spec_count(r) + 1,
    decreases r, 0int,
{
    match r {
        Region::Branch(v) => {
            lemma_tree_nonneg(v@, 0);
        },
        _ => {
            crate::data::lemma_count_nonneg(r);
        },
    }
}

/// A suffix of a tree is no bigger than the whole.
proof fn lemma_tree_suffix(s: Seq<Region>, i: int)
    requires
        0 <= i <= s.len(),
    ensures
        0 <= tree_size(s, i) <= tree_size(s, 0),
    decreases i,
{
    lemma_tree_nonneg(s, i);
    if i > 0 {
        lemma_tree_suffix(s, i - 1);
        lemma_item_pos(s[i - 1]);
    }
}

/// The leading sites are counted in the tree size.
proof fn lemma_leading_sites(s: Seq<Region>, i: int)
    requires
        0 <= i <= s.len(),
    ensures
        0 <= leading_sites(s, i) <= tree_size(s, i),
    decreases s.len() - i,
{
    lemma_tree_nonneg(s, i);
    if i < s.len() {
        lemma_leading_sites(s, i + 1);
        lemma_item_pos(s[i]);
        crate::data::lemma_count_nonneg(s[i]);
    }
}

/// A floor bound that holds under a smaller bound holds under a larger
/// one.
proof fn lemma_count_fits_mono(r: Region, a: int, b: int)
    requires
        count_fits(r, a),
        a <= b,
    ensures
        count_fits(r, b),
    decreases r,
{
    if let Region::Repeat(n, x) = r {
        lemma_count_fits_mono(*x, a, b);
    }
}

/// Whether a shaft position is taken.
fn contains_pos(s: &Vec<IVec2>, p: IVec2) -> (r: bool)
    ensures
        r == s@.contains(p),
{
    let n = s.len();
    let mut i: usize = 0;
    while i < n
        invariant
            n == s@.len(),
            i <= n,
            forall|k: int| 0 <= k < i ==> s@[k] != p,
        decreases n - i,
    {
        if s[i].x == p.x && s[i].y == p.y {
            assert(s@[i as int] == p);
            return true;
        }
        i += 1;
    }
    false
}

/// Neighbors of a position, clockwise from north, that are not shaft
/// positions.
fn free_neighbor_list(pos: IVec3, shafts: &Vec<IVec2>) -> (r: Vec<IVec2>)
    requires
        i32::MIN < pos.x < i32::MAX,
        i32::MIN < pos.y < i32::MAX,
    ensures
        r@ == free_neighbors(pos, shafts@, 4),
        r@.len() <= 4,
{
    let mut out: Vec<IVec2> = Vec::new();
    let mut k: usize = 0;
    while k < 4
        invariant
            i32::MIN < pos.x < i32::MAX,
            i32::MIN < pos.y < i32::MAX,
            k <= 4,
            out@ == free_neighbors(pos, shafts@, k as int),
            out@.len() <= k,
        decreases 4 - k,
    {
        let d = s4_dir(k);
        let q = ivec2(pos.x + d.x, pos.y + d.y);
        if !contains_pos(shafts, q) {
            out.push(q);
        }
        k += 1;
    }
    out
}

/// Free neighbors are next to the position.
proof fn lemma_free_near(pos: IVec3, shafts: Seq<IVec2>, k: int)
    requires
        i32::MIN < pos.x < i32::MAX,
        i32::MIN < pos.y < i32::MAX,
        k <= 4,
    ensures
        forall|j: int|
            0 <= j < free_neighbors(pos, shafts, k).len() ==> pos.x - 1 <= (
            #[trigger] free_neighbors(pos, shafts, k)[j]).x <= pos.x + 1 && pos.y - 1
                <= free_neighbors(pos, shafts, k)[j].y <= pos.y + 1,
    decreases k,
{
    if k > 0 {
        lemma_free_near(pos, shafts, k - 1);
        let prev = free_neighbors(pos, shafts, k - 1);
        let cur = free_neighbors(pos, shafts, k);
        assert forall|j: int| 0 <= j < cur.len() implies pos.x - 1 <= (#[trigger] cur[j]).x <= pos.x + 1
            && pos.y - 1 <= cur[j].y <= pos.y + 1 by {
            if j < prev.len() {
                assert(cur[j] == prev[j]);
            }
        }
    }
}

/// Which of `n` free neighbors a branch takes.
fn pick(seed: u64, pos: IVec3, n: usize) -> (k: usize)
    requires
        0 < n <= 4,
    ensures
        k == branch_pick(seed, pos, n as int),
        k < n,
{
    let k = draw_seeded(seed_for_place(seed, pos), n as u32);
    proof {
        vstd::arithmetic::div_mod::lemma_small_mod(k as nat, n as nat);
    }
    k as usize
}

/// Floors of the leading run of sites of a column.
fn leading_site_floors(slice: &[Region]) -> (r: i32)
    requires
        tree_ok(slice@, 0),
        tree_size(slice@, 0) <= 0x1000_0000,
    ensures
        r == leading_sites(slice@, 0),
{
    let n = slice.len();
    let mut total: i32 = 0;
    let mut i: usize = 0;
    proof {
        lemma_tree_nonneg(slice@, 0);
    }
    while i < n && slice[i].is_site()
        invariant
            n == slice@.len(),
            i <= n,
            tree_ok(slice@, i as int),
            tree_size(slice@, 0) <= 0x1000_0000,
            0 <= total <= tree_size(slice@, 0) - tree_size(slice@, i as int),
            leading_sites(slice@, 0) == total + leading_sites(slice@, i as int),
        decreases n - i,
    {
        let r = &slice[i];
        proof {
            lemma_item_pos(*r);
            lemma_tree_nonneg(slice@, i + 1);
            assert(item_ok(*r) && !(*r is Branch));
            if *r is Repeat {
                lemma_count_fits_mono(*r, stack_bound(), i32::MAX as int);
            }
        }
        total = total + r.height();
        i += 1;
    }
    total
}

/// Unfold the structural regions of a column whose top is at `origin` into
/// primitive regions by position: repeats stack their floors down the
/// column, and each branch starts a new column at a free neighboring
/// position, which becomes a shaft position.
#[verifier::loop_isolation(false)]
pub fn unfold(
    seed: u64,
    origin: IVec3,
    out: &mut AssocMap<IVec3, Region>,
    existing_shafts: &mut Vec<IVec2>,
    slice: &[Region],
) -> (res: Result<(), UnfoldError>)
    requires
        old(out).wf(),
        old(existing_shafts)@.no_duplicates(),
        tree_ok(slice@, 0),
        unfold_bounds(origin, slice@),
    ensures
        final(out).wf(),
        final(existing_shafts)@.no_duplicates(),
        (res, views(final(out)@), final(existing_shafts)@) == unfold_spec(
            seed,
            origin,
            views(old(out)@),
            old(existing_shafts)@,
            slice@,
        ),
    decreases slice@,
{
    if slice.len() == 0 {
        return Ok(());
    }
    let o2 = ivec2(origin.x, origin.y);
    if !contains_pos(existing_shafts, o2) {
        existing_shafts.push(o2);
    }
    proof {
        lemma_leading_sites(slice@, 0);
        lemma_tree_nonneg(slice@, 0);
    }
    let sites = leading_site_floors(slice);
    if sites > 0 && origin.z < 0 {
        return Err(UnfoldError::SurfaceSitesUnderground);
    }
    let top = if sites > 1 {
        ivec3(origin.x, origin.y, sites - 1)
    } else {
        origin
    };
    let ghost goal = unfold_items(seed, top, views(out@), existing_shafts@, slice@, 0);
    let ghost lowz = top.z - tree_size(slice@, 0);
    let n = slice.len();
    let mut pos = top;
    let mut i: usize = 0;
    while i < n
        invariant
            n == slice@.len(),
            i <= n,
            out.wf(),
            existing_shafts@.no_duplicates(),
            tree_ok(slice@, i as int),
            pos.x == origin.x,
            pos.y == origin.y,
            -0x6000_0000 <= lowz,
            top.z <= 0x6000_0000,
            pos.z <= top.z,
            lowz <= pos.z - tree_size(slice@, i as int),
            unfold_items(seed, pos, views(out@), existing_shafts@, slice@, i as int) == goal,
        decreases n - i,
    {
        proof {
            lemma_tree_suffix(slice@, i as int);
            lemma_tree_suffix(slice@, i + 1);
            lemma_item_pos(slice@[i as int]);
            assert(item_ok(slice@[i as int]));
            assert(tree_ok(slice@, i + 1));
        }
        match &slice[i] {
            Region::Branch(v) => {
                let opts = free_neighbor_list(pos, existing_shafts);
                if opts.len() == 0 {
                    return Err(UnfoldError::NoRoomForBranch);
                }
                let k = pick(seed, pos, opts.len());
                let d = opts[k];
                proof {
                    assert(slice@[i as int] == Region::Branch(*v));
                    assert(tree_ok(v@, 0));
                    lemma_free_near(pos, existing_shafts@, 4);
                    assert(opts@[k as int] == d);
                    assert(item_size(slice@[i as int]) == 1 + tree_size(v@, 0));
                    assert(tree_size(slice@, i as int) == item_size(slice@[i as int]) + tree_size(slice@, i + 1));
                    lemma_tree_nonneg(v@, 0);
                    assert(unfold_bounds(spec_ivec3(d.x as int, d.y as int, pos.z as int), v@));
                    assert(decreases_to!(slice@ => v@));
                }
                let r = unfold(seed, ivec3(d.x, d.y, pos.z), out, existing_shafts, v.as_slice());
                if r.is_err() {
                    return r;
                }
            },
            r => {
                assert(slice@[i as int] == *r);
                assert(stack_ok(*r));
                pos = insert_region(pos, r, out);
            },
        }
        i += 1;
    }
    Ok(())
}

} // verus!
