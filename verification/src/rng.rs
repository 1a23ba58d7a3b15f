//! Random numbers for procedural generation, drawn from `rand`'s standard
//! generator.

use vstd::prelude::*;

use rand::Rng;
use rand::SeedableRng;
use rand::rngs::StdRng;
use rand::seq::SliceRandom;

use crate::geom::{IVec2, IVec3};

verus! {

/// The standard seeded generator of `rand`.
#[verifier::external_type_specification]
#[verifier::external_body]
pub struct ExStdRng(StdRng);

/// Calls `Rng::gen_range` on the half-open range `lo..hi`; rand documents a
/// value inside the range and a panic on an empty range. Which value comes
/// out depends on the generator's state and is left unsaid.
#[verifier::external_body]
pub(crate) fn gen_range_i32(rng: &mut StdRng, lo: i32, hi: i32) -> (r: i32)
    requires
        lo < hi,
    ensures
        lo <= r < hi,
{
    rng.gen_range(lo..hi)
}

/// Calls `SliceRandom::shuffle`, which reorders the slice by swapping its
/// elements in place, so the result is a permutation of the input. Which
/// permutation comes out depends on the generator and is left unsaid.
#[verifier::external_body]
pub(crate) fn shuffle_points(v: &mut Vec<IVec2>, rng: &mut StdRng)
    ensures
        final(v)@.to_multiset() == old(v)@.to_multiset(),
{
    v.shuffle(rng);
}

/// Calls `SliceRandom::choose`, which gives nothing for an empty slice and
/// otherwise one of its elements. Which element comes out depends on the
/// generator and is left unsaid.
#[verifier::external_body]
pub(crate) fn choose_point(v: &Vec<IVec2>, rng: &mut StdRng) -> (r: Option<IVec2>)
    ensures
        r is None <==> v@.len() == 0,
        r matches Some(p) ==> v@.contains(p),
{
    v.choose(rng).copied()
}

/// The number that `rand`'s standard generator, seeded with `seed` by
/// `SeedableRng::seed_from_u64`, draws first from `0..n` with
/// `Rng::gen_range`.
pub uninterp spec fn seeded_draw(seed: u64, n: u32) -> u32;

/// Calls `StdRng::seed_from_u64` and then `Rng::gen_range` on `0..n`. The
/// generator is deterministic for its seed, so the draw is named by
/// `seeded_draw`; rand documents a value inside the range and a panic on an
/// empty range.
#[verifier::external_body]
pub(crate) fn draw_seeded(seed: u64, n: u32) -> (r: u32)
    requires
        n > 0,
    ensures
        r < n,
        r == seeded_draw(seed, n),
{
    StdRng::seed_from_u64(seed).gen_range(0..n)
}

/// Seed for random choices made at a place of the world: the world seed
/// with the place's coordinates folded in.
pub open spec fn place_seed(seed: u64, p: IVec3) -> u64 {
    seed ^ (((p.x as u32) as u64) << 32u64) ^ ((p.y as u32) as u64) ^ (((p.z as u32) as u64)
        << 16u64)
}

/// Seed for random choices made at a place of the world.
pub fn seed_for_place(seed: u64, p: IVec3) -> (r: u64)
    ensures
        r == place_seed(seed, p),
{
    seed ^ (((p.x as u32) as u64) << 32u64) ^ ((p.y as u32) as u64) ^ (((p.z as u32) as u64)
        << 16u64)
}

/// One chance in `n` of coming out true, by a draw of `0..n`.
pub fn one_chance_in(rng: &mut StdRng, n: i32) -> (r: bool)
    requires
        n > 0,
    ensures
        n == 1 ==> r,
{
    gen_range_i32(rng, 0, n) == 0
}

} // verus!
