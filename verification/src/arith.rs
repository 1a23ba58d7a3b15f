//! Euclidean division and remainder on machine integers.

use vstd::prelude::*;
use vstd::arithmetic::div_mod::{lemma_fundamental_div_mod, lemma_fundamental_div_mod_converse};
use vstd::arithmetic::mul::{lemma_mul_unary_negation, lemma_mul_is_commutative};

verus! {

/// Division rounding towards zero, as Rust's `/` does on signed integers.
pub open spec fn trunc_div(x: int, m: int) -> int {
    if x >= 0 {
        x / m
    } else {
        -((-x) / m)
    }
}

proof fn lemma_trunc_div(x: int, m: int)
    requires
        m > 0,
    ensures
        x >= 0 ==> 0 <= x - m * trunc_div(x, m) < m,
        x < 0 ==> -m < x - m * trunc_div(x, m) <= 0,
        m * trunc_div(x, m) == trunc_div(x, m) * m,
{
    lemma_mul_is_commutative(m, trunc_div(x, m));
    if x >= 0 {
        lemma_fundamental_div_mod(x, m);
    } else {
        let a = -x;
        lemma_fundamental_div_mod(a, m);
        lemma_mul_unary_negation(m, a / m);
    }
}

/// Euclidean quotient and remainder of `x` by a positive `m`.
pub fn div_rem_euclid_i64(x: i64, m: i64) -> (r: (i64, i64))
    requires
        m > 0,
    ensures
        r.0 == x / m,
        r.1 == x % m,
{
    let q = x / m;
    proof {
        lemma_trunc_div(x as int, m as int);
    }
    let p: i128 = (q as i128) * (m as i128);
    let rt: i128 = (x as i128) - p;
    if rt < 0 {
        proof {
            let qi = q as int;
            let mi = m as int;
            assert((qi - 1) * mi == qi * mi - mi) by (nonlinear_arith);
            lemma_fundamental_div_mod_converse(x as int, m as int, q - 1, rt + m);
            lemma_div_bound(x as int, m as int);
        }
        (((q as i128) - 1) as i64, (rt + m as i128) as i64)
    } else {
        proof {
            lemma_fundamental_div_mod_converse(x as int, m as int, q as int, rt as int);
        }
        (q, rt as i64)
    }
}

/// Euclidean remainder, always in `[0, m)`.
pub fn rem_euclid_i64(x: i64, m: i64) -> (r: i64)
    requires
        m > 0,
    ensures
        r == x % m,
        0 <= r < m,
{
    div_rem_euclid_i64(x, m).1
}

/// Euclidean quotient, rounding towards negative infinity for positive `m`.
pub fn div_euclid_i64(x: i64, m: i64) -> (r: i64)
    requires
        m > 0,
    ensures
        r == x / m,
{
    div_rem_euclid_i64(x, m).0
}

pub fn rem_euclid_i32(x: i32, m: i32) -> (r: i32)
    requires
        m > 0,
    ensures
        r == x % m,
        0 <= r < m,
{
    rem_euclid_i64(x as i64, m as i64) as i32
}

pub fn div_euclid_i32(x: i32, m: i32) -> (r: i32)
    requires
        m > 0,
    ensures
        r == x / m,
{
    proof {
        lemma_div_bound(x as int, m as int);
    }
    div_euclid_i64(x as i64, m as i64) as i32
}

proof fn lemma_div_bound(x: int, m: int)
    requires
        m > 0,
    ensures
        x >= 0 ==> 0 <= x / m <= x,
        x < 0 ==> x <= x / m < 0,
{
    lemma_fundamental_div_mod(x, m);
    if x >= 0 {
        assert(0 <= x / m <= x) by (nonlinear_arith)
            requires
                x == m * (x / m) + x % m,
                0 <= x % m < m,
                m > 0,
                x >= 0,
        ;
    } else {
        assert(x <= x / m < 0) by (nonlinear_arith)
            requires
                x == m * (x / m) + x % m,
                0 <= x % m < m,
                m > 0,
                x < 0,
        ;
    }
}

} // verus!
