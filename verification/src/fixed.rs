//! Fixed-point arithmetic used throughout the compositing engine.
//!
//! Real-valued quantities (thresholds, weights, fade factors, distances) are
//! held as `i64` values scaled by [`SCALE`]: the number `x` is represented by
//! `x * SCALE`, so `SCALE` itself stands for `1.0`.

use vstd::prelude::*;

verus! {

/// The fixed-point unit: the representation of the real number `1.0`.
pub const SCALE: i64 = 10000;

/// Half of [`SCALE`], used for rounding to the nearest integer.
pub const HALF_SCALE: i64 = 5000;

/// Rounds a nonnegative fixed-point value to the nearest integer
/// (halves round up).
pub open spec fn spec_round_to_int(v: int) -> int {
    (v + 5000) / 10000
}

/// Rounds a nonnegative fixed-point value to the nearest integer.
pub fn round_to_int(v: i64) -> (r: i64)
    requires
        0 <= v <= i64::MAX - 5000,
    ensures
        r == spec_round_to_int(v as int),
        0 <= r,
{
    (v + HALF_SCALE) / SCALE
}

/// Truncating division (rounding toward zero), as the machine division
/// operator computes it; `d` is expected to be positive.
pub open spec fn spec_div_trunc(n: int, d: int) -> int {
    if n >= 0 {
        n / d
    } else {
        -((-n) / d)
    }
}

/// Truncating division of `n` by a positive divisor `d`.
pub fn div_trunc(n: i64, d: i64) -> (q: i64)
    requires
        0 < d,
        i64::MIN < n,
    ensures
        q == spec_div_trunc(n as int, d as int),
        n >= 0 ==> 0 <= q <= n,
        n < 0 ==> n <= q <= 0,
{
    proof {
        let m: int = if n >= 0 { n as int } else { -(n as int) };
        assert(m <= m * d) by (nonlinear_arith)
            requires 0 < d && 0 <= m;
        vstd::arithmetic::div_mod::lemma_div_of0(d as int);
        vstd::arithmetic::div_mod::lemma_div_is_ordered(0, m, d as int);
        vstd::arithmetic::div_mod::lemma_div_is_ordered(m, m * d, d as int);
        vstd::arithmetic::div_mod::lemma_div_multiples_vanish(m, d as int);
    }
    if n >= 0 {
        n / d
    } else {
        -((-n) / d)
    }
}

/// Truncating division of `dv * df` by `den` interpolates: with
/// `0 <= df <= den` the quotient lies between 0 and `dv`.
pub proof fn lemma_div_trunc_scaled(dv: int, df: int, den: int)
    requires
        0 < den,
        0 <= df <= den,
    ensures
        dv >= 0 ==> 0 <= spec_div_trunc(dv * df, den) <= dv,
        dv < 0 ==> dv <= spec_div_trunc(dv * df, den) <= 0,
{
    let m: int = if dv >= 0 { dv } else { -dv };
    assert(0 <= m * df <= m * den) by (nonlinear_arith)
        requires 0 <= m && 0 <= df <= den;
    vstd::arithmetic::div_mod::lemma_div_pos_is_pos(m * df, den);
    vstd::arithmetic::div_mod::lemma_div_is_ordered(m * df, m * den, den);
    vstd::arithmetic::div_mod::lemma_div_by_multiple(m, den);
    if dv < 0 {
        vstd::arithmetic::div_mod::lemma_div_of0(den);
        if df == 0 {
            assert(dv * df == 0) by (nonlinear_arith)
                requires df == 0;
        } else {
            assert(dv * df < 0 && dv * df == -(m * df)) by (nonlinear_arith)
                requires m == -dv && dv < 0 && df > 0;
        }
    }
}

/// The integer square root: the greatest `r` with `r * r <= x`.
pub open spec fn is_sqrt(x: int, r: int) -> bool {
    &&& 0 <= r
    &&& r * r <= x
    &&& (r + 1) * (r + 1) > x
}

/// Computes the integer square root by bisection.
pub fn isqrt(x: u64) -> (r: u64)
    ensures
        is_sqrt(x as int, r as int),
{
    let mut lo: u64 = 0;
    let mut hi: u64 = 0x1_0000_0000;
    while lo + 1 < hi
        invariant
            lo < hi <= 0x1_0000_0000u64,
            (lo as int) * (lo as int) <= x as int,
            (hi as int) * (hi as int) > x as int,
        decreases hi - lo,
    {
        let mid = lo + (hi - lo) / 2;
        proof {
            assert((mid as int) * (mid as int) <= 0xFFFF_FFFFi128 * 0xFFFF_FFFFi128)
                by (nonlinear_arith)
                requires 0 <= mid as int <= 0xFFFF_FFFFi128;
        }
        let sq = (mid as u128) * (mid as u128);
        if sq <= x as u128 {
            lo = mid;
        } else {
            hi = mid;
        }
    }
    lo
}

} // verus!
