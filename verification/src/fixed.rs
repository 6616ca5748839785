//! Exact Q32 fixed-point arithmetic for the blur engine.
//!
//! A quantity in [0, 2^32) of whole units is represented by a `u64` (or
//! `u128`) holding `value * 2^32`, so `FIX_ONE` stands for 1.0. Channel
//! intensities live in `0 ..= MAX_LEVEL` (`255 * FIX_ONE`), one fixed-point
//! unit per 8-bit level. All operations are plain integer arithmetic, so
//! every result is a mathematical function of the operands.
use vstd::prelude::*;

verus! {

/// 1.0 in Q32 fixed point: 2^32.
pub const FIX_ONE: u64 = 0x1_0000_0000;

/// 0.5 in Q32 fixed point, used to round to the nearest unit.
pub const FIX_HALF: u64 = 0x8000_0000;

/// The largest channel intensity: 255.0 in Q32 fixed point.
pub const MAX_LEVEL: u64 = 255 * 0x1_0000_0000;

/// The integer square root: the largest `r` with `r * r <= n`, defined by
/// counting up from 0.
pub open spec fn sqrt_floor(n: nat) -> nat
    decreases n,
{
    if n == 0 {
        0
    } else {
        let p = sqrt_floor((n - 1) as nat);
        if (p + 1) * (p + 1) <= n {
            p + 1
        } else {
            p
        }
    }
}

/// `sqrt_floor(n)` is the unique value whose square is at most `n` while the
/// next square is beyond `n`.
pub proof fn lemma_sqrt_floor_bounds(n: nat)
    ensures
        sqrt_floor(n) * sqrt_floor(n) <= n,
        n < (sqrt_floor(n) + 1) * (sqrt_floor(n) + 1),
    decreases n,
{
    if n > 0 {
        lemma_sqrt_floor_bounds((n - 1) as nat);
        let p = sqrt_floor((n - 1) as nat);
        if (p + 1) * (p + 1) <= n {
            assert(sqrt_floor(n) == p + 1);
            assert(n - 1 < (p + 1) * (p + 1));
            assert(n < (p + 2) * (p + 2)) by (nonlinear_arith)
                requires
                    n <= (p + 1) * (p + 1),
                    p >= 0,
            ;
        } else {
            assert(sqrt_floor(n) == p);
            assert(p * p <= n - 1 <= n);
        }
    } else {
        assert(sqrt_floor(n) == 0);
        assert(n < (sqrt_floor(n) + 1) * (sqrt_floor(n) + 1)) by (nonlinear_arith)
            requires
                n == 0,
                sqrt_floor(n) == 0,
        ;
    }
}

/// Any `r` bracketed by its own square and the next one is `sqrt_floor(n)`.
pub proof fn lemma_sqrt_floor_unique(n: nat, r: nat)
    requires
        r * r <= n,
        n < (r + 1) * (r + 1),
    ensures
        r == sqrt_floor(n),
{
    let s = sqrt_floor(n);
    lemma_sqrt_floor_bounds(n);
    if r < s {
        assert((r + 1) * (r + 1) <= s * s) by (nonlinear_arith)
            requires
                r + 1 <= s,
        ;
    }
    if s < r {
        assert((s + 1) * (s + 1) <= r * r) by (nonlinear_arith)
            requires
                s + 1 <= r,
        ;
    }
}

/// The integer square root of a `u128`, by binary search.
pub fn isqrt(n: u128) -> (r: u64)
    ensures
        r == sqrt_floor(n as nat),
{
    let mut lo: u128 = 0;
    let mut hi: u128 = 0x1_0000_0000_0000_0000;
    proof {
        assert(n < hi * hi) by (nonlinear_arith)
            requires
                hi == 0x1_0000_0000_0000_0000u128,
                n <= u128::MAX,
        ;
    }
    while lo + 1 < hi
        invariant
            lo < hi <= 0x1_0000_0000_0000_0000,
            lo * lo <= n,
            n < hi * hi,
        decreases hi - lo,
    {
        let mid = lo + (hi - lo) / 2;
        proof {
            assert(lo < mid < hi) by (nonlinear_arith)
                requires
                    lo + 1 < hi,
                    mid == lo + (hi - lo) / 2,
            ;
            assert(mid * mid < u128::MAX) by (nonlinear_arith)
                requires
                    mid < 0x1_0000_0000_0000_0000u128,
            ;
        }
        if mid * mid <= n {
            lo = mid;
        } else {
            hi = mid;
        }
    }
    proof {
        assert(n < (lo + 1) * (lo + 1));
        lemma_sqrt_floor_unique(n as nat, lo as nat);
        assert(lo * lo <= n);
        assert(lo < 0x1_0000_0000_0000_0000) by (nonlinear_arith)
            requires
                lo * lo <= n,
                n <= u128::MAX,
        ;
    }
    lo as u64
}

/// The rounded Q32 blend `(1 - d) * a + d * b`, the one step of the
/// recursive sweep: the new sample mixes the source sample `a` with the
/// neighbouring already-filtered sample `b`, weighted by the feedback
/// coefficient `d`.
pub open spec fn spec_mix(a: int, b: int, d: int) -> int {
    ((FIX_ONE - d) * a + d * b + FIX_HALF) / (FIX_ONE as int)
}

/// The rounded Q32 product `(1 - d) * a`: the blend of `a` with a missing
/// neighbour, used at the first sample of each sweep.
pub open spec fn spec_damp(a: int, d: int) -> int {
    ((FIX_ONE - d) * a + FIX_HALF) / (FIX_ONE as int)
}

/// A blend of two intensities within a bound stays within the bound.
pub proof fn lemma_mix_bound(a: int, b: int, d: int, m: int)
    requires
        0 <= a <= m,
        0 <= b <= m,
        0 <= d <= FIX_ONE,
    ensures
        0 <= spec_mix(a, b, d) <= m,
        0 <= spec_damp(a, d) <= m,
{
    let one = FIX_ONE as int;
    assert(0 <= (one - d) * a + d * b + FIX_HALF < (m + 1) * one) by (nonlinear_arith)
        requires
            0 <= a <= m,
            0 <= b <= m,
            0 <= d <= one,
            one == FIX_ONE,
    ;
    assert(0 <= (one - d) * a + FIX_HALF < (m + 1) * one) by (nonlinear_arith)
        requires
            0 <= a <= m,
            0 <= d <= one,
            one == FIX_ONE,
    ;
    assert(((m + 1) * one) / one == m + 1) by (nonlinear_arith)
        requires
            one > 0,
    ;
    vstd::arithmetic::div_mod::lemma_div_is_ordered(
        (one - d) * a + d * b + FIX_HALF,
        (m + 1) * one - 1,
        one,
    );
    vstd::arithmetic::div_mod::lemma_div_is_ordered((one - d) * a + FIX_HALF, (m + 1) * one - 1, one);
    assert(((m + 1) * one - 1) / one == m) by (nonlinear_arith)
        requires
            one > 1,
            m >= 0,
    ;
}

/// Computes `spec_mix` on intensities.
pub fn mix(a: u64, b: u64, d: u64) -> (r: u64)
    requires
        a <= MAX_LEVEL,
        b <= MAX_LEVEL,
        d < FIX_ONE,
    ensures
        r == spec_mix(a as int, b as int, d as int),
        r <= MAX_LEVEL,
{
    proof {
        lemma_mix_bound(a as int, b as int, d as int, MAX_LEVEL as int);
    }
    let wide: u128 = ((FIX_ONE - d) as u128) * (a as u128) + (d as u128) * (b as u128) + (
    FIX_HALF as u128);
    (wide / (FIX_ONE as u128)) as u64
}

/// Computes `spec_damp` on intensities.
pub fn damp(a: u64, d: u64) -> (r: u64)
    requires
        a <= MAX_LEVEL,
        d < FIX_ONE,
    ensures
        r == spec_damp(a as int, d as int),
        r <= MAX_LEVEL,
{
    proof {
        lemma_mix_bound(a as int, 0, d as int, MAX_LEVEL as int);
    }
    let wide: u128 = ((FIX_ONE - d) as u128) * (a as u128) + (FIX_HALF as u128);
    (wide / (FIX_ONE as u128)) as u64
}

} // verus!
