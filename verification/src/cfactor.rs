//! The path-length normalizer: the expected path length of an unsuccessful
//! search in a random binary search tree of a given size, in fixed point.
//!
//! For `n >= 2` points the exact expected length is
//! `2 * H(n - 1) - 2 * (n - 1) / n`, where `H(k)` is the k-th harmonic
//! number. Both the harmonic sum and the final value are computed in fixed
//! point with scale [`crate::SCALE`]. For `n <= 1` the value is 0 by
//! convention: an empty or singleton leaf contributes no extra path length.

use vstd::prelude::*;

use crate::SCALE;

verus! {

/// The k-th harmonic number in fixed point: the sum of `SCALE / i` for
/// `i` from 1 to `k`, each term rounded down.
pub open spec fn spec_harmonic(k: nat) -> int
    decreases k,
{
    if k == 0 {
        0
    } else {
        spec_harmonic((k - 1) as nat) + SCALE as int / k as int
    }
}

/// The fixed-point c-factor: average path length of an unsuccessful search in
/// a binary search tree holding `n` points, 0 for `n <= 1`.
pub open spec fn spec_c_factor(n: int) -> int {
    if n <= 1 {
        0
    } else {
        2 * spec_harmonic((n - 1) as nat) + 2 * (SCALE as int / n) - 2 * SCALE
    }
}

/// The harmonic sum never goes down.
proof fn lemma_harmonic_nondecreasing(j: nat, k: nat)
    requires
        j <= k,
    ensures
        spec_harmonic(j) <= spec_harmonic(k),
    decreases k,
{
    if j < k {
        lemma_harmonic_nondecreasing(j, (k - 1) as nat);
        assert(SCALE as int / k as int >= 0) by (nonlinear_arith)
            requires k >= 1;
    }
}

/// Every term with index above `SCALE` is zero, so the sum is bounded by
/// `SCALE` terms of at most `SCALE` each.
proof fn lemma_harmonic_bound(k: nat)
    ensures
        spec_harmonic(k) <= SCALE * SCALE,
        spec_harmonic(k) <= SCALE * k,
    decreases k,
{
    if k == 0 {
    } else {
        lemma_harmonic_bound((k - 1) as nat);
        assert(SCALE as int / k as int <= SCALE) by (nonlinear_arith)
            requires k >= 1;
        assert(SCALE * k == SCALE * (k - 1) + SCALE) by (nonlinear_arith);
        if k > SCALE {
            assert(SCALE as int / k as int == 0) by (nonlinear_arith)
                requires k > SCALE;
        } else {
            assert(SCALE * k <= SCALE * SCALE) by (nonlinear_arith)
                requires k <= SCALE;
        }
    }
}

/// Beyond `SCALE` the harmonic sum is stationary.
proof fn lemma_harmonic_stationary(k: nat)
    requires
        k >= SCALE,
    ensures
        spec_harmonic(k) == spec_harmonic(SCALE as nat),
    decreases k,
{
    if k > SCALE {
        assert(SCALE as int / k as int == 0) by (nonlinear_arith)
            requires k > SCALE;
        lemma_harmonic_stationary((k - 1) as nat);
    }
}

/// From one point on, the harmonic sum is at least one whole unit.
proof fn lemma_harmonic_at_least_one(k: nat)
    requires
        k >= 1,
    ensures
        spec_harmonic(k) >= SCALE,
{
    reveal_with_fuel(spec_harmonic, 2);
    assert(spec_harmonic(1) == SCALE as int / 1);
    lemma_harmonic_nondecreasing(1, k);
}

/// The c-factor of an empty or singleton leaf is zero.
pub proof fn lemma_c_factor_zero_for_small(n: int)
    requires
        n <= 1,
    ensures
        spec_c_factor(n) == 0,
{
}

/// Raising the point count by one raises the c-factor by exactly
/// `2 * (SCALE / (n + 1))`.
proof fn lemma_c_factor_step(n: int)
    requires
        n >= 2,
    ensures
        spec_c_factor(n + 1) - spec_c_factor(n) == 2 * (SCALE as int / (n + 1)),
{
    assert(spec_harmonic(n as nat) == spec_harmonic((n - 1) as nat) + SCALE as int / n);
}

/// The c-factor never goes down as the point count grows.
pub proof fn lemma_c_factor_nondecreasing(n: int, m: int)
    requires
        2 <= n <= m,
    ensures
        spec_c_factor(n) <= spec_c_factor(m),
    decreases m - n,
{
    if n < m {
        lemma_c_factor_step(m - 1);
        assert(SCALE as int / m >= 0) by (nonlinear_arith)
            requires m >= 1;
        lemma_c_factor_nondecreasing(n, m - 1);
    }
}

/// The c-factor strictly grows with the point count, as long as the count
/// stays within the fixed-point resolution.
pub proof fn lemma_c_factor_increasing(n: int, m: int)
    requires
        2 <= n < m <= SCALE,
    ensures
        spec_c_factor(n) < spec_c_factor(m),
    decreases m - n,
{
    lemma_c_factor_step(m - 1);
    assert(SCALE as int / m >= 1) by (nonlinear_arith)
        requires 1 <= m <= SCALE;
    if n < m - 1 {
        lemma_c_factor_increasing(n, m - 1);
    }
}

/// The c-factor is never negative and never larger than `2 * SCALE * SCALE`.
pub proof fn lemma_c_factor_range(n: int)
    ensures
        0 <= spec_c_factor(n) <= 2 * (SCALE * SCALE),
{
    if n >= 2 {
        lemma_harmonic_at_least_one((n - 1) as nat);
        lemma_harmonic_bound((n - 1) as nat);
        assert(SCALE as int / n >= 0) by (nonlinear_arith)
            requires n >= 1;
        assert(SCALE as int / n <= SCALE) by (nonlinear_arith)
            requires n >= 1;
    }
}

/// Computes the fixed-point c-factor of `n` points.
pub fn c_factor(n: usize) -> (r: u64)
    ensures
        r == spec_c_factor(n as int),
{
    if n <= 1 {
        return 0;
    }
    let m: u64 = (n - 1) as u64;
    let cap: u64 = if m < SCALE {
        m
    } else {
        SCALE
    };
    let mut acc: u64 = 0;
    let mut i: u64 = 0;
    while i < cap
        invariant
            i <= cap,
            cap <= SCALE,
            acc == spec_harmonic(i as nat),
            acc <= SCALE * SCALE,
        decreases cap - i,
    {
        proof {
            lemma_harmonic_bound((i + 1) as nat);
        }
        i = i + 1;
        acc = acc + SCALE / i;
    }
    proof {
        if m > cap {
            lemma_harmonic_stationary(m as nat);
        }
        lemma_harmonic_at_least_one(m as nat);
        lemma_harmonic_bound(m as nat);
    }
    2 * acc + 2 * (SCALE / (n as u64)) - 2 * SCALE
}

/// The least `r` with `2^r >= n`; in other words the ceiling of the base-two
/// logarithm of `n`, the default depth limit for a sample of `n` points.
pub open spec fn spec_ceil_log2(n: int) -> nat
    decreases n,
{
    if n <= 1 {
        0
    } else {
        1 + spec_ceil_log2((n + 1) / 2)
    }
}

/// Powers of two, as a plain specification.
pub open spec fn spec_pow2(k: nat) -> nat
    decreases k,
{
    if k == 0 {
        1
    } else {
        2 * spec_pow2((k - 1) as nat)
    }
}

/// The ceiling logarithm never exceeds the number itself.
pub proof fn lemma_ceil_log2_le(n: int)
    requires
        n >= 1,
    ensures
        spec_ceil_log2(n) <= n,
    decreases n,
{
    if n > 1 {
        lemma_ceil_log2_le((n + 1) / 2);
    }
}

/// A number at most `2^k` has ceiling logarithm at most `k`.
pub proof fn lemma_ceil_log2_pow(k: nat, n: int)
    requires
        1 <= n <= spec_pow2(k),
    ensures
        spec_ceil_log2(n) <= k,
    decreases k,
{
    if n > 1 {
        assert(k >= 1) by {
            if k == 0 {
                assert(spec_pow2(0) == 1);
            }
        }
        assert(spec_pow2(k) == 2 * spec_pow2((k - 1) as nat));
        lemma_ceil_log2_pow((k - 1) as nat, (n + 1) / 2);
    }
}

/// `2^62` in closed form, for bounding the default depth limit.
pub proof fn lemma_pow2_62()
    ensures
        spec_pow2(62) == 0x4000000000000000,
{
    reveal_with_fuel(spec_pow2, 64);
}

/// Computes the ceiling of the base-two logarithm of `n`.
pub fn ceil_log2(n: usize) -> (r: usize)
    requires
        n >= 1,
    ensures
        r == spec_ceil_log2(n as int),
        r <= n,
    decreases n,
{
    if n <= 1 {
        0
    } else {
        let half: usize = n / 2 + n % 2;
        assert(half == (n + 1) as int / 2);
        proof {
            lemma_ceil_log2_le(half as int);
        }
        1 + ceil_log2(half)
    }
}

} // verus!
