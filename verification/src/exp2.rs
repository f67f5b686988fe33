//! Fixed-point `2^(-x)` for non-negative fixed-point `x`, used to turn an
//! average normalized path length into an anomaly score in `(0, 1]`.
//!
//! The fractional part is handled with sixteen precomputed constants, the
//! fixed-point values of `2^(-1/2), 2^(-1/4), ..., 2^(-1/65536)`; the integer
//! part becomes a division by a power of two.

use vstd::prelude::*;

use crate::cfactor::spec_pow2;
use crate::SCALE;

verus! {

/// The fixed-point value of `2^(-2^-i)`, for `i` from 1 to 16.
pub open spec fn exp2_const(i: int) -> int {
    if i == 1 {
        46341
    } else if i == 2 {
        55109
    } else if i == 3 {
        60097
    } else if i == 4 {
        62757
    } else if i == 5 {
        64132
    } else if i == 6 {
        64830
    } else if i == 7 {
        65182
    } else if i == 8 {
        65359
    } else if i == 9 {
        65447
    } else if i == 10 {
        65492
    } else if i == 11 {
        65514
    } else if i == 12 {
        65525
    } else if i == 13 {
        65530
    } else if i == 14 {
        65533
    } else if i == 15 {
        65535
    } else if i == 16 {
        65535
    } else {
        0
    }
}

/// Bit `i` of the 16-bit fraction `f`, counting from the most significant.
pub open spec fn frac_bit(f: int, i: int) -> bool {
    f / (spec_pow2((16 - i) as nat) as int) % 2 == 1
}

/// The running product over the first `i` fraction bits, starting at `SCALE`
/// and multiplying in `exp2_const(j)` for every set bit `j`.
pub open spec fn spec_frac_prefix(f: int, i: int) -> int
    decreases i,
{
    if i <= 0 {
        SCALE as int
    } else {
        let prev = spec_frac_prefix(f, i - 1);
        if frac_bit(f, i) {
            prev * exp2_const(i) / SCALE as int
        } else {
            prev
        }
    }
}

/// Fixed-point `2^(-x/SCALE)`: the fraction product divided by two to the
/// integer part, zero once the integer part reaches 64.
pub open spec fn spec_exp2_neg(x: int) -> int {
    let k = x / SCALE as int;
    let f = x % SCALE as int;
    if k >= 64 {
        0
    } else {
        spec_frac_prefix(f, 16) / (spec_pow2(k as nat) as int)
    }
}

/// The constant table as executable values.
fn exp2_const_at(i: usize) -> (r: u64)
    requires
        1 <= i <= 16,
    ensures
        r == exp2_const(i as int),
        r < SCALE,
{
    if i == 1 {
        46341
    } else if i == 2 {
        55109
    } else if i == 3 {
        60097
    } else if i == 4 {
        62757
    } else if i == 5 {
        64132
    } else if i == 6 {
        64830
    } else if i == 7 {
        65182
    } else if i == 8 {
        65359
    } else if i == 9 {
        65447
    } else if i == 10 {
        65492
    } else if i == 11 {
        65514
    } else if i == 12 {
        65525
    } else if i == 13 {
        65530
    } else if i == 14 {
        65533
    } else if i == 15 {
        65535
    } else {
        65535
    }
}

/// The running product never grows.
proof fn lemma_frac_prefix_bound(f: int, i: int)
    ensures
        0 <= spec_frac_prefix(f, i) <= SCALE,
    decreases i,
{
    if i <= 0 {
    } else {
        lemma_frac_prefix_bound(f, i - 1);
        let prev = spec_frac_prefix(f, i - 1);
        if frac_bit(f, i) {
            assert(0 <= prev * exp2_const(i) / SCALE as int <= prev) by (nonlinear_arith)
                requires
                    0 <= prev,
                    0 <= exp2_const(i) <= SCALE,
            ;
        }
    }
}

/// Computes the fixed-point fraction product for a 16-bit fraction.
fn exp2_frac(f: u64) -> (r: u64)
    requires
        f < SCALE,
    ensures
        r == spec_frac_prefix(f as int, 16),
        r <= SCALE,
{
    let mut r: u64 = SCALE;
    let mut i: usize = 0;
    let mut pow: u64 = 32768;
    proof {
        reveal_with_fuel(spec_pow2, 17);
    }
    while i < 16
        invariant
            i <= 16,
            f < SCALE,
            r == spec_frac_prefix(f as int, i as int),
            r <= SCALE,
            i < 16 ==> pow == spec_pow2((16 - i - 1) as nat),
        decreases 16 - i,
    {
        proof {
            lemma_frac_prefix_bound(f as int, i as int + 1);
            lemma_pow2_pos((16 - i - 1) as nat);
        }
        let bit = (f / pow) % 2;
        if bit == 1 {
            let c = exp2_const_at(i + 1);
            assert(r as int * c as int / (SCALE as int) == spec_frac_prefix(f as int, i as int + 1)) by {
                assert(frac_bit(f as int, i as int + 1));
            }
            assert(r * c < 0x1_0000_0000_0000_0000) by (nonlinear_arith)
                requires
                    r <= SCALE,
                    c < SCALE,
            ;
            r = r * c / SCALE;
        } else {
            assert(!frac_bit(f as int, i as int + 1));
        }
        i = i + 1;
        if i < 16 {
            assert(spec_pow2((16 - i) as nat) == 2 * spec_pow2((16 - i - 1) as nat));
            pow = pow / 2;
        }
    }
    r
}

/// Computes fixed-point `2^(-x/SCALE)` for a non-negative fixed-point `x`.
pub fn exp2_neg(x: u64) -> (r: u64)
    ensures
        r == spec_exp2_neg(x as int),
        r <= SCALE,
{
    let k = x / SCALE;
    let f = x % SCALE;
    if k >= 64 {
        return 0;
    }
    let fr = exp2_frac(f);
    let mut pow: u64 = 1;
    let mut j: u64 = 0;
    while j < k
        invariant
            j <= k,
            k < 64,
            pow == spec_pow2(j as nat),
            pow <= 0x8000_0000_0000_0000,
        decreases k - j,
    {
        proof {
            lemma_pow2_increases((j + 1) as nat, 63);
            lemma_pow2_63();
        }
        pow = pow * 2;
        j = j + 1;
    }
    proof {
        lemma_pow2_pos(k as nat);
        lemma_frac_prefix_bound(f as int, 16);
    }
    fr / pow
}

/// Every power of two is positive.
proof fn lemma_pow2_pos(k: nat)
    ensures
        spec_pow2(k) >= 1,
    decreases k,
{
    if k > 0 {
        lemma_pow2_pos((k - 1) as nat);
    }
}

/// Powers of two grow with the exponent.
proof fn lemma_pow2_increases(j: nat, k: nat)
    requires
        j <= k,
    ensures
        spec_pow2(j) <= spec_pow2(k),
    decreases k,
{
    if j < k {
        lemma_pow2_increases(j, (k - 1) as nat);
        lemma_pow2_pos((k - 1) as nat);
    }
}

/// The concrete value of `2^63`.
proof fn lemma_pow2_63()
    ensures
        spec_pow2(63) == 0x8000_0000_0000_0000,
{
    reveal_with_fuel(spec_pow2, 64);
}

} // verus!
