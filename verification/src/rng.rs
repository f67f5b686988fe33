//! The source of randomness used while building trees.
//!
//! All randomness comes through the two wrappers below, so everything computed
//! from the drawn values is verified for every value they could return.

use vstd::prelude::*;

verus! {

#[verifier::external_type_specification]
#[verifier::external_body]
/// A seedable random number generator, so that construction can be made
/// deterministic by the caller.
pub struct ExStdRng(rand::rngs::StdRng);

/// Relies on rand's `Rng::gen_range` over an inclusive range: the drawn value
/// lies in the range, which must not be empty.
#[verifier::external_body]
pub(crate) fn rand_range_i64(rng: &mut rand::rngs::StdRng, lo: i64, hi: i64) -> (r: i64)
    requires
        lo <= hi,
    ensures
        lo <= r <= hi,
{
    rand::Rng::gen_range(rng, lo..=hi)
}

/// Relies on rand's `seq::index::sample`: it returns exactly `k` distinct
/// indices drawn from `0..n`, in unspecified order, and asks that `k <= n`.
#[verifier::external_body]
pub(crate) fn sample_indices(rng: &mut rand::rngs::StdRng, n: usize, k: usize) -> (r: Vec<usize>)
    requires
        k <= n,
    ensures
        r@.len() == k,
        forall|j: int| 0 <= j < r@.len() ==> r@[j] < n,
        forall|a: int, b: int| 0 <= a < b < r@.len() ==> r@[a] != r@[b],
{
    rand::seq::index::sample(rng, n, k).into_vec()
}

} // verus!
