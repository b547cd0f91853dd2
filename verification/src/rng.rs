use vstd::prelude::*;

use crate::bow::sum64;

verus! {

#[verifier::external_type_specification]
#[verifier::external_body]
pub struct ExThreadRng(rand::rngs::ThreadRng);

/// A prepared weighted draw over a list of integer weights. Holds a
/// rand::distributions::WeightedIndex, whose declaration Verus
/// refuses because of its outside trait bounds.
#[verifier::external_body]
pub struct WeightedPick {
    inner: rand::distributions::WeightedIndex<u64>,
}

/// How many weights a `WeightedPick` was built from.
pub uninterp spec fn weighted_count(d: WeightedPick) -> int;

/// Relies on rand::thread_rng: a lazily seeded thread-local random
/// number generator handle.
#[verifier::external_body]
pub(crate) fn new_rng() -> rand::rngs::ThreadRng {
    rand::thread_rng()
}

/// Relies on Rng::gen_range over `0..n`: a draw from that range,
/// which panics only when the range is empty.
#[verifier::external_body]
pub(crate) fn gen_index(rng: &mut rand::rngs::ThreadRng, n: usize) -> (r: usize)
    requires
        1 <= n,
    ensures
        r < n,
{
    rand::Rng::gen_range(rng, 0..n)
}

/// Relies on WeightedIndex::new: `Ok` holds a distribution over the
/// given weights (so at least one weight was handed in); `Err` comes
/// when the weights are empty or their total is zero. `new` sums the
/// weights with plain additions, so the caller must keep the total
/// within `u64` (an overflowing total panics in debug builds).
#[verifier::external_body]
pub(crate) fn weighted_new(weights: &Vec<u64>) -> (r: Option<WeightedPick>)
    requires
        sum64(weights@) <= u64::MAX,
    ensures
        r matches Some(d) ==> weighted_count(d) == weights@.len() && 1 <= weights@.len(),
{
    match rand::distributions::WeightedIndex::new(weights) {
        Ok(inner) => Some(WeightedPick { inner }),
        Err(_) => None,
    }
}

/// Relies on WeightedIndex::sample, which returns the position of
/// one of the weights the distribution was built from: it returns
/// the insertion point of a binary search among the cumulative
/// weights, which come one per weight after the first.
#[verifier::external_body]
pub(crate) fn weighted_sample(d: &WeightedPick, rng: &mut rand::rngs::ThreadRng) -> (r: usize)
    ensures
        r < weighted_count(*d),
{
    rand::distributions::Distribution::sample(&d.inner, rng)
}

} // verus!
