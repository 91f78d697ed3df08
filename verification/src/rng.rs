//! The random number generator and the weighted draw of the `rand` crates,
//! as the verified code sees them.

use vstd::prelude::*;

use rand::Rng;
use rand::distributions::{Distribution, WeightedError, WeightedIndex};
use rand_chacha::ChaCha8Rng;

verus! {

/// The seeded generator that drives a simulated day.
#[verifier::external_type_specification]
#[verifier::external_body]
pub struct ExChaCha8Rng(ChaCha8Rng);

/// A distribution over indices, weighted by the weights it was made from:
/// `rand`'s `WeightedIndex<u32>`, held in a private field because Verus
/// cannot declare that type (its parameter's bounds name traits of `rand`).
#[verifier::external_body]
pub struct WeightedChoice {
    index: WeightedIndex<u32>,
}

/// Why weights could not be turned into a distribution.
#[verifier::external_type_specification]
#[verifier::external_body]
pub struct ExWeightedError(WeightedError);

/// The weights that a weighted index was built from.
pub uninterp spec fn index_weights(d: WeightedChoice) -> Seq<u32>;

/// Sum of weights.
pub open spec fn weight_sum(ws: Seq<u32>) -> int
    decreases ws.len(),
{
    if ws.len() == 0 {
        0
    } else {
        weight_sum(ws.drop_last()) + ws.last()
    }
}

/// `rand::distributions::WeightedIndex::new` on `u32` weights. Its source
/// fails exactly when there are no weights or they sum to zero (a `u32`
/// weight is never negative), and otherwise keeps the weights it was given;
/// the sum is accumulated in `u32`, hence the bound.
#[verifier::external_body]
pub(crate) fn new_weighted_index(weights: &Vec<u32>) -> (r: Result<WeightedChoice, WeightedError>)
    requires
        weight_sum(weights@) <= u32::MAX,
    ensures
        r is Ok <==> (weights@.len() > 0 && weight_sum(weights@) > 0),
        r matches Ok(d) ==> index_weights(d) == weights@,
{
    match WeightedIndex::new(weights) {
        Ok(index) => Ok(WeightedChoice { index }),
        Err(e) => Err(e),
    }
}

/// `Distribution::sample` of the `WeightedIndex<u32>` held. Its source draws a
/// point below the total weight and returns the index of the weight whose
/// cumulative range holds it, so the index is in range and its weight is
/// positive. Which index comes out depends on the generator's state, which
/// nothing here states.
#[verifier::external_body]
pub(crate) fn sample_weighted_index(d: &WeightedChoice, rng: &mut ChaCha8Rng) -> (i: usize)
    requires
        index_weights(*d).len() > 0,
        weight_sum(index_weights(*d)) > 0,
    ensures
        i < index_weights(*d).len(),
        index_weights(*d)[i as int] > 0,
{
    d.index.sample(rng)
}

/// `Rng::gen_range` on `0..n`, a `usize` range. Its source asserts that the
/// range is not empty and returns a value in it; which value depends on the
/// generator's state, which nothing here states.
#[verifier::external_body]
pub(crate) fn gen_index_below(n: usize, rng: &mut ChaCha8Rng) -> (i: usize)
    requires
        n > 0,
    ensures
        i < n,
{
    rng.gen_range(0..n)
}

/// `Rng::gen_range` on `lo..=hi`, an `i64` range. Its source asserts that the
/// range is not empty and returns a value in it; which value depends on the
/// generator's state, which nothing here states.
#[verifier::external_body]
pub(crate) fn gen_i64_inclusive(lo: i64, hi: i64, rng: &mut ChaCha8Rng) -> (v: i64)
    requires
        lo <= hi,
    ensures
        lo <= v <= hi,
{
    rng.gen_range(lo..=hi)
}

} // verus!
