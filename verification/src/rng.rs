//! Random numbers, drawn from the `rand` crate's thread-local generator.
use rand::distributions::{Distribution, WeightedError, WeightedIndex};
use rand::Rng;
use vstd::prelude::*;

verus! {

/// A weighted distribution over positions, made by `rand`'s
/// `WeightedIndex::new` and held opaque: only `weighted_sample` reads it,
/// and `index_weights` names the weights it was made from.
#[verifier::external_body]
pub struct Weighted {
    dist: WeightedIndex<u32>,
}

#[verifier::external_type_specification]
#[verifier::external_body]
pub struct ExWeightedError(WeightedError);

/// Calls `rand::thread_rng().gen_range(low, high)`: a number drawn from the
/// thread's generator, at least `low` and below `high` (rand 0.7 panics when
/// `low >= high`, which `requires` rules out). Which number comes out is left
/// open: it depends on the generator's state.
#[verifier::external_body]
pub(crate) fn gen_range(low: i32, high: i32) -> (r: i32)
    requires
        low < high,
    ensures
        low <= r < high,
{
    rand::thread_rng().gen_range(low, high)
}

/// Calls `rand::random::<bool>()`: a coin toss of the thread's generator.
/// Nothing is said of the outcome.
#[verifier::external_body]
pub(crate) fn random_bool() -> bool {
    rand::random::<bool>()
}

/// The sum of the weights.
pub open spec fn total_weight(weights: Seq<u32>) -> int
    decreases weights.len(),
{
    if weights.len() == 0 {
        0
    } else {
        total_weight(weights.drop_last()) + weights.last()
    }
}

/// Some weight is not 0.
pub open spec fn some_weight(weights: Seq<u32>) -> bool {
    exists|i: int| 0 <= i < weights.len() && #[trigger] weights[i] > 0
}

/// The weights a weighted distribution was made with.
pub uninterp spec fn index_weights(d: Weighted) -> Seq<u32>;

/// Calls `WeightedIndex::new(weights)`. As rand's source shows, it fails when
/// there is no weight or every weight is 0 (a `u32` weight is never
/// negative), and otherwise makes a distribution over the positions of the
/// weights. The weights are summed in `u32`, which `requires` keeps from
/// overflowing.
#[verifier::external_body]
pub(crate) fn weighted_index(weights: &Vec<u32>) -> (r: Result<Weighted, WeightedError>)
    requires
        total_weight(weights@) <= u32::MAX,
    ensures
        r is Ok <==> some_weight(weights@),
        r matches Ok(d) ==> index_weights(d) == weights@,
{
    match WeightedIndex::new(weights) {
        Ok(dist) => Ok(Weighted { dist }),
        Err(e) => Err(e),
    }
}

/// Calls `d.sample(&mut rand::thread_rng())`: the position of one of the
/// weights the distribution was made with, never one whose weight is 0 (rand
/// draws a number below the total and returns the position whose share of
/// the total holds it). Which position comes out depends on the generator's
/// state.
#[verifier::external_body]
pub(crate) fn weighted_sample(d: &Weighted) -> (r: usize)
    ensures
        r < index_weights(*d).len(),
        index_weights(*d)[r as int] > 0,
{
    d.dist.sample(&mut rand::thread_rng())
}

} // verus!
