//! Draws from rand's distributions, on a random source that the caller owns.

use vstd::prelude::*;
use rand::distributions::Distribution;
use rand::distributions::Slice;
use rand::distributions::WeightedError;
use rand::distributions::WeightedIndex;
use rand::rngs::StdRng;

verus! {

/// rand's seedable generator, carried through as the caller's random source.
#[verifier::external_type_specification]
#[verifier::external_body]
pub struct ExStdRng(StdRng);

/// rand's error for a weighted distribution that cannot be built.
#[verifier::external_type_specification]
#[verifier::external_body]
pub struct ExWeightedError(WeightedError);

/// The sum of a sequence of weights.
pub open spec fn weight_sum(w: Seq<usize>) -> nat
    decreases w.len(),
{
    if w.len() == 0 {
        0
    } else {
        weight_sum(w.drop_last()) + w.last() as nat
    }
}

/// Relies on rand's `WeightedIndex::new` and its `Distribution::sample`: building the
/// distribution fails exactly when no weight is given or every weight is zero (a `usize`
/// weight is never negative), and a draw is the index of a weight that is not zero.
#[verifier::external_body]
pub(crate) fn sample_weighted(weights: &[usize], rng: &mut StdRng) -> (r: Result<usize, WeightedError>)
    requires
        weight_sum(weights@) <= usize::MAX,
    ensures
        r is Ok <==> (weights@.len() > 0 && weight_sum(weights@) > 0),
        r is Ok ==> r->Ok_0 < weights@.len() && weights@[r->Ok_0 as int] > 0,
{
    match WeightedIndex::new(weights) {
        Ok(d) => Ok(d.sample(rng)),
        Err(e) => Err(e),
    }
}

/// Relies on rand's `Slice::new` and its `Distribution::sample`: building the
/// distribution fails exactly on an empty slice, and a draw is one of the slice's items.
#[verifier::external_body]
pub(crate) fn sample_slice(values: &[u8], rng: &mut StdRng) -> (r: Option<u8>)
    ensures
        r is Some <==> values@.len() > 0,
        r is Some ==> values@.contains(r->Some_0),
{
    match Slice::new(values) {
        Ok(d) => Some(*d.sample(rng)),
        Err(_) => None,
    }
}

} // verus!
