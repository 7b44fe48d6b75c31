//! The random draws of the generators, taken from the `rand` crate.
//!
//! Nothing is claimed of a draw but the range it comes from: the functions
//! that draw are verified for every value that may come back.
use rand::rngs::StdRng;
use rand::seq::SliceRandom;
use rand::Rng;
use vstd::prelude::*;

verus! {

/// The standard generator of the `rand` crate. Its state is not visible to
/// the verifier.
#[verifier::external_type_specification]
#[verifier::external_body]
pub struct ExStdRng(rand::rngs::StdRng);

/// Calls `Rng::gen_range` on the inclusive range from `low` to `high`.
///
/// Trusted: the draw lies in the range. An empty range makes `gen_range`
/// panic, so it is excluded.
#[verifier::external_body]
pub(crate) fn gen_range_u32(rng: &mut StdRng, low: u32, high: u32) -> (r: u32)
    requires
        low <= high,
    ensures
        low <= r <= high,
{
    rng.gen_range(low..=high)
}

/// Calls `Rng::gen_range` on the half-open range from `0` to `len`.
///
/// Trusted: the draw is an index below `len`. An empty range makes
/// `gen_range` panic, so it is excluded.
#[verifier::external_body]
pub(crate) fn gen_index(rng: &mut StdRng, len: usize) -> (r: usize)
    requires
        len > 0,
    ensures
        r < len,
{
    rng.gen_range(0..len)
}

/// Calls `SliceRandom::shuffle` on the elements of the vector.
///
/// Trusted: the vector holds the same elements as before, each as often as
/// before. Nothing is claimed of their order.
#[verifier::external_body]
pub(crate) fn shuffle<T>(rng: &mut StdRng, items: &mut Vec<T>)
    ensures
        final(items)@.to_multiset() == old(items)@.to_multiset(),
{
    items.shuffle(rng)
}

/// Calls `Rng::gen_ratio`: a coin that shows `true` with the probability
/// `numerator` in `denominator`.
///
/// Nothing is claimed of the result. A denominator of zero or a numerator
/// above the denominator makes `gen_ratio` panic, so they are excluded.
#[verifier::external_body]
pub(crate) fn gen_ratio(rng: &mut StdRng, numerator: u32, denominator: u32) -> (r: bool)
    requires
        denominator > 0,
        numerator <= denominator,
{
    rng.gen_ratio(numerator, denominator)
}

} // verus!
