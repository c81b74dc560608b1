//! The random choices that the population leaves to `rand`.
use vstd::prelude::*;
use rand::Rng;

verus! {

#[verifier::external_type_specification]
#[verifier::external_body]
pub struct ExThreadRng(rand::rngs::ThreadRng);

/// Calls `rand::Rng::random_range` with the range `0..upper` on the
/// thread-local generator. rand's source asserts that the range is not empty
/// (hence `upper > 0`) and samples uniformly from it, so the result is below
/// `upper`; which value comes out is left open, and so is the generator's
/// new state.
#[verifier::external_body]
pub(crate) fn random_below(rng: &mut rand::rngs::ThreadRng, upper: usize) -> (r: usize)
    requires
        upper > 0,
    ensures
        r < upper,
{
    rng.random_range(0..upper)
}

} // verus!
