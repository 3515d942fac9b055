use vstd::prelude::*;

verus! {

/// Relies on rand's `StdRng`, the crate's seedable standard generator, as an
/// opaque value threaded through every draw.
#[verifier::external_type_specification]
#[verifier::external_body]
pub struct ExStdRng(rand::rngs::StdRng);

/// Relies on rand's `RngCore::next_u64`; nothing is promised of a random
/// draw.
#[verifier::external_body]
pub(crate) fn rng_next(rng: &mut rand::rngs::StdRng) -> u64 {
    rand::RngCore::next_u64(rng)
}

/// One draw below `bound`, reduced from a single generator word.
pub(crate) fn rng_below(rng: &mut rand::rngs::StdRng, bound: u64) -> (r: u64)
    requires
        bound >= 1,
    ensures
        r < bound,
{
    rng_next(rng) % bound
}

} // verus!
