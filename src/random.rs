//! Uniform draws from the thread-local generator.
use vstd::prelude::*;
use rand::Rng;

verus! {

/// Relies on `rand::thread_rng` and `Rng::gen_range` (rand 0.7): a value drawn
/// from `[0, bound)`. `gen_range` panics only on an empty range.
#[verifier::external_body]
pub(crate) fn random_below(bound: u64) -> (r: u64)
    requires
        bound > 0,
    ensures
        r < bound,
{
    rand::thread_rng().gen_range(0, bound)
}

} // verus!
