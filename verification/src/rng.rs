use vstd::prelude::*;

use rand::Rng;

verus! {

/// Relies on `rand::Rng::gen_range` over `0..bound` on the thread-local
/// generator `rand::thread_rng`: the draw is strictly below `bound`, and the
/// call panics only on an empty range, which `bound > 0` rules out. Nothing
/// more is assumed of a random draw.
#[verifier::external_body]
pub(crate) fn random_below(bound: u32) -> (r: u32)
    requires
        bound > 0,
    ensures
        r < bound,
{
    rand::thread_rng().gen_range(0..bound)
}

} // verus!
