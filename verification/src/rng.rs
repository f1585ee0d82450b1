//! The one source of chance.

use rand::Rng;
use vstd::prelude::*;

verus! {

/// Draws a number below `bound` from the generator of the running thread:
/// `rand::thread_rng()` and then `Rng::gen_range` on the range `0..bound`.
///
/// Believed, not proved: the number lies in the range. `gen_range` panics on
/// an empty range, so `bound` is at least 1. Nothing is said of which number
/// comes; two draws may differ.
#[verifier::external_body]
pub(crate) fn random_below(bound: usize) -> (r: usize)
    requires
        bound > 0,
    ensures
        r < bound,
{
    rand::thread_rng().gen_range(0..bound)
}

} // verus!
