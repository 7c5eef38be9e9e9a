use vstd::prelude::*;

verus! {

/// Draws a number uniformly from `0..bound` with `rand::random_range` on the
/// thread-local generator. What is stated: the number lies below `bound`.
/// Which number comes out is chance and is not stated.
#[verifier::external_body]
pub(crate) fn random_below(bound: usize) -> (r: usize)
    requires
        bound > 0,
    ensures
        r < bound,
{
    rand::random_range(0..bound)
}

} // verus!
