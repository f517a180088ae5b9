//! Uniform random index selection, through the `rand` crate.

use rand::RngExt;
use vstd::prelude::*;

verus! {

/// Relies on `rand::RngExt::random_range` on the thread-local generator:
/// it returns a value drawn uniformly from the given range, and panics
/// only when the range is empty (ruled out here).  Nothing more is assumed
/// of the draw; callers must be correct for every value below `n`.
#[verifier::external_body]
pub(crate) fn random_below(n: usize) -> (r: usize)
    requires
        n > 0,
    ensures
        r < n,
{
    rand::rng().random_range(0..n)
}

} // verus!
