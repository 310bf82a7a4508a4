//! The index's only source of randomness.

use vstd::prelude::*;

verus! {

/// Relies on `rand::random_range`: returns a uniformly random integer in
/// `[0, n)`.  Nothing is assumed about which value comes back, only that it
/// is in range; `rand::random_range` panics on an empty range, which the
/// precondition rules out.
#[verifier::external_body]
pub(crate) fn random_below(n: u64) -> (r: u64)
    requires
        n > 0,
    ensures
        r < n,
{
    rand::random_range(0..n)
}

} // verus!
