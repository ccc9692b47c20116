//! The injected randomness source: polynomial coefficients are drawn from
//! the process-wide generator of the `rand` crate.

use rand::Rng;
use vstd::prelude::*;

verus! {

/// Relies on rand's `thread_rng` and `Rng::gen_range` over `0..prime`: the
/// draw is uniform over `[0, prime)`, and the range is non-empty, so the call
/// does not panic.  Nothing relates one draw to another.
#[verifier::external_body]
pub(crate) fn random_field_element(prime: u64) -> (r: u64)
    requires
        prime >= 1,
    ensures
        r < prime,
{
    rand::thread_rng().gen_range(0..prime)
}

} // verus!
