//! The one source of randomness: secret keys and challenges are drawn here.
use vstd::prelude::*;
use rand::Rng;

verus! {

/// Relies on `rand::Rng::gen_range` on `rand::thread_rng()` (rand 0.8): a
/// value drawn from `low..high`; it panics on an empty range, which
/// `requires` excludes.
#[verifier::external_body]
pub(crate) fn random_in_range(low: u128, high: u128) -> (r: u128)
    requires
        low < high,
    ensures
        low <= r < high,
{
    rand::thread_rng().gen_range(low..high)
}

} // verus!
