//! Random numbers from the thread's generator.

use rand::Rng;
use vstd::prelude::*;

verus! {

/// `rand::Rng::gen_range(low..high)` on the thread's generator: a number from `low` up to, but
/// not including, `high`. The range must not be empty, or the call panics.
#[verifier::external_body]
pub(crate) fn random_in_range(low: u64, high: u64) -> (r: u64)
    requires
        low < high,
    ensures
        low <= r < high,
{
    rand::thread_rng().gen_range(low..high)
}

/// `rand::Rng::gen` of sixteen bytes from the thread's generator. Nothing is claimed of them:
/// they are random.
#[verifier::external_body]
pub(crate) fn random_bytes16() -> [u8; 16] {
    rand::thread_rng().gen()
}

/// `rand::Rng::gen` of thirty-two bytes from the operating system's generator. Nothing is
/// claimed of them: they are random.
#[verifier::external_body]
pub(crate) fn os_random_bytes32() -> [u8; 32] {
    rand::rngs::OsRng.gen()
}

/// `rand::random` of a `u64`. Nothing is claimed of it: it is random.
#[verifier::external_body]
pub(crate) fn random_u64() -> u64 {
    rand::random()
}

} // verus!
