//! The source of random bytes.

use vstd::prelude::*;
use rand::rngs::ThreadRng;
use rand::Rng;

verus! {

/// `rand::rngs::ThreadRng`, the handle to the generator that `rand` keeps for
/// each thread. Nothing is known of what it holds.
#[verifier::external_type_specification]
#[verifier::external_body]
pub struct ExThreadRng(rand::rngs::ThreadRng);

/// Calls `rand::thread_rng`, which hands out the handle to the calling
/// thread's generator. Nothing is claimed of the handle. `rand` panics here
/// if the operating system gives it no seed.
#[verifier::external_body]
pub(crate) fn thread_rng() -> ThreadRng {
    rand::thread_rng()
}

/// Calls `rand::Rng::gen_range` on the range from `low` to `high`, both
/// included. The byte that comes back lies in that range; which one it is,
/// and what the generator holds afterwards, is not claimed. `rand` panics on
/// an empty range, which `low <= high` leaves out.
#[verifier::external_body]
pub(crate) fn random_in_range(rng: &mut ThreadRng, low: u8, high: u8) -> (byte: u8)
    requires
        low <= high,
    ensures
        low <= byte <= high,
{
    rng.gen_range(low..=high)
}

} // verus!
