//! Random numbers, drawn from the `rand` crate's thread-local generator.

use rand::Rng;
use vstd::prelude::*;

verus! {

/// Draws a number from `low..high` with `rand::Rng::gen_range` on
/// `rand::thread_rng()`. Trusted: the number lies in the range. `gen_range`
/// panics on an empty range, which the precondition leaves out. Nothing is
/// claimed about which number of the range comes back.
#[verifier::external_body]
pub(crate) fn gen_range(low: u32, high: u32) -> (n: u32)
    requires
        low < high,
    ensures
        low <= n < high,
{
    rand::thread_rng().gen_range(low..high)
}

/// Draws a number with `rand::random::<u32>()`. Nothing is claimed about
/// the number.
#[verifier::external_body]
pub(crate) fn random_u32() -> u32 {
    rand::random::<u32>()
}

} // verus!
