//! The source of randomness for measurements.

use vstd::prelude::*;

verus! {

/// Draws a `u64` from the thread-local generator of the `rand` crate, by
/// `rand::random::<u64>()`.
///
/// Nothing is assumed about the value drawn: callers are verified for every
/// `u64` it may return. The call takes no argument; it panics only where
/// the operating system cannot seed the generator of the thread.
#[verifier::external_body]
pub(crate) fn random_u64() -> (draw: u64) {
    rand::random::<u64>()
}

} // verus!
