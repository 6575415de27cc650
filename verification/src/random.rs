//! The source of randomness.

use vstd::prelude::*;

verus! {

/// Calls `rand::random::<u32>()`, which draws 32 bits from the generator of
/// the calling thread. Nothing is claimed of the value.
#[verifier::external_body]
pub(crate) fn random_bits() -> (bits: u32) {
    rand::random::<u32>()
}

} // verus!
