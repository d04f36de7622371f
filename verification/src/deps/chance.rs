//! Random numbers, by the `rand` crate.

use vstd::prelude::*;

verus! {

/// Calls `rand::random` for a number of 64 bits, which may be any.
#[verifier::external_body]
pub(crate) fn random_number() -> u64 {
    rand::random::<u64>()
}

} // verus!
