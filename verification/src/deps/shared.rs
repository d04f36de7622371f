//! Bytes that several owners share, by the `bytes` crate.

use vstd::prelude::*;

verus! {

/// Shared bytes of the `bytes` crate.
#[verifier::external_type_specification]
#[verifier::external_body]
pub struct ExBytes(bytes::Bytes);

/// The bytes that are shared.
pub uninterp spec fn bytes_in(shared: bytes::Bytes) -> Seq<u8>;

/// Calls the `From<Vec<u8>>` of `Bytes`: the same bytes, to share.
#[verifier::external_body]
pub(crate) fn share_bytes(bytes: Vec<u8>) -> (shared: bytes::Bytes)
    ensures
        bytes_in(shared) == bytes@,
{
    bytes::Bytes::from(bytes)
}

/// Calls the `clone` of `Bytes`: another owner of the same bytes.
#[verifier::external_body]
pub(crate) fn clone_bytes(shared: &bytes::Bytes) -> (other: bytes::Bytes)
    ensures
        bytes_in(other) == bytes_in(*shared),
{
    shared.clone()
}

/// Calls the `deref` of `Bytes`: the bytes themselves.
#[verifier::external_body]
pub(crate) fn borrow_bytes(shared: &bytes::Bytes) -> (bytes: &[u8])
    ensures
        bytes@ == bytes_in(*shared),
{
    shared
}

} // verus!
