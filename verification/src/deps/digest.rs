//! SHA-1 over a stream, by the `sha1` crate.

use sha1::Digest;
use vstd::prelude::*;

verus! {

/// A running SHA-1 of the `sha1` crate.
#[verifier::external_type_specification]
#[verifier::external_body]
pub struct ExSha1(sha1::Sha1);

/// The bytes that a running hash has been fed.
pub uninterp spec fn hashed(hasher: sha1::Sha1) -> Seq<u8>;

/// The SHA-1 digest of `bytes`.
pub uninterp spec fn sha1_of(bytes: Seq<u8>) -> Seq<u8>;

/// Calls `sha1::Sha1::default`: a running hash over nothing yet.
#[verifier::external_body]
pub(crate) fn new_hasher() -> (r: sha1::Sha1)
    ensures
        hashed(r) == Seq::<u8>::empty(),
{
    sha1::Sha1::default()
}

/// Calls `sha1::Digest::update`: `bytes` follow what was fed before.
#[verifier::external_body]
pub(crate) fn feed_hasher(hasher: &mut sha1::Sha1, bytes: &[u8])
    ensures
        hashed(*final(hasher)) == hashed(*old(hasher)) + bytes@,
{
    hasher.update(bytes);
}

/// Calls `sha1::Digest::finalize_reset`: the digest of all that was fed, and a
/// running hash over nothing again.
#[verifier::external_body]
pub(crate) fn finish_hasher(hasher: &mut sha1::Sha1) -> (r: Vec<u8>)
    ensures
        r@ == sha1_of(hashed(*old(hasher))),
        r@.len() == 20,
        hashed(*final(hasher)) == Seq::<u8>::empty(),
{
    hasher.finalize_reset().to_vec()
}

} // verus!
