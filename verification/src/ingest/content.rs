//! An object's content, shared among those who need it.

use vstd::prelude::*;

use crate::deps::shared::{borrow_bytes, bytes_in, clone_bytes, share_bytes};

verus! {

/// An object's content.
#[derive(Debug)]
pub struct Content {
    bytes: bytes::Bytes,
}

impl View for Content {
    type V = Seq<u8>;

    closed spec fn view(&self) -> Seq<u8> {
        bytes_in(self.bytes)
    }
}

impl Content {
    pub fn new(bytes: Vec<u8>) -> (content: Content)
        ensures
            content@ == bytes@,
    {
        Content { bytes: share_bytes(bytes) }
    }

    /// The same content, for one more holder.
    pub fn share(&self) -> (content: Content)
        ensures
            content@ == self@,
    {
        Content { bytes: clone_bytes(&self.bytes) }
    }

    /// Bytes that are shared already.
    pub(crate) fn from_shared(bytes: bytes::Bytes) -> (content: Content)
        ensures
            content@ == bytes_in(bytes),
    {
        Content { bytes }
    }

    /// The bytes, to share.
    pub(crate) fn into_shared(self) -> (bytes: bytes::Bytes)
        ensures
            bytes_in(bytes) == self@,
    {
        self.bytes
    }

    pub fn as_slice(&self) -> (bytes: &[u8])
        ensures
            bytes@ == self@,
    {
        borrow_bytes(&self.bytes)
    }

    pub fn len(&self) -> (n: usize)
        ensures
            n == self@.len(),
    {
        self.as_slice().len()
    }
}

} // verus!
