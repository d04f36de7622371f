//! What names a git object: its id and its kind.

use vstd::prelude::*;
use vstd::slice::slice_subrange;

use crate::bytes::{
    be_bytes, be_value, lemma_be_bytes, lemma_be_value, lemma_byte_ranges, push_be, read_be,
};

verus! {

/// How many bytes an object id takes.
pub const ID_BYTES: usize = 20;

/// What a git object is.
#[derive(Clone, Copy, Debug, PartialEq, Eq, Structural, Hash)]
pub enum Kind {
    /// A directory listing.
    Tree,
    /// File content.
    Blob,
    /// A commit.
    Commit,
    /// An annotated tag.
    Tag,
}

/// A SHA-1 object id: its first sixteen bytes and its last four, as numbers.
///
/// Comparing the numbers in that order compares the bytes.
#[derive(Clone, Copy, Debug, PartialEq, Eq, Structural, Hash)]
pub struct ObjectId {
    pub high: u128,
    pub low: u32,
}

impl ObjectId {
    /// The twenty bytes of the id.
    pub open spec fn bytes(self) -> Seq<u8> {
        be_bytes(self.high as nat, 16) + be_bytes(self.low as nat, 4)
    }

    /// The id that twenty bytes spell.
    pub open spec fn spelled(bytes: Seq<u8>) -> ObjectId {
        ObjectId {
            high: be_value(bytes.subrange(0, 16)) as u128,
            low: be_value(bytes.subrange(16, 20)) as u32,
        }
    }

    /// Whether this id comes before `other`, byte for byte.
    pub open spec fn precedes(self, other: ObjectId) -> bool {
        self.high < other.high || (self.high == other.high && self.low < other.low)
    }

    /// The id that these twenty bytes spell.
    pub fn from_bytes(bytes: &[u8]) -> (id: ObjectId)
        requires
            bytes@.len() == ID_BYTES,
        ensures
            id == ObjectId::spelled(bytes@),
            id.bytes() == bytes@,
    {
        let front = slice_subrange(bytes, 0, 16);
        let back = slice_subrange(bytes, 16, 20);
        proof {
            lemma_byte_ranges();
            lemma_be_value(front@);
            lemma_be_value(back@);
            assert(front@ + back@ =~= bytes@);
        }
        ObjectId { high: read_be(front), low: read_be(back) as u32 }
    }

    /// The twenty bytes of the id.
    pub fn to_bytes(self) -> (bytes: Vec<u8>)
        ensures
            bytes@ == self.bytes(),
            bytes@.len() == ID_BYTES,
    {
        let mut out: Vec<u8> = Vec::new();
        push_be(&mut out, self.high, 16);
        push_be(&mut out, self.low as u128, 4);
        proof {
            lemma_be_bytes(self.high as nat, 16);
            lemma_be_bytes(self.low as nat, 4);
            assert(out@ =~= self.bytes());
        }
        out
    }

    /// The id whose twenty bytes are all zero.
    pub fn null() -> (id: ObjectId)
        ensures
            id == (ObjectId { high: 0, low: 0 }),
    {
        ObjectId { high: 0, low: 0 }
    }

    /// Whether this id comes before `other`, byte for byte.
    pub fn is_before(self, other: ObjectId) -> (before: bool)
        ensures
            before == self.precedes(other),
    {
        self.high < other.high || (self.high == other.high && self.low < other.low)
    }
}

/// Two ids are the same exactly where their bytes are.
pub proof fn ids_are_their_bytes(a: ObjectId, b: ObjectId)
    ensures
        a.bytes().len() == ID_BYTES,
        a.bytes() == b.bytes() ==> a == b,
        ObjectId::spelled(a.bytes()) == a,
{
    lemma_byte_ranges();
    lemma_be_bytes(a.high as nat, 16);
    lemma_be_bytes(a.low as nat, 4);
    lemma_be_bytes(b.high as nat, 16);
    lemma_be_bytes(b.low as nat, 4);
    assert(a.bytes().subrange(0, 16) =~= be_bytes(a.high as nat, 16));
    assert(a.bytes().subrange(16, 20) =~= be_bytes(a.low as nat, 4));
    if a.bytes() == b.bytes() {
        assert(a.bytes().take(16) =~= be_bytes(a.high as nat, 16));
        assert(b.bytes().take(16) =~= be_bytes(b.high as nat, 16));
        assert(a.bytes().skip(16) =~= be_bytes(a.low as nat, 4));
        assert(b.bytes().skip(16) =~= be_bytes(b.low as nat, 4));
    }
}

} // verus!
