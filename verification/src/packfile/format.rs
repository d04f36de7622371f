//! The framing of pack entries, and the limits that a pack and its objects
//! keep to.

use vstd::prelude::*;

use crate::deps::zlib::{zlib_decompress, zlib_inflated};
use crate::error::Error;
use crate::object::{Kind, ObjectId};
use crate::packfile::varint::varint_bytes;

verus! {

/// Maximum allowed decompressed size for a single git object (100 MiB).
///
/// Both a policy limit and a memory guard, checked against the entry header
/// before anything is allocated.
pub const MAX_OBJECT_BYTES: u64 = 104_857_600;

/// Maximum number of objects a single pack may claim to contain.
///
/// Checked up front against the count in the pack header, so that a bogus
/// count cannot run the receive loop far past any real push.
pub const MAX_PACK_OBJECTS: usize = 10_000_000;

/// The parsed header of a single pack entry, excluding the compressed data.
///
/// Delta-ness is a type value, not a flag beside one, so only
/// [`EntryHeader::Full`] carries a kind: a delta's object takes its base's.
#[derive(Clone, Copy, Debug, PartialEq, Eq, Structural)]
pub enum EntryHeader {
    /// A complete object, with the kind any delta on it will inherit.
    Full(Kind),
    /// Deltified against an earlier entry in the same pack.
    OfsDelta {
        /// How far back that entry starts, in bytes from this one's start.
        base_distance: u64,
    },
    /// Deltified against an object by id, in this pack or already stored.
    RefDelta {
        /// The base object's id.
        base_id: ObjectId,
    },
}

impl EntryHeader {
    /// The type number that stands in the entry's first byte.
    pub open spec fn type_id(self) -> nat {
        match self {
            EntryHeader::Full(Kind::Commit) => 1,
            EntryHeader::Full(Kind::Tree) => 2,
            EntryHeader::Full(Kind::Blob) => 3,
            EntryHeader::Full(Kind::Tag) => 4,
            EntryHeader::OfsDelta { .. } => 6,
            EntryHeader::RefDelta { .. } => 7,
        }
    }
}

/// The type and the size at the front of an entry: three type bits and four
/// size bits in the first byte, the rest of the size behind it.
pub open spec fn type_and_size_bytes(type_id: nat, size: nat) -> Seq<u8> {
    if size < 16 {
        seq![(16 * type_id + size) as u8]
    } else {
        seq![(128 + 16 * type_id + size % 16) as u8] + varint_bytes(size / 16)
    }
}

/// A base distance but for its last seven bits: each byte but the last counts
/// one more than it says.
pub open spec fn distance_front(value: nat) -> Seq<u8>
    decreases value,
{
    if value < 128 {
        seq![(128 + value) as u8]
    } else {
        distance_front((value / 128 - 1) as nat).push((128 + value % 128) as u8)
    }
}

/// The bytes that stand for a base distance, most significant first.
pub open spec fn distance_bytes(value: nat) -> Seq<u8> {
    if value < 128 {
        seq![value as u8]
    } else {
        distance_front((value / 128 - 1) as nat).push((value % 128) as u8)
    }
}

/// The whole header of an entry whose payload inflates to `size` bytes.
pub open spec fn entry_header_bytes(header: EntryHeader, size: nat) -> Seq<u8> {
    type_and_size_bytes(header.type_id(), size) + match header {
        EntryHeader::Full(_) => Seq::empty(),
        EntryHeader::OfsDelta { base_distance } => distance_bytes(base_distance as nat),
        EntryHeader::RefDelta { base_id } => base_id.bytes(),
    }
}

/// What an entry's body inflates to, where it is `expected_len` bytes.
pub open spec fn entry_content(body: Seq<u8>, expected_len: nat) -> Option<Seq<u8>> {
    match zlib_inflated(body, expected_len) {
        Some(content) => if content.len() == expected_len {
            Some(content)
        } else {
            None
        },
        None => None,
    }
}

/// What is known of an entry once its body was inflated into a buffer of
/// `expected_len` bytes: `inflated` holds the buffer and how much of it was
/// written.
pub fn check_inflated(inflated: Option<(Vec<u8>, usize)>, expected_len: usize) -> (r: Result<
    Vec<u8>,
    Error,
>)
    ensures
        r == (match inflated {
            None => Err::<Vec<u8>, Error>(Error::EntryNotZlib),
            Some((out, n)) => if n == expected_len {
                Ok(out)
            } else {
                Err(Error::EntryLength)
            },
        }),
{
    match inflated {
        None => Err(Error::EntryNotZlib),
        Some((out, n)) => {
            if n != expected_len {
                return Err(Error::EntryLength);
            }
            Ok(out)
        },
    }
}

/// Inflate one pack entry's body, which is a bare zlib stream.
///
/// `expected_len`, from the entry header, is a delta's instruction length, not
/// its object's; it sizes the output buffer and checks the result. Fails if the
/// bytes are not valid zlib or do not inflate to `expected_len`.
pub fn inflate_entry(body: &[u8], expected_len: u64) -> (r: Result<Vec<u8>, Error>)
    requires
        expected_len <= isize::MAX,
    ensures
        match r {
            Ok(content) => entry_content(body@, expected_len as nat) == Some(content@),
            Err(Error::EntryNotZlib) => zlib_inflated(body@, expected_len as nat) is None,
            Err(e) => {
                &&& e == Error::EntryLength
                &&& zlib_inflated(body@, expected_len as nat) matches Some(content)
                &&& content.len() != expected_len
            },
        },
{
    // The header's length is authoritative, so sizing the destination to it
    // exactly still catches both disagreements: too long runs out of room, too
    // short fails the check behind it.
    let inflated = zlib_decompress(body, expected_len as usize);
    assert(inflated matches Some((out, n)) ==> n == expected_len ==> out@.take(n as int) =~= out@);
    check_inflated(inflated, expected_len as usize)
}

} // verus!
