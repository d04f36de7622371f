//! Pack entry headers, as the `gix-pack` crate writes them.

use gix_pack::data::entry::Header;
use vstd::prelude::*;

use crate::object::Kind;
use crate::packfile::format::{entry_header_bytes, EntryHeader};

verus! {

/// Calls `gix_pack::data::entry::Header::write_to` over a vector, which cannot
/// fail to take the bytes. It appends the type and the size, and behind them
/// what a delta's base is known by.
#[verifier::external_body]
pub(crate) fn write_header(header: &EntryHeader, size: u64, out: &mut Vec<u8>)
    ensures
        final(out)@ == old(out)@ + entry_header_bytes(*header, size as nat),
{
    let header = match header {
        EntryHeader::Full(Kind::Commit) => Header::Commit,
        EntryHeader::Full(Kind::Tree) => Header::Tree,
        EntryHeader::Full(Kind::Blob) => Header::Blob,
        EntryHeader::Full(Kind::Tag) => Header::Tag,
        EntryHeader::OfsDelta { base_distance } => Header::OfsDelta { base_distance: *base_distance },
        EntryHeader::RefDelta { base_id } => {
            let id = [&base_id.high.to_be_bytes()[..], &base_id.low.to_be_bytes()[..]].concat();
            Header::RefDelta { base_id: gix_hash::ObjectId::from_bytes_or_panic(&id) }
        },
    };
    let _ = header.write_to(size, out);
}

} // verus!
