//! Writing git packfiles: the entry encoding that pairs with the reader's
//! decoding.

use vstd::prelude::*;

use crate::bytes::{append, be_bytes, push_be};
use crate::deps::entry::write_header;
use crate::deps::zlib::{nothing_shorter_is_whole, zlib_compress, zlib_compressed, zlib_whole};
use crate::error::Error;
use crate::object::{Kind, ObjectId};
use crate::packfile::format::{entry_content, entry_header_bytes, EntryHeader};
use crate::packfile::parse::{entry_header_round_trips, parse_entry_header, Parsed};

verus! {

/// The twelve bytes at the front of a pack: `PACK`, version 2, object count.
pub open spec fn pack_header_bytes(object_count: u32) -> Seq<u8> {
    seq![0x50u8, 0x41u8, 0x43u8, 0x4bu8] + be_bytes(2, 4) + be_bytes(object_count as nat, 4)
}

/// Write the 12-byte pack file header (`PACK`, version 2, object count) into
/// `out`.
pub fn write_pack_header(object_count: u32, out: &mut Vec<u8>)
    ensures
        final(out)@ == old(out)@ + pack_header_bytes(object_count),
{
    out.push(0x50);
    out.push(0x41);
    out.push(0x43);
    out.push(0x4b);
    push_be(out, 2, 4);
    push_be(out, object_count as u128, 4);
    assert(out@ =~= old(out)@ + pack_header_bytes(object_count));
}

/// Write a pack entry header (type + decompressed length) into `out`, no
/// compressed body.
///
/// For a caller that holds the object already zlib-compressed;
/// [`write_pack_entry`] takes decompressed content.
pub fn write_pack_entry_header(kind: Kind, decompressed_len: u64, out: &mut Vec<u8>) -> (r: Result<
    (),
    Error,
>)
    ensures
        r is Ok,
        final(out)@ == old(out)@ + entry_header_bytes(
            EntryHeader::Full(kind),
            decompressed_len as nat,
        ),
{
    write_header(&EntryHeader::Full(kind), decompressed_len, out);
    Ok(())
}

/// Write a `REF_DELTA` entry header (type, delta length, base id) with no
/// compressed body, for a caller holding already-compressed delta bytes.
///
/// `decompressed_len` is the delta instructions' length, not the object's; the
/// receiver resolves `base` by id, so entry order does not matter.
pub fn write_ref_delta_header(base: ObjectId, decompressed_len: u64, out: &mut Vec<u8>) -> (r:
    Result<(), Error>)
    ensures
        r is Ok,
        final(out)@ == old(out)@ + entry_header_bytes(
            (EntryHeader::RefDelta { base_id: base }),
            decompressed_len as nat,
        ),
{
    write_header(&EntryHeader::RefDelta { base_id: base }, decompressed_len, out);
    Ok(())
}

/// The bytes of one whole entry.
pub open spec fn pack_entry_bytes(kind: Kind, content: Seq<u8>) -> Seq<u8> {
    entry_header_bytes(EntryHeader::Full(kind), content.len()) + zlib_compressed(content)
}

/// Write one base (non-delta) pack entry into `out`, compressing `content`
/// fresh.
///
/// What is written reads back: the header as this kind and length, the body as
/// one whole zlib stream that inflates to `content` at this length, and at no
/// other.
pub fn write_pack_entry(kind: Kind, content: &[u8], out: &mut Vec<u8>) -> (r: Result<(), Error>)
    ensures
        r is Ok,
        final(out)@ == old(out)@ + pack_entry_bytes(kind, content@),
        ({
            let entry = pack_entry_bytes(kind, content@);
            let body = zlib_compressed(content@);
            &&& parse_entry_header(entry) == (Parsed::Read {
                value: (EntryHeader::Full(kind), content@.len() as u64),
                len: (entry.len() - body.len()) as nat,
            })
            &&& entry.skip(entry.len() - body.len()) == body
            &&& zlib_whole(body) == Some(content@.len())
            &&& nothing_shorter_is_whole(body)
            &&& entry_content(body, content@.len()) == Some(content@)
            &&& forall|len: nat|
                len <= isize::MAX && len != content@.len() ==> (#[trigger] entry_content(
                    body,
                    len,
                )) is None
        }),
{
    let _ = write_pack_entry_header(kind, content.len() as u64, out);
    let body = zlib_compress(content);
    append(out, body.as_slice());
    proof {
        assert(out@ =~= old(out)@ + pack_entry_bytes(kind, content@));
        entry_header_round_trips(EntryHeader::Full(kind), content@.len() as u64, body@);
        let entry = pack_entry_bytes(kind, content@);
        assert(entry.skip(entry.len() - body@.len()) =~= body@);
    }
    Ok(())
}

} // verus!
