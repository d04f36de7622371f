//! What an object record holds in bytes, and the ways bytes can fail to be one.
//!
//! A segment is a 24-byte header, fixed-width entries in ascending order of
//! their numbers, and a heap that the entries point into. An entry carries its
//! own number: an object gains packs after it is first recorded, so a later
//! segment holds a few objects scattered across the whole space, and a slot for
//! each number would be as wide as that scatter.

use vstd::prelude::*;

use crate::bytes::{le_bytes, le_value};
use crate::deps::bitmap::treemap_read;
use crate::object::ObjectId;
use crate::objects::location::{Location, SegmentLocation, Ulid};
use crate::seqs::SeqSets;

verus! {

/// Bytes the header takes.
pub const HEADER: usize = 24;

/// Bytes one entry takes: a number, and where its locations and children are.
pub const ENTRY: usize = 20;

/// Bytes one stored location takes.
pub const LOCATION: usize = 84;

/// The format's version.
pub const VERSION: u32 = 1;

/// A heap reference to nothing.
pub const NONE: u32 = 0xffff_ffff;

/// No delta base, in the width a base number is stored at.
pub const NO_BASE: u64 = 0xffff_ffff_ffff_ffff;

/// Bytes that are not framed as a segment.
#[derive(Clone, Copy, Debug, PartialEq, Eq, Structural)]
pub enum Frame {
    /// Too few bytes for a header.
    Short(usize),
    /// Another kind of segment, or none.
    Magic,
    /// A version that is not read here.
    Version(u32),
    /// Fewer bytes than the header promises.
    Truncated { expected: u64, actual: usize },
}

/// Bytes that are not an object index.
#[derive(Clone, Copy, Debug, PartialEq, Eq, Structural)]
pub enum Malformed {
    /// Not framed the way every segment is.
    Frame(Frame),
    /// A heap reference pointing outside the heap.
    StrayHeap(u32),
    /// Entries that are not in ascending order.
    ///
    /// The order is what a lookup bisects, so reading them as written would
    /// answer wrongly rather than fail.
    Unsorted(usize),
    /// A children bitmap that would not read back.
    Bitmap,
}

/// `OIX1`.
pub open spec fn magic() -> Seq<u8> {
    seq![0x4fu8, 0x49u8, 0x58u8, 0x31u8]
}

/// The header of a segment whose first number is `first`, with that many
/// entries and heap bytes.
pub open spec fn header_bytes(first: u64, records: nat, heap: nat) -> Seq<u8> {
    magic() + le_bytes(VERSION as nat, 4) + le_bytes(first as nat, 8) + le_bytes(records, 4)
        + le_bytes(heap, 4)
}

/// How many entries the header in front of `bytes` promises.
pub open spec fn read_header_spec(bytes: Seq<u8>) -> Result<nat, Frame> {
    let version = le_value(bytes.subrange(4, 8));
    let records = le_value(bytes.subrange(16, 20));
    let heap = le_value(bytes.subrange(20, 24));
    let expected = HEADER + records * ENTRY + heap;
    if bytes.len() < HEADER {
        Err(Frame::Short(bytes.len() as usize))
    } else if bytes.subrange(0, 4) != magic() {
        Err(Frame::Magic)
    } else if version != VERSION {
        Err(Frame::Version(version as u32))
    } else if bytes.len() < expected {
        Err(Frame::Truncated { expected: expected as u64, actual: bytes.len() as usize })
    } else {
        Ok(records)
    }
}

/// A signed number in the bits of an unsigned one.
pub open spec fn as_bits(value: i64) -> nat {
    if value < 0 {
        (value + 0x1_0000_0000_0000_0000) as nat
    } else {
        value as nat
    }
}

/// The signed number that 64 bits stand for.
pub open spec fn from_bits(bits: nat) -> i64 {
    if bits >= 0x8000_0000_0000_0000 {
        (bits - 0x1_0000_0000_0000_0000) as i64
    } else {
        bits as i64
    }
}

/// A base number, or none, at its stored width.
pub open spec fn base_bits(base_seq: Option<u64>) -> u64 {
    match base_seq {
        None => NO_BASE,
        Some(seq) => seq,
    }
}

/// The bytes of one stored location.
pub open spec fn location_bytes(l: Location) -> Seq<u8> {
    le_bytes(as_bits(l.pack_seq), 8) + le_bytes(l.offset as nat, 8) + le_bytes(
        l.entry_len as nat,
        8,
    ) + le_bytes(base_bits(l.base_seq) as nat, 8) + l.pack_oid.bytes() + le_bytes(
        l.segment.id.0 as nat,
        16,
    ) + le_bytes(l.segment.base_offset as nat, 8) + le_bytes(l.segment.image_len as nat, 8)
}

/// The location that 84 stored bytes stand for.
pub open spec fn location_of(record: Seq<u8>) -> Location {
    let base = le_value(record.subrange(24, 32)) as u64;
    Location {
        pack_seq: from_bits(le_value(record.subrange(0, 8))),
        pack_oid: ObjectId::spelled(record.subrange(32, 52)),
        segment: SegmentLocation {
            id: Ulid(le_value(record.subrange(52, 68)) as u128),
            base_offset: le_value(record.subrange(68, 76)) as u64,
            image_len: le_value(record.subrange(76, 84)) as u64,
        },
        offset: le_value(record.subrange(8, 16)) as u64,
        entry_len: le_value(record.subrange(16, 24)) as u64,
        base_seq: if base == NO_BASE {
            None
        } else {
            Some(base)
        },
    }
}

/// The length word that stands at `at` in the heap.
pub open spec fn word_at(at: u32, heap: Seq<u8>) -> Option<nat> {
    if at + 4 <= heap.len() {
        Some(le_value(heap.subrange(at as int, at + 4)))
    } else {
        None
    }
}

/// The list of locations at `at` in the heap.
pub open spec fn locations_at(at: u32, heap: Seq<u8>) -> Result<Seq<Location>, Malformed> {
    if at == NONE {
        Ok(Seq::empty())
    } else {
        match word_at(at, heap) {
            None => Err(Malformed::StrayHeap(at)),
            Some(count) => if at + 4 + count * LOCATION <= heap.len() {
                Ok(
                    Seq::new(
                        count,
                        |i: int|
                            location_of(
                                heap.subrange(
                                    at + 4 + i * LOCATION,
                                    at + 4 + i * LOCATION + LOCATION,
                                ),
                            ),
                    ),
                )
            } else {
                Err(Malformed::StrayHeap(at))
            },
        }
    }
}

/// The set of numbers at `at` in the heap.
pub open spec fn bitmap_at(at: u32, heap: Seq<u8>) -> Result<Set<u64>, Malformed> {
    if at == NONE {
        Ok(Set::empty())
    } else {
        match word_at(at, heap) {
            None => Err(Malformed::StrayHeap(at)),
            Some(len) => if at + 4 + len <= heap.len() {
                match treemap_read(heap.subrange(at + 4, at + 4 + len)) {
                    Some(set) => Ok(set),
                    None => Err(Malformed::Bitmap),
                }
            } else {
                Err(Malformed::StrayHeap(at))
            },
        }
    }
}

/// What the index knows about one object.
#[verifier::ext_equal]
pub struct ObjectView {
    pub locations: Seq<Location>,
    pub children: SeqSets,
}

/// The object that one entry stands for.
pub open spec fn object_at(entry: Seq<u8>, heap: Seq<u8>) -> Result<ObjectView, Malformed> {
    match locations_at(le_value(entry.subrange(8, 12)) as u32, heap) {
        Err(e) => Err(e),
        Ok(locations) => match bitmap_at(le_value(entry.subrange(12, 16)) as u32, heap) {
            Err(e) => Err(e),
            Ok(trees) => match bitmap_at(le_value(entry.subrange(16, 20)) as u32, heap) {
                Err(e) => Err(e),
                Ok(blobs) => Ok(ObjectView { locations, children: SeqSets { trees, blobs } }),
            },
        },
    }
}

/// Entry `i` of a segment's body.
pub open spec fn entry_at(body: Seq<u8>, i: nat) -> Seq<u8> {
    body.subrange(i * ENTRY, i * ENTRY + ENTRY)
}

/// The number that entry `i` carries.
pub open spec fn seq_at(body: Seq<u8>, i: nat) -> u64 {
    le_value(entry_at(body, i).subrange(0, 8)) as u64
}

/// What the entries from `at` on stand for, of those numbered `first` to
/// `last`.
///
/// The order is checked across all entries, even where only some are wanted,
/// since it is what makes picking those sound.
pub open spec fn entries_from(
    body: Seq<u8>,
    heap: Seq<u8>,
    records: nat,
    at: nat,
    first: u64,
    last: u64,
) -> Result<Map<u64, ObjectView>, Malformed>
    decreases records - at,
{
    if at >= records {
        Ok(Map::empty())
    } else {
        let seq = seq_at(body, at);
        if at > 0 && seq_at(body, (at - 1) as nat) >= seq {
            Err(Malformed::Unsorted(at as usize))
        } else if seq < first || seq > last {
            entries_from(body, heap, records, at + 1, first, last)
        } else {
            match object_at(entry_at(body, at), heap) {
                Err(e) => Err(e),
                Ok(object) => match entries_from(body, heap, records, at + 1, first, last) {
                    Err(e) => Err(e),
                    Ok(rest) => Ok(rest.insert(seq, object)),
                },
            }
        }
    }
}

/// What the object index in `bytes` holds, of the numbers `first` to `last`.
pub open spec fn decoded(bytes: Seq<u8>, first: u64, last: u64) -> Result<
    Map<u64, ObjectView>,
    Malformed,
> {
    match read_header_spec(bytes) {
        Err(e) => Err(Malformed::Frame(e)),
        Ok(records) => {
            let body = bytes.skip(HEADER as int);
            entries_from(body, body.skip(records * ENTRY), records, 0, first, last)
        },
    }
}

/// Reading a part is reading the whole and keeping that part: nothing that the
/// range covers is dropped.
pub proof fn a_part_is_a_filter(bytes: Seq<u8>, first: u64, last: u64)
    requires
        decoded(bytes, 0, u64::MAX) is Ok,
    ensures
        decoded(bytes, first, last) is Ok,
        decoded(bytes, first, last)->Ok_0 == decoded(bytes, 0, u64::MAX)->Ok_0.restrict(
            Set::new(|seq: u64| first <= seq <= last),
        ),
{
    let records = read_header_spec(bytes)->Ok_0;
    let body = bytes.skip(HEADER as int);
    lemma_part(body, body.skip(records * ENTRY), records, 0, first, last);
}

proof fn lemma_part(
    body: Seq<u8>,
    heap: Seq<u8>,
    records: nat,
    at: nat,
    first: u64,
    last: u64,
)
    requires
        entries_from(body, heap, records, at, 0, u64::MAX) is Ok,
    ensures
        entries_from(body, heap, records, at, first, last) is Ok,
        entries_from(body, heap, records, at, first, last)->Ok_0 == entries_from(
            body,
            heap,
            records,
            at,
            0,
            u64::MAX,
        )->Ok_0.restrict(Set::new(|seq: u64| first <= seq <= last)),
    decreases records - at,
{
    let wanted = Set::new(|seq: u64| first <= seq <= last);
    if at < records {
        lemma_part(body, heap, records, at + 1, first, last);
        let whole = entries_from(body, heap, records, at + 1, 0, u64::MAX)->Ok_0;
        let seq = seq_at(body, at);
        let object = object_at(entry_at(body, at), heap)->Ok_0;
        if wanted.contains(seq) {
            assert(whole.insert(seq, object).restrict(wanted) =~= whole.restrict(wanted).insert(
                seq,
                object,
            ));
        } else {
            assert(whole.insert(seq, object).restrict(wanted) =~= whole.restrict(wanted));
        }
    } else {
        assert(Map::<u64, ObjectView>::empty().restrict(wanted) =~= Map::empty());
    }
}

} // verus!
