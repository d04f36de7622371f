//! What the bytes at the front of a pack stream read as.
//!
//! A stream arrives in pieces, so reading has three outcomes: more bytes are
//! needed, the bytes are refused, or a value was read.

use vstd::prelude::*;

use crate::bytes::{be_bytes, be_value, lemma_be_bytes, lemma_byte_ranges};
use crate::deps::zlib::{nothing_shorter_is_whole, zlib_whole};
use crate::error::Error;
use crate::object::{ids_are_their_bytes, Kind, ObjectId};
use crate::packfile::format::{
    distance_bytes, distance_front, entry_header_bytes, type_and_size_bytes, EntryHeader,
};
use crate::packfile::varint::{
    lemma_bytes, lemma_end_at, lemma_end_bounds, place, varint_bytes, varint_end, varint_sum,
};
use crate::packfile::writer::pack_header_bytes;

verus! {

/// How reading a value from the front of a stream went.
pub enum Parsed<T> {
    /// The bytes at hand end before the value does.
    NeedsMore,
    /// No bytes that could follow make these acceptable.
    Refused(Error),
    /// The value stands in the first `len` bytes.
    Read { value: T, len: nat },
}

/// The object count in the header at the front of a pack.
pub open spec fn parse_pack_header(data: Seq<u8>) -> Parsed<u32> {
    if data.len() < 12 {
        Parsed::NeedsMore
    } else if data.take(4) != seq![0x50u8, 0x41u8, 0x43u8, 0x4bu8] {
        Parsed::Refused(Error::PackMagic)
    } else if be_value(data.subrange(4, 8)) != 2 {
        Parsed::Refused(Error::PackVersion)
    } else {
        Parsed::Read { value: be_value(data.subrange(8, 12)) as u32, len: 12 }
    }
}

/// The size at the front of an entry, whose first byte also holds its type.
///
/// At most nine bytes may follow the first, and of the ninth only the bits that
/// still fit in 64 count.
pub open spec fn parse_size(data: Seq<u8>) -> Parsed<u64> {
    let rest = data.skip(1);
    let end = varint_end(rest, 0);
    if data.len() == 0 {
        Parsed::NeedsMore
    } else if data[0] < 128 {
        Parsed::Read { value: (data[0] % 16) as u64, len: 1 }
    } else if end >= 9 && rest.len() > 9 {
        Parsed::Refused(Error::EntrySizeOverflow)
    } else if end >= rest.len() {
        Parsed::NeedsMore
    } else {
        Parsed::Read {
            value: ((data[0] as nat % 16 + 16 * varint_sum(rest.take(end as int + 1)))
                % 0x1_0000_0000_0000_0000) as u64,
            len: end + 2,
        }
    }
}

/// The base distance whose bytes before `i` read as `value` and go on at `i`.
///
/// Each byte but the last counts one more than it says; what outgrows 64 bits
/// is dropped.
pub open spec fn parse_distance_from(data: Seq<u8>, i: nat, value: nat) -> Parsed<u64>
    decreases data.len() - i,
{
    if i >= data.len() {
        Parsed::NeedsMore
    } else if value >= u64::MAX {
        Parsed::Refused(Error::DistanceOverflow)
    } else {
        let next = (value + 1) * 128 % 0x1_0000_0000_0000_0000 + data[i as int] as nat % 128;
        if data[i as int] < 128 {
            Parsed::Read { value: next as u64, len: i + 1 }
        } else {
            parse_distance_from(data, i + 1, next)
        }
    }
}

/// The base distance at the front of `data`.
pub open spec fn parse_distance(data: Seq<u8>) -> Parsed<u64> {
    if data.len() == 0 {
        Parsed::NeedsMore
    } else if data[0] < 128 {
        Parsed::Read { value: data[0] as u64, len: 1 }
    } else {
        parse_distance_from(data, 1, data[0] as nat % 128)
    }
}

/// The kind of object that an entry type stands for, where it is a whole one.
pub open spec fn kind_of_type(type_id: u8) -> Option<Kind> {
    if type_id == 1 {
        Some(Kind::Commit)
    } else if type_id == 2 {
        Some(Kind::Tree)
    } else if type_id == 3 {
        Some(Kind::Blob)
    } else if type_id == 4 {
        Some(Kind::Tag)
    } else {
        None
    }
}

/// The object id at the front of `data`.
pub open spec fn parse_id(data: Seq<u8>) -> Parsed<ObjectId> {
    if data.len() < 20 {
        Parsed::NeedsMore
    } else {
        Parsed::Read { value: ObjectId::spelled(data.take(20)), len: 20 }
    }
}

/// The entry header at the front of `data`, and the size of what its payload
/// inflates to.
pub open spec fn parse_entry_header(data: Seq<u8>) -> Parsed<(EntryHeader, u64)> {
    match parse_size(data) {
        Parsed::NeedsMore => Parsed::NeedsMore,
        Parsed::Refused(e) => Parsed::Refused(e),
        Parsed::Read { value: size, len: n } => {
            let type_id = data[0] / 16 % 8;
            let rest = data.skip(n as int);
            if type_id == 6 {
                match parse_distance(rest) {
                    Parsed::NeedsMore => Parsed::NeedsMore,
                    Parsed::Refused(e) => Parsed::Refused(e),
                    Parsed::Read { value: base_distance, len: m } => Parsed::Read {
                        value: (EntryHeader::OfsDelta { base_distance }, size),
                        len: n + m,
                    },
                }
            } else if type_id == 7 {
                match parse_id(rest) {
                    Parsed::NeedsMore => Parsed::NeedsMore,
                    Parsed::Refused(e) => Parsed::Refused(e),
                    Parsed::Read { value: base_id, len: m } => Parsed::Read {
                        value: (EntryHeader::RefDelta { base_id }, size),
                        len: n + m,
                    },
                }
            } else {
                match kind_of_type(type_id) {
                    Some(kind) => Parsed::Read { value: (EntryHeader::Full(kind), size), len: n },
                    None => Parsed::Refused(Error::EntryType),
                }
            }
        },
    }
}

/// A pack header reads back as it was written, whatever follows it.
pub proof fn pack_header_round_trips(object_count: u32, rest: Seq<u8>)
    ensures
        parse_pack_header(pack_header_bytes(object_count) + rest) == (Parsed::Read {
            value: object_count,
            len: 12,
        }),
        pack_header_bytes(object_count).len() == 12,
{
    lemma_byte_ranges();
    lemma_be_bytes(2, 4);
    lemma_be_bytes(object_count as nat, 4);
    let data = pack_header_bytes(object_count) + rest;
    assert(data.take(4) =~= seq![0x50u8, 0x41u8, 0x43u8, 0x4bu8]);
    assert(data.subrange(4, 8) =~= be_bytes(2, 4));
    assert(data.subrange(8, 12) =~= be_bytes(object_count as nat, 4));
}

proof fn lemma_size_round_trips(type_id: nat, size: u64, rest: Seq<u8>)
    requires
        type_id < 8,
    ensures
        parse_size(type_and_size_bytes(type_id, size as nat) + rest) == (Parsed::Read {
            value: size,
            len: type_and_size_bytes(type_id, size as nat).len(),
        }),
        (type_and_size_bytes(type_id, size as nat) + rest)[0] / 16 % 8 == type_id,
{
    let bytes = type_and_size_bytes(type_id, size as nat);
    let data = bytes + rest;
    if size >= 16 {
        let tail = varint_bytes(size as nat / 16);
        reveal_with_fuel(place, 10);
        lemma_bytes(size as nat / 16, 9);
        let end = (tail.len() - 1) as nat;
        assert(data.skip(1) =~= tail + rest);
        assert forall|j: int| 0 <= j < end implies (#[trigger] data.skip(1)[j]) >= 128 by {
            assert(data.skip(1)[j] == tail[j]);
        }
        lemma_end_at(data.skip(1), 0, end);
        assert(data.skip(1).take(end as int + 1) =~= tail);
    }
}

proof fn lemma_distance_front(value: nat, front: Seq<u8>, rest: Seq<u8>)
    requires
        front == distance_front(value),
        value < 0x200_0000_0000_0000,
        rest.len() > 0,
    ensures
        front.len() > 0,
        front[0] >= 128,
        parse_distance(front + rest) == parse_distance_from(front + rest, front.len(), value),
    decreases value,
{
    let data = front + rest;
    if value < 128 {
        assert(front =~= seq![(128 + value) as u8]);
    } else {
        let m = (value / 128 - 1) as nat;
        let shorter = distance_front(m);
        let last = (128 + value % 128) as u8;
        let after = seq![last] + rest;
        lemma_distance_front(m, shorter, after);
        assert(front =~= shorter.push(last));
        assert(data =~= shorter + after);
        assert(data[shorter.len() as int] == last);
    }
}

proof fn lemma_distance_round_trips(value: u64, rest: Seq<u8>)
    ensures
        parse_distance(distance_bytes(value as nat) + rest) == (Parsed::Read {
            value,
            len: distance_bytes(value as nat).len(),
        }),
{
    let data = distance_bytes(value as nat) + rest;
    if value >= 128 {
        let m = (value as nat / 128 - 1) as nat;
        let front = distance_front(m);
        let last = (value as nat % 128) as u8;
        let after = seq![last] + rest;
        lemma_distance_front(m, front, after);
        assert(data =~= front + after);
        assert(data[front.len() as int] == last);
    }
}

/// An entry header of any shape and size reads back as it was written,
/// whatever follows it.
pub proof fn entry_header_round_trips(header: EntryHeader, size: u64, rest: Seq<u8>)
    ensures
        parse_entry_header(entry_header_bytes(header, size as nat) + rest) == (Parsed::Read {
            value: (header, size),
            len: entry_header_bytes(header, size as nat).len(),
        }),
{
    let front = type_and_size_bytes(header.type_id(), size as nat);
    let data = entry_header_bytes(header, size as nat) + rest;
    match header {
        EntryHeader::Full(_) => {
            assert(data =~= front + rest);
            lemma_size_round_trips(header.type_id(), size, rest);
        },
        EntryHeader::OfsDelta { base_distance } => {
            let tail = distance_bytes(base_distance as nat) + rest;
            assert(data =~= front + tail);
            lemma_size_round_trips(header.type_id(), size, tail);
            assert(data.skip(front.len() as int) =~= tail);
            lemma_distance_round_trips(base_distance, rest);
        },
        EntryHeader::RefDelta { base_id } => {
            let tail = base_id.bytes() + rest;
            assert(data =~= front + tail);
            lemma_size_round_trips(header.type_id(), size, tail);
            assert(data.skip(front.len() as int) =~= tail);
            ids_are_their_bytes(base_id, base_id);
            assert(tail.take(20) =~= base_id.bytes());
        },
    }
}

proof fn lemma_end_grows(data: Seq<u8>, more: Seq<u8>, i: nat)
    requires
        i <= data.len(),
    ensures
        varint_end(data, i) < data.len() ==> varint_end(data + more, i) == varint_end(data, i),
        varint_end(data, i) >= data.len() ==> varint_end(data + more, i) >= data.len(),
    decreases data.len() - i,
{
    if i < data.len() {
        assert((data + more)[i as int] == data[i as int]);
        if data[i as int] >= 128 {
            lemma_end_grows(data, more, i + 1);
        }
    } else {
        lemma_end_bounds(data + more, i);
    }
}

proof fn lemma_distance_stable(data: Seq<u8>, more: Seq<u8>, i: nat, value: nat)
    ensures
        parse_distance_from(data, i, value) !is NeedsMore ==> parse_distance_from(
            data + more,
            i,
            value,
        ) == parse_distance_from(data, i, value),
    decreases data.len() - i,
{
    if i < data.len() {
        assert((data + more)[i as int] == data[i as int]);
        if value < u64::MAX && data[i as int] >= 128 {
            let next = (value + 1) * 128 % 0x1_0000_0000_0000_0000 + data[i as int] as nat % 128;
            lemma_distance_stable(data, more, i + 1, next);
        }
    }
}

proof fn lemma_size_stable(data: Seq<u8>, more: Seq<u8>)
    ensures
        parse_size(data) !is NeedsMore ==> parse_size(data + more) == parse_size(data),
        parse_size(data) matches Parsed::Read { value: _, len } ==> len <= data.len(),
{
    if data.len() > 0 {
        let rest = data.skip(1);
        assert((data + more).skip(1) =~= rest + more);
        lemma_end_grows(rest, more, 0);
        lemma_end_bounds(rest, 0);
        let end = varint_end(rest, 0);
        if end < rest.len() {
            assert((rest + more).take(end as int + 1) =~= rest.take(end as int + 1));
        }
    }
}

/// What was read, or refused, of a stream stays so whatever arrives behind it.
pub proof fn reading_is_stable(data: Seq<u8>, more: Seq<u8>)
    ensures
        parse_pack_header(data) !is NeedsMore ==> parse_pack_header(data + more)
            == parse_pack_header(data),
        parse_entry_header(data) !is NeedsMore ==> parse_entry_header(data + more)
            == parse_entry_header(data),
{
    if data.len() >= 12 {
        assert((data + more).take(4) =~= data.take(4));
        assert((data + more).subrange(4, 8) =~= data.subrange(4, 8));
        assert((data + more).subrange(8, 12) =~= data.subrange(8, 12));
    }
    lemma_size_stable(data, more);
    if let Parsed::Read { value: _, len: n } = parse_size(data) {
        let rest = data.skip(n as int);
        assert((data + more).skip(n as int) =~= rest + more);
        if rest.len() > 0 {
            lemma_distance_stable(rest, more, 1, rest[0] as nat % 128);
        }
        if rest.len() >= 20 {
            assert((rest + more).take(20) =~= rest.take(20));
        }
    }
}

proof fn lemma_end_shrinks(data: Seq<u8>, n: nat, i: nat)
    requires
        i <= varint_end(data, i) < n <= data.len(),
    ensures
        varint_end(data.take(n as int), i) == varint_end(data, i),
    decreases data.len() - i,
{
    assert(data.take(n as int)[i as int] == data[i as int]);
    if data[i as int] >= 128 {
        lemma_end_bounds(data, i + 1);
        lemma_end_shrinks(data, n, i + 1);
    }
}

proof fn lemma_distance_local(data: Seq<u8>, i: nat, value: nat)
    ensures
        parse_distance_from(data, i, value) matches Parsed::Read { value: _, len: n } ==> {
            &&& i < n <= data.len()
            &&& parse_distance_from(data.take(n as int), i, value) == parse_distance_from(
                data,
                i,
                value,
            )
        },
    decreases data.len() - i,
{
    if i < data.len() && value < u64::MAX {
        let next = (value + 1) * 128 % 0x1_0000_0000_0000_0000 + data[i as int] as nat % 128;
        if data[i as int] >= 128 {
            lemma_distance_local(data, i + 1, next);
        }
    }
}

proof fn lemma_size_local(data: Seq<u8>)
    ensures
        parse_size(data) matches Parsed::Read { value: _, len: n } ==> {
            &&& 1 <= n <= data.len()
            &&& forall|m: nat|
                n <= m <= data.len() ==> #[trigger] parse_size(data.take(m as int)) == parse_size(
                    data,
                )
        },
{
    if data.len() > 0 {
        let rest = data.skip(1);
        let end = varint_end(rest, 0);
        lemma_end_bounds(rest, 0);
        if let Parsed::Read { value: _, len: n } = parse_size(data) {
            assert forall|m: nat| n <= m <= data.len() implies #[trigger] parse_size(
                data.take(m as int),
            ) == parse_size(data) by {
                if data[0] >= 128 {
                    let shorter = data.take(m as int).skip(1);
                    assert(shorter =~= rest.take(m - 1));
                    lemma_end_shrinks(rest, (m - 1) as nat, 0);
                    assert(shorter.take(end as int + 1) =~= rest.take(end as int + 1));
                }
            }
        }
    }
}

/// What was read of a stream hangs on the bytes that it was read from alone:
/// whatever follows those, it reads the same.
pub proof fn reading_is_local(data: Seq<u8>, other: Seq<u8>)
    ensures
        parse_pack_header(data) matches Parsed::Read { value: _, len: n } ==> {
            &&& n <= data.len()
            &&& other.len() >= n && other.take(n as int) == data.take(n as int)
                ==> parse_pack_header(other) == parse_pack_header(data)
        },
        parse_entry_header(data) matches Parsed::Read { value: _, len: n } ==> {
            &&& n <= data.len()
            &&& other.len() >= n && other.take(n as int) == data.take(n as int)
                ==> parse_entry_header(other) == parse_entry_header(data)
        },
{
    if let Parsed::Read { value: _, len: n } = parse_pack_header(data) {
        if other.len() >= n && other.take(n as int) == data.take(n as int) {
            assert(data.take(12).take(4) =~= data.take(4));
            assert(other.take(12).take(4) =~= other.take(4));
            assert(data.take(12).subrange(4, 8) =~= data.subrange(4, 8));
            assert(other.take(12).subrange(4, 8) =~= other.subrange(4, 8));
            assert(data.take(12).subrange(8, 12) =~= data.subrange(8, 12));
            assert(other.take(12).subrange(8, 12) =~= other.subrange(8, 12));
        }
    }
    lemma_size_local(data);
    if let Parsed::Read { value: _, len: n } = parse_entry_header(data) {
        let m = parse_size(data)->len;
        let rest = data.skip(m as int);
        if rest.len() > 0 {
            lemma_distance_local(rest, 1, rest[0] as nat % 128);
        }
        assert(m <= n <= data.len());
        let front = data.take(n as int);
        assert(parse_size(front) == parse_size(data));
        assert(front.skip(m as int) =~= rest.take(n - m));
        if data[0] / 16 % 8 == 7 {
            assert(rest.take(20).take(20) =~= rest.take(20));
        }
        assert(parse_entry_header(front) == parse_entry_header(data));
        if other.len() >= n && other.take(n as int) == front {
            reading_is_stable(front, other.skip(n as int));
            assert(front + other.skip(n as int) =~= other);
        }
    }
}

/// A stream has one end: of two whole streams at the front of the same bytes,
/// neither holding a shorter one, neither is longer than the other.
pub proof fn a_stream_has_one_end(data: Seq<u8>, a: nat, b: nat)
    requires
        a <= data.len(),
        b <= data.len(),
        zlib_whole(data.take(a as int)) is Some,
        zlib_whole(data.take(b as int)) is Some,
        nothing_shorter_is_whole(data.take(a as int)),
        nothing_shorter_is_whole(data.take(b as int)),
    ensures
        a == b,
{
    if a < b {
        assert(data.take(b as int).take(a as int) =~= data.take(a as int));
    }
    if b < a {
        assert(data.take(a as int).take(b as int) =~= data.take(b as int));
    }
}

} // verus!
