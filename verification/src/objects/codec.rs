//! Writing object records into a segment's heap and reading them back.

use vstd::prelude::*;
use vstd::slice::slice_subrange;

use crate::bytes::{
    append, le_bytes, le_value, lemma_byte_ranges, lemma_le_bytes, push_le, read_le, same_bytes,
};
use crate::deps::bitmap::{
    members, new_treemap, treemap_bytes, treemap_from_bytes, treemap_is_empty, treemap_to_bytes,
};
use crate::object::{ids_are_their_bytes, ObjectId};
use crate::objects::format::{
    as_bits, base_bits, bitmap_at, from_bits, header_bytes, location_bytes, location_of,
    locations_at, magic, read_header_spec, word_at, Frame, Malformed, ENTRY, HEADER, LOCATION,
    NONE, NO_BASE, VERSION,
};
use crate::objects::location::{Location, SegmentLocation, Ulid};

verus! {

/// No base takes the number that stands for having none.
pub open spec fn bases_fit(locations: Seq<Location>) -> bool {
    forall|i: int|
        0 <= i < locations.len() ==> (#[trigger] locations[i]).base_seq != Some(NO_BASE)
}

proof fn lemma_location_len(l: Location)
    ensures
        location_bytes(l).len() == LOCATION,
{
    lemma_le_bytes(as_bits(l.pack_seq), 8);
    lemma_le_bytes(l.offset as nat, 8);
    lemma_le_bytes(l.entry_len as nat, 8);
    lemma_le_bytes(base_bits(l.base_seq) as nat, 8);
    lemma_le_bytes(l.segment.id.0 as nat, 16);
    lemma_le_bytes(l.segment.base_offset as nat, 8);
    lemma_le_bytes(l.segment.image_len as nat, 8);
    ids_are_their_bytes(l.pack_oid, l.pack_oid);
}

/// A stored location reads back as it was.
pub proof fn location_round_trips(l: Location)
    requires
        l.base_seq != Some(NO_BASE),
    ensures
        location_of(location_bytes(l)) == l,
        location_bytes(l).len() == LOCATION,
{
    lemma_location_len(l);
    lemma_byte_ranges();
    let b = location_bytes(l);
    lemma_le_bytes(as_bits(l.pack_seq), 8);
    lemma_le_bytes(l.offset as nat, 8);
    lemma_le_bytes(l.entry_len as nat, 8);
    lemma_le_bytes(base_bits(l.base_seq) as nat, 8);
    lemma_le_bytes(l.segment.id.0 as nat, 16);
    lemma_le_bytes(l.segment.base_offset as nat, 8);
    lemma_le_bytes(l.segment.image_len as nat, 8);
    ids_are_their_bytes(l.pack_oid, l.pack_oid);
    assert(b.subrange(0, 8) =~= le_bytes(as_bits(l.pack_seq), 8));
    assert(b.subrange(8, 16) =~= le_bytes(l.offset as nat, 8));
    assert(b.subrange(16, 24) =~= le_bytes(l.entry_len as nat, 8));
    assert(b.subrange(24, 32) =~= le_bytes(base_bits(l.base_seq) as nat, 8));
    assert(b.subrange(32, 52) =~= l.pack_oid.bytes());
    assert(b.subrange(52, 68) =~= le_bytes(l.segment.id.0 as nat, 16));
    assert(b.subrange(68, 76) =~= le_bytes(l.segment.base_offset as nat, 8));
    assert(b.subrange(76, 84) =~= le_bytes(l.segment.image_len as nat, 8));
}

/// What a heap reference reads as stays so as the heap grows.
pub(crate) proof fn lemma_heap_grows(at: u32, heap: Seq<u8>, more: Seq<u8>)
    ensures
        locations_at(at, heap) is Ok ==> locations_at(at, heap + more) == locations_at(at, heap),
        bitmap_at(at, heap) is Ok ==> bitmap_at(at, heap + more) == bitmap_at(at, heap),
{
    if at + 4 <= heap.len() {
        let grown = heap + more;
        assert(grown.subrange(at as int, at + 4) =~= heap.subrange(at as int, at + 4));
        let n = le_value(heap.subrange(at as int, at + 4)) as int;
        if at + 4 + n * LOCATION <= heap.len() {
            assert forall|i: int| 0 <= i < n implies #[trigger] grown.subrange(
                at + 4 + i * LOCATION,
                at + 4 + i * LOCATION + LOCATION,
            ) == heap.subrange(at + 4 + i * LOCATION, at + 4 + i * LOCATION + LOCATION) by {
                assert(i * LOCATION + LOCATION <= n * LOCATION) by (nonlinear_arith)
                    requires
                        0 <= i < n,
                ;
                assert(0 <= i * LOCATION) by (nonlinear_arith)
                    requires
                        0 <= i,
                ;
                assert(grown.subrange(at + 4 + i * LOCATION, at + 4 + i * LOCATION + LOCATION)
                    =~= heap.subrange(at + 4 + i * LOCATION, at + 4 + i * LOCATION + LOCATION));
            }
            if at != NONE {
                assert(locations_at(at, grown)->Ok_0 =~= locations_at(at, heap)->Ok_0);
            }
        }
        if at + 4 + n <= heap.len() {
            assert(grown.subrange(at + 4, at + 4 + n) =~= heap.subrange(at + 4, at + 4 + n));
        }
    }
}

/// The bits of a signed number.
fn to_bits(value: i64) -> (bits: u128)
    ensures
        bits == as_bits(value),
{
    if value < 0 {
        (value as i128 + 0x1_0000_0000_0000_0000) as u128
    } else {
        value as u128
    }
}

/// The signed number that 64 bits stand for.
fn of_bits(bits: u128) -> (value: i64)
    requires
        bits < 0x1_0000_0000_0000_0000,
    ensures
        value == from_bits(bits as nat),
{
    if bits >= 0x8000_0000_0000_0000 {
        (bits as i128 - 0x1_0000_0000_0000_0000) as i64
    } else {
        bits as i64
    }
}

fn push_location(heap: &mut Vec<u8>, l: &Location)
    ensures
        final(heap)@ == old(heap)@ + location_bytes(*l),
{
    let base: u64 = match l.base_seq {
        None => NO_BASE,
        Some(seq) => seq,
    };
    push_le(heap, to_bits(l.pack_seq), 8);
    push_le(heap, l.offset as u128, 8);
    push_le(heap, l.entry_len as u128, 8);
    push_le(heap, base as u128, 8);
    let oid = l.pack_oid.to_bytes();
    append(heap, oid.as_slice());
    push_le(heap, l.segment.id.0, 16);
    push_le(heap, l.segment.base_offset as u128, 8);
    push_le(heap, l.segment.image_len as u128, 8);
    assert(heap@ =~= old(heap)@ + location_bytes(*l));
}

/// The concatenated bytes of a list of locations.
pub open spec fn locations_bytes(locations: Seq<Location>) -> Seq<u8>
    decreases locations.len(),
{
    if locations.len() == 0 {
        Seq::empty()
    } else {
        locations_bytes(locations.drop_last()) + location_bytes(locations.last())
    }
}

proof fn lemma_locations_bytes(locations: Seq<Location>, i: int)
    requires
        bases_fit(locations),
    ensures
        locations_bytes(locations).len() == locations.len() * LOCATION,
        0 <= i < locations.len() ==> location_of(
            locations_bytes(locations).subrange(i * LOCATION, i * LOCATION + LOCATION),
        ) == locations[i],
    decreases locations.len(),
{
    if locations.len() > 0 {
        let front = locations.drop_last();
        lemma_locations_bytes(front, i);
        location_round_trips(locations.last());
        let n = front.len() as int;
        assert(locations.len() * LOCATION == n * LOCATION + LOCATION) by (nonlinear_arith)
            requires
                locations.len() == n + 1,
        ;
        if 0 <= i < n {
            assert(i * LOCATION + LOCATION <= n * LOCATION) by (nonlinear_arith)
                requires
                    0 <= i < n,
            ;
            assert(0 <= i * LOCATION) by (nonlinear_arith)
                requires
                    0 <= i,
            ;
            assert(locations_bytes(locations).subrange(i * LOCATION, i * LOCATION + LOCATION)
                =~= locations_bytes(front).subrange(i * LOCATION, i * LOCATION + LOCATION));
        } else if i == n {
            assert(locations_bytes(locations).subrange(i * LOCATION, i * LOCATION + LOCATION)
                =~= location_bytes(locations.last()));
        }
    }
}

/// Where the next thing goes that is put on the heap; an offset past 32 bits
/// reads as none.
pub open spec fn next_at(heap: Seq<u8>) -> u32 {
    if heap.len() < NONE {
        heap.len() as u32
    } else {
        NONE
    }
}

/// A length as the word in front of what it counts; zero past 32 bits.
pub open spec fn length_word(n: nat) -> Seq<u8> {
    le_bytes(
        if n <= u32::MAX {
            n
        } else {
            0
        },
        4,
    )
}

/// Where a location list goes on the heap, and the heap with it. An empty list
/// takes no room.
pub open spec fn locations_stowed(locations: Seq<Location>, heap: Seq<u8>) -> (u32, Seq<u8>) {
    if locations.len() == 0 {
        (NONE, heap)
    } else {
        (next_at(heap), heap + (length_word(locations.len()) + locations_bytes(locations)))
    }
}

/// Where a bitmap goes on the heap, and the heap with it. An empty one takes no
/// room.
pub open spec fn bitmap_stowed(bitmap: roaring::RoaringTreemap, heap: Seq<u8>) -> (u32, Seq<u8>) {
    if members(bitmap) == Set::<u64>::empty() {
        (NONE, heap)
    } else {
        let bytes = treemap_bytes(bitmap);
        (next_at(heap), heap + (length_word(bytes.len()) + bytes))
    }
}

/// Appends a location list to the heap, returning where it went.
pub fn stow_locations(locations: &Vec<Location>, heap: &mut Vec<u8>) -> (at: u32)
    ensures
        (at, final(heap)@) == locations_stowed(locations@, old(heap)@),
        exists|more: Seq<u8>| final(heap)@ == #[trigger] (old(heap)@ + more),
        bases_fit(locations@) && final(heap)@.len() < NONE ==> locations_at(at, final(heap)@)
            == Ok::<Seq<Location>, Malformed>(locations@),
{
    if locations.len() == 0 {
        proof {
            assert(heap@ =~= old(heap)@ + Seq::<u8>::empty());
            assert(locations@ =~= Seq::<Location>::empty());
        }
        return NONE;
    }
    let at: u32 = if heap.len() < NONE as usize {
        heap.len() as u32
    } else {
        NONE
    };
    let count: u32 = if locations.len() <= 0xffff_ffff {
        locations.len() as u32
    } else {
        0
    };
    push_le(heap, count as u128, 4);
    let ghost word = heap@;
    let mut i: usize = 0;
    assert(locations@.take(0) =~= Seq::<Location>::empty());
    assert(word =~= word + Seq::<u8>::empty());
    while i < locations.len()
        invariant
            i <= locations@.len(),
            heap@ == word + locations_bytes(locations@.take(i as int)),
        decreases locations@.len() - i,
    {
        push_location(heap, &locations[i]);
        proof {
            let front = locations@.take(i as int);
            assert(locations@.take(i + 1).drop_last() =~= front);
            assert(heap@ =~= word + (locations_bytes(front) + location_bytes(locations@[i as int])));
        }
        i = i + 1;
    }
    proof {
        let before = old(heap)@;
        assert(locations@.take(i as int) =~= locations@);
        let more = le_bytes(count as nat, 4) + locations_bytes(locations@);
        assert(heap@ =~= before + more);
        if bases_fit(locations@) && heap@.len() < NONE {
            lemma_le_bytes(count as nat, 4);
            lemma_byte_ranges();
            lemma_locations_bytes(locations@, 0);
            assert(at == before.len());
            assert(locations@.len() <= locations@.len() * LOCATION) by (nonlinear_arith);
            assert(heap@.subrange(at as int, at + 4) =~= le_bytes(count as nat, 4));
            let read = locations_at(at, heap@)->Ok_0;
            assert forall|j: int| 0 <= j < locations@.len() implies #[trigger] read[j]
                == locations@[j] by {
                lemma_locations_bytes(locations@, j);
                assert(j * LOCATION + LOCATION <= locations@.len() * LOCATION)
                    by (nonlinear_arith)
                    requires
                        0 <= j < locations@.len(),
                ;
                assert(0 <= j * LOCATION) by (nonlinear_arith)
                    requires
                        0 <= j,
                ;
                assert(heap@.subrange(at + 4 + j * LOCATION, at + 4 + j * LOCATION + LOCATION)
                    =~= locations_bytes(locations@).subrange(j * LOCATION, j * LOCATION + LOCATION));
            }
            assert(read =~= locations@);
        }
    }
    at
}

/// The length word at `at` in the heap.
fn read_word(at: u32, heap: &[u8]) -> (word: Option<u32>)
    ensures
        match word {
            Some(word) => word_at(at, heap@) == Some(word as nat),
            None => word_at(at, heap@) is None,
        },
{
    let start: u64 = at as u64;
    if start + 4 > heap.len() as u64 {
        return None;
    }
    proof {
        lemma_byte_ranges();
    }
    Some(read_le(slice_subrange(heap, at as usize, at as usize + 4)) as u32)
}

fn read_location(record: &[u8]) -> (l: Location)
    requires
        record@.len() == LOCATION,
    ensures
        l == location_of(record@),
{
    proof {
        lemma_byte_ranges();
    }
    let base: u64 = read_le(slice_subrange(record, 24, 32)) as u64;
    Location {
        pack_seq: of_bits(read_le(slice_subrange(record, 0, 8))),
        pack_oid: ObjectId::from_bytes(slice_subrange(record, 32, 52)),
        segment: SegmentLocation {
            id: Ulid(read_le(slice_subrange(record, 52, 68))),
            base_offset: read_le(slice_subrange(record, 68, 76)) as u64,
            image_len: read_le(slice_subrange(record, 76, 84)) as u64,
        },
        offset: read_le(slice_subrange(record, 8, 16)) as u64,
        entry_len: read_le(slice_subrange(record, 16, 24)) as u64,
        base_seq: if base == NO_BASE {
            None
        } else {
            Some(base)
        },
    }
}

/// Reads back what [`stow_locations`] wrote.
pub fn read_locations(at: u32, heap: &[u8]) -> (r: Result<Vec<Location>, Malformed>)
    ensures
        match r {
            Ok(locations) => locations_at(at, heap@) == Ok::<Seq<Location>, Malformed>(locations@),
            Err(e) => locations_at(at, heap@) == Err::<Seq<Location>, Malformed>(e),
        },
{
    if at == NONE {
        return Ok(Vec::new());
    }
    // The count of locations, not of bytes: they are a fixed stride.
    let count: u32 = match read_word(at, heap) {
        None => {
            return Err(Malformed::StrayHeap(at));
        },
        Some(count) => count,
    };
    if at as u64 + 4 + count as u64 * LOCATION as u64 > heap.len() as u64 {
        return Err(Malformed::StrayHeap(at));
    }
    let start: usize = at as usize + 4;
    let end: usize = heap.len();
    let mut locations: Vec<Location> = Vec::new();
    let mut i: usize = 0;
    while i < count as usize
        invariant
            i <= count,
            start == at + 4,
            end == heap@.len(),
            at != NONE,
            word_at(at, heap@) == Some(count as nat),
            start + count * LOCATION <= heap@.len(),
            locations@ == locations_at(at, heap@)->Ok_0.take(i as int),
        decreases count - i,
    {
        assert(i * LOCATION + LOCATION <= count * LOCATION) by (nonlinear_arith)
            requires
                0 <= i < count,
        ;
        let from: usize = start + i * LOCATION;
        locations.push(read_location(slice_subrange(heap, from, from + LOCATION)));
        i = i + 1;
        assert(locations@ =~= locations_at(at, heap@)->Ok_0.take(i as int));
    }
    assert(locations@ =~= locations_at(at, heap@)->Ok_0);
    Ok(locations)
}

/// Appends a bitmap to the heap, returning where it went.
pub fn stow_bitmap(bitmap: &roaring::RoaringTreemap, heap: &mut Vec<u8>) -> (at: u32)
    ensures
        (at, final(heap)@) == bitmap_stowed(*bitmap, old(heap)@),
        exists|more: Seq<u8>| final(heap)@ == #[trigger] (old(heap)@ + more),
        final(heap)@.len() < NONE ==> bitmap_at(at, final(heap)@) == Ok::<Set<u64>, Malformed>(
            members(*bitmap),
        ),
{
    if treemap_is_empty(bitmap) {
        assert(heap@ =~= old(heap)@ + Seq::<u8>::empty());
        return NONE;
    }
    let bytes = treemap_to_bytes(bitmap);
    let at: u32 = if heap.len() < NONE as usize {
        heap.len() as u32
    } else {
        NONE
    };
    let len: u32 = if bytes.len() <= 0xffff_ffff {
        bytes.len() as u32
    } else {
        0
    };
    push_le(heap, len as u128, 4);
    append(heap, bytes.as_slice());
    proof {
        let more = le_bytes(len as nat, 4) + bytes@;
        assert(heap@ =~= old(heap)@ + more);
        lemma_le_bytes(len as nat, 4);
        lemma_byte_ranges();
        if heap@.len() < NONE {
            assert(heap@.subrange(at as int, at + 4) =~= le_bytes(len as nat, 4));
            assert(heap@.subrange(at + 4, at + 4 + len) =~= bytes@);
        }
    }
    at
}

/// Reads back what [`stow_bitmap`] wrote.
pub fn read_bitmap(at: u32, heap: &[u8]) -> (r: Result<roaring::RoaringTreemap, Malformed>)
    ensures
        match r {
            Ok(set) => bitmap_at(at, heap@) == Ok::<Set<u64>, Malformed>(members(set)),
            Err(e) => bitmap_at(at, heap@) == Err::<Set<u64>, Malformed>(e),
        },
{
    if at == NONE {
        return Ok(new_treemap());
    }
    let len: u32 = match read_word(at, heap) {
        None => {
            return Err(Malformed::StrayHeap(at));
        },
        Some(len) => len,
    };
    if at as u64 + 4 + len as u64 > heap.len() as u64 {
        return Err(Malformed::StrayHeap(at));
    }
    let start: usize = at as usize + 4;
    match treemap_from_bytes(slice_subrange(heap, start, start + len as usize)) {
        Some(set) => Ok(set),
        None => Err(Malformed::Bitmap),
    }
}

/// Write a segment's header.
pub fn write_header(first: u64, records: usize, heap: usize, out: &mut Vec<u8>)
    ensures
        final(out)@ == old(out)@ + header_bytes(first, records as nat, heap as nat),
{
    out.push(0x4f);
    out.push(0x49);
    out.push(0x58);
    out.push(0x31);
    push_le(out, VERSION as u128, 4);
    push_le(out, first as u128, 8);
    push_le(out, records as u128, 4);
    push_le(out, heap as u128, 4);
    assert(out@ =~= old(out)@ + header_bytes(first, records as nat, heap as nat));
}

/// How many entries a segment's header promises, where the bytes keep to it.
pub fn read_header(bytes: &[u8]) -> (r: Result<usize, Frame>)
    ensures
        match r {
            Ok(records) => read_header_spec(bytes@) == Ok::<nat, Frame>(records as nat),
            Err(e) => read_header_spec(bytes@) == Err::<nat, Frame>(e),
        },
{
    if bytes.len() < HEADER {
        return Err(Frame::Short(bytes.len()));
    }
    let name: [u8; 4] = [0x4f, 0x49, 0x58, 0x31];
    assert(name@ =~= magic());
    if !same_bytes(slice_subrange(bytes, 0, 4), name.as_slice()) {
        return Err(Frame::Magic);
    }
    proof {
        lemma_byte_ranges();
    }
    let version: u32 = read_le(slice_subrange(bytes, 4, 8)) as u32;
    if version != VERSION {
        return Err(Frame::Version(version));
    }
    let records: u64 = read_le(slice_subrange(bytes, 16, 20)) as u64;
    let heap: u64 = read_le(slice_subrange(bytes, 20, 24)) as u64;
    let expected: u64 = HEADER as u64 + records * ENTRY as u64 + heap;
    if (bytes.len() as u64) < expected {
        return Err(Frame::Truncated { expected, actual: bytes.len() });
    }
    Ok(records as usize)
}

/// A header reads back as it was written, where the numbers fit and the rest
/// follows.
pub proof fn header_round_trips(first: u64, records: nat, heap: nat, rest: Seq<u8>)
    requires
        records <= u32::MAX,
        heap <= u32::MAX,
        rest.len() == records * ENTRY + heap,
    ensures
        header_bytes(first, records, heap).len() == HEADER,
        read_header_spec(header_bytes(first, records, heap) + rest) == Ok::<nat, Frame>(records),
{
    lemma_byte_ranges();
    lemma_le_bytes(VERSION as nat, 4);
    lemma_le_bytes(first as nat, 8);
    lemma_le_bytes(records, 4);
    lemma_le_bytes(heap, 4);
    let bytes = header_bytes(first, records, heap) + rest;
    assert(bytes.subrange(0, 4) =~= magic());
    assert(bytes.subrange(4, 8) =~= le_bytes(VERSION as nat, 4));
    assert(bytes.subrange(16, 20) =~= le_bytes(records, 4));
    assert(bytes.subrange(20, 24) =~= le_bytes(heap, 4));
}

} // verus!
