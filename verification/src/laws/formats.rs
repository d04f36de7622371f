//! What the bytes of a number, of an entry, of a delta and of an index segment
//! say.

use vstd::prelude::*;

use crate::bytes::{be_value, le_bytes, le_value, lemma_le_bytes};
use crate::deps::hex::hex_digit;
use crate::error::Error;
use crate::object::{Kind, ObjectId};
use crate::objects::format::{
    decoded, entries_from, entry_at, location_bytes, object_at, read_header_spec, seq_at,
    Malformed, ObjectView, ENTRY, HEADER,
};
use crate::objects::location::Location;
use crate::packfile::delta::{applied, instruction, replay};
use crate::packfile::format::{entry_header_bytes, EntryHeader};
use crate::packfile::parse::{parse_distance, parse_entry_header, parse_pack_header, Parsed};
use crate::packfile::varint::{place, varint, varint_end, varint_sum};
use crate::text::{bytes_before, decimal, name_before, padded};

verus! {

/// The first byte of a number counts least where the number is written
/// backwards, and the last does where it is not.
pub proof fn bytes_count_by_where_they_stand(byte: u8, rest: Seq<u8>)
    ensures
        le_value(seq![byte] + rest) == byte + 256 * le_value(rest),
        be_value(rest.push(byte)) == 256 * be_value(rest) + byte,
        le_value(Seq::empty()) == 0 && be_value(Seq::empty()) == 0,
{
    assert((seq![byte] + rest).reverse() =~= rest.reverse().push(byte));
    assert(rest.reverse().push(byte).drop_last() =~= rest.reverse());
    assert(rest.push(byte).drop_last() =~= rest);
    assert(Seq::<u8>::empty().reverse() =~= Seq::empty());
}

proof fn lemma_sum_front(byte: u8, rest: Seq<u8>)
    ensures
        varint_sum(seq![byte] + rest) == byte % 128 + 128 * varint_sum(rest),
    decreases rest.len(),
{
    let all = seq![byte] + rest;
    if rest.len() == 0 {
        assert(all.drop_last() =~= Seq::empty());
        assert(all.last() == byte);
        assert(varint_sum(all) == varint_sum(all.drop_last()) + (byte as nat % 128) * place(0));
        assert(varint_sum(Seq::<u8>::empty()) == 0);
        assert(rest =~= Seq::<u8>::empty());
        assert(place(0) == 1);
        assert((byte as nat % 128) * 1 == byte as nat % 128) by (nonlinear_arith);
    } else {
        let short = rest.drop_last();
        lemma_sum_front(byte, short);
        assert(all.drop_last() =~= seq![byte] + short);
        assert(all.last() == rest.last());
        let digit = rest.last() as nat % 128;
        let p = place(short.len());
        assert(place(rest.len()) == 128 * p);
        assert(digit * (128 * p) == 128 * (digit * p)) by (nonlinear_arith);
        assert((all.len() - 1) as nat == rest.len());
        assert(varint_sum(all) == varint_sum(all.drop_last()) + digit * place(rest.len()));
        assert(varint_sum(rest) == varint_sum(short) + digit * p);
    }
}

proof fn lemma_end_shift(data: Seq<u8>, i: nat)
    requires
        data.len() > 0,
    ensures
        varint_end(data, i + 1) == varint_end(data.skip(1), i) + 1,
    decreases data.len() - i,
{
    if i + 1 < data.len() {
        assert(data.skip(1)[i as int] == data[i as int + 1]);
        if data[i as int + 1] >= 128 {
            lemma_end_shift(data, i + 1);
        }
    }
}

/// A number of variable length has its low bits first: a byte below its mark is
/// the whole of it, and one with the mark counts under what follows it.
pub proof fn a_varint_has_its_low_bits_first(data: Seq<u8>)
    requires
        data.len() > 0,
    ensures
        data[0] < 128 ==> varint(data) == Ok::<(u64, nat), Error>((data[0] as u64, 1)),
        data[0] >= 128 ==> (varint(data.skip(1)) matches Ok((value, n)) ==> n <= 8
            && data[0] % 128 + 128 * value <= u64::MAX ==> varint(data) == Ok::<
            (u64, nat),
            Error,
        >(((data[0] % 128 + 128 * value) as u64, n + 1))),
{
    if data[0] < 128 {
        assert(varint_end(data, 0) == 0);
        assert(data.take(1) =~= seq![data[0]] + Seq::<u8>::empty());
        lemma_sum_front(data[0], Seq::empty());
        assert(varint_sum(Seq::<u8>::empty()) == 0);
    } else {
        let rest = data.skip(1);
        if let Ok((value, n)) = varint(rest) {
            let end = varint_end(rest, 0);
            lemma_end_shift(data, 0);
            assert(varint_end(data, 0) == end + 1);
            assert(data.take(end as int + 2) =~= seq![data[0]] + rest.take(end as int + 1));
            lemma_sum_front(data[0], rest.take(end as int + 1));
        }
    }
}

/// The type of an entry as git numbers it.
pub open spec fn git_type(header: EntryHeader) -> nat {
    match header {
        EntryHeader::Full(Kind::Commit) => 1,
        EntryHeader::Full(Kind::Tree) => 2,
        EntryHeader::Full(Kind::Blob) => 3,
        EntryHeader::Full(Kind::Tag) => 4,
        EntryHeader::OfsDelta { .. } => 6,
        EntryHeader::RefDelta { .. } => 7,
    }
}

/// The first byte of an entry says its type, the low bits of its size, and
/// whether more of the size follows.
pub proof fn the_first_byte_of_an_entry_says_its_type(header: EntryHeader, size: u64)
    ensures
        entry_header_bytes(header, size as nat).len() > 0,
        entry_header_bytes(header, size as nat)[0] as nat / 16 % 8 == git_type(header),
        entry_header_bytes(header, size as nat)[0] as nat % 16 == size as nat % 16,
        entry_header_bytes(header, size as nat)[0] >= 128 <==> size >= 16,
{
}

/// A pack header that reads begins with `PACK`, is of the second version, and
/// counts its entries in the bytes that follow.
pub proof fn a_pack_header_says_what_it_is(data: Seq<u8>)
    ensures
        parse_pack_header(data) matches Parsed::Read { value, len } ==> {
            &&& len == 12 && data.len() >= 12
            &&& data[0] == 0x50 && data[1] == 0x41 && data[2] == 0x43 && data[3] == 0x4b
            &&& be_value(data.subrange(4, 8)) == 2
            &&& be_value(data.subrange(8, 12)) <= u32::MAX ==> value == be_value(
                data.subrange(8, 12),
            )
        },
        parse_pack_header(data) is NeedsMore <==> data.len() < 12,
{
    if data.len() >= 12 {
        let front = data.take(4);
        assert(front[0] == data[0] && front[1] == data[1] && front[2] == data[2] && front[3]
            == data[3]);
    }
}

/// A distance has its high bits first, and a longer one begins where the shorter
/// ones end.
pub proof fn a_distance_has_its_high_bits_first(a: u8, b: u8, rest: Seq<u8>)
    requires
        b < 128,
    ensures
        a < 128 ==> parse_distance(seq![a] + rest) == (Parsed::Read { value: a as u64, len: 1 }),
        a >= 128 ==> parse_distance(seq![a, b] + rest) == (Parsed::Read {
            value: ((a - 128 + 1) * 128 + b) as u64,
            len: 2,
        }),
{
    let data = seq![a, b] + rest;
    assert((seq![a] + rest)[0] == a);
    assert(data[0] == a && data[1] == b);
    if a >= 128 {
        assert(a as nat % 128 == a - 128);
    }
}

proof fn lemma_replay_len(base: Seq<u8>, ins: Seq<u8>, promised: nat)
    ensures
        replay(base, ins, promised) matches Ok(made) ==> made.len() == promised,
    decreases ins.len(),
{
    if ins.len() > 0 {
        if let Ok((bytes, n)) = instruction(base, ins) {
            if bytes.len() <= promised {
                assert(n > 0) by {
                    reveal(crate::packfile::delta::operand_at);
                }
                lemma_replay_len(base, ins.skip(n as int), (promised - bytes.len()) as nat);
            }
        }
    }
}

/// A delta that applies is for a base as long as its own says, and makes as many
/// bytes as it promises.
pub proof fn a_delta_keeps_its_promises(base: Seq<u8>, delta: Seq<u8>)
    ensures
        applied(base, delta) matches Ok(made) ==> {
            &&& varint(delta) matches Ok((base_size, n))
            &&& base_size == base.len()
            &&& varint(delta.skip(n as int)) matches Ok((size, _))
            &&& made.len() == size
        },
{
    if let Ok((_, n)) = varint(delta) {
        let rest = delta.skip(n as int);
        if let Ok((size, m)) = varint(rest) {
            lemma_replay_len(base, rest.skip(m as int), size as nat);
        }
    }
}

/// An instruction below the mark inserts the bytes that follow it, as many as it
/// says; none of them is refused.
pub proof fn an_insert_takes_what_follows_it(base: Seq<u8>, count: u8, bytes: Seq<u8>)
    requires
        0 < count < 128,
        bytes.len() >= count,
    ensures
        instruction(base, seq![count] + bytes) == Ok::<(Seq<u8>, nat), Error>(
            (bytes.take(count as int), 1 + count as nat),
        ),
        instruction(base, seq![0u8] + bytes) is Err,
{
    let ins = seq![count] + bytes;
    assert(count & 0x80 == 0) by (bit_vector)
        requires
            0 < count < 128,
    ;
    assert(0u8 & 0x80 == 0) by (bit_vector);
    assert(ins.subrange(1, 1 + count) =~= bytes.take(count as int));
    assert((seq![0u8] + bytes)[0] == 0);
}

/// A copy with every operand takes the bytes of the base from the offset that
/// its first four say, as many as its last three do, each with its low byte
/// first.
pub proof fn a_copy_takes_what_its_operands_say(
    base: Seq<u8>,
    o: (u8, u8, u8, u8),
    s: (u8, u8, u8),
    rest: Seq<u8>,
)
    ensures
        ({
            let ins = seq![0xffu8, o.0, o.1, o.2, o.3, s.0, s.1, s.2] + rest;
            let from = o.0 + 0x100 * o.1 + 0x1_0000 * o.2 + 0x100_0000 * o.3;
            let said = s.0 + 0x100 * s.1 + 0x1_0000 * s.2;
            let count: int = if said == 0 {
                0x1_0000
            } else {
                said
            };
            if from + count <= base.len() {
                instruction(base, ins) == Ok::<(Seq<u8>, nat), Error>(
                    (base.subrange(from, from + count), 8),
                )
            } else {
                instruction(base, ins) is Err
            }
        }),
{
    reveal(crate::packfile::delta::operand_at);
    reveal(crate::packfile::delta::copy_offset);
    reveal(crate::packfile::delta::copy_size_field);
    let ins = seq![0xffu8, o.0, o.1, o.2, o.3, s.0, s.1, s.2] + rest;
    let cmd = ins[0];
    assert(cmd & 0x01 != 0 && cmd & 0x02 != 0 && cmd & 0x04 != 0 && cmd & 0x08 != 0 && cmd & 0x10
        != 0 && cmd & 0x20 != 0 && cmd & 0x40 != 0 && cmd & 0x80 != 0) by (bit_vector)
        requires
            cmd == 0xffu8,
    ;
    assert(ins[1] == o.0 && ins[2] == o.1 && ins[3] == o.2 && ins[4] == o.3 && ins[5] == s.0
        && ins[6] == s.1 && ins[7] == s.2);
    assert(crate::packfile::delta::operand_at(cmd, 0) == 1 && crate::packfile::delta::operand_at(
        cmd,
        7,
    ) == 8);
    let from = o.0 + 0x100 * o.1 + 0x1_0000 * o.2 + 0x100_0000 * o.3;
    let said = s.0 + 0x100 * s.1 + 0x1_0000 * s.2;
    assert(crate::packfile::delta::copy_offset(ins) == from);
    assert(crate::packfile::delta::copy_size_field(ins) == said);
}

/// A number in decimal is its digits, the last of them last.
pub proof fn a_decimal_is_its_digits(n: nat, digit: nat)
    requires
        digit < 10,
    ensures
        decimal(digit).len() == 1 && decimal(digit)[0] as nat == 0x30 + digit,
        n > 0 ==> decimal(10 * n + digit).len() == decimal(n).len() + 1 && decimal(
            10 * n + digit,
        ).drop_last() == decimal(n) && decimal(10 * n + digit).last() as nat == 0x30 + digit,
{
    if n > 0 {
        assert((10 * n + digit) / 10 == n);
        assert((10 * n + digit) % 10 == digit);
        assert(decimal(n).push(hex_digit(digit)).drop_last() =~= decimal(n));
    }
}

/// A number that is padded is the number in decimal behind as many zeros as it
/// takes.
pub proof fn padding_is_zeros(n: nat, width: nat)
    requires
        decimal(n).len() <= width,
    ensures
        padded(n, width).len() == width,
        padded(n, width) == Seq::new(
            (width - decimal(n).len()) as nat,
            |i: int| '0',
        ) + decimal(n),
    decreases width,
{
    let zeros = Seq::new((width - decimal(n).len()) as nat, |i: int| '0');
    assert(decimal(n).len() >= 1) by {
        if n >= 10 {
            assert(decimal(n) == decimal(n / 10).push(hex_digit(n % 10)));
        }
    }
    if width <= 1 {
        assert(zeros =~= Seq::empty());
        assert(zeros + decimal(n) =~= decimal(n));
    } else if n >= 10 {
        assert(decimal(n) == decimal(n / 10).push(hex_digit(n % 10)));
        padding_is_zeros(n / 10, (width - 1) as nat);
        let inner = Seq::new(((width - 1) - decimal(n / 10).len()) as nat, |i: int| '0');
        assert(inner =~= zeros);
        assert((inner + decimal(n / 10)).push(hex_digit(n % 10)) =~= zeros + decimal(n));
    } else {
        assert(n / 10 == 0 && n % 10 == n);
        assert(decimal(0) =~= seq!['0']);
        padding_is_zeros(0, (width - 1) as nat);
        let inner = Seq::new(((width - 1) - 1) as nat, |i: int| '0');
        assert((inner + decimal(0)).push(hex_digit(n)) =~= zeros + decimal(n));
    }
}

/// Whether two texts are the same up to `k`, and the first goes before the
/// second there: it ends, or has the lower byte.
pub open spec fn goes_before_at(a: Seq<u8>, b: Seq<u8>, k: int) -> bool {
    &&& 0 <= k <= a.len() && k < b.len()
    &&& forall|i: int| 0 <= i < k ==> #[trigger] a[i] == b[i]
    &&& k == a.len() || a[k] < b[k]
}

/// Of two texts the one that ends first, or has the lower byte where they first
/// differ, goes before.
pub proof fn texts_go_by_their_first_difference(a: Seq<u8>, b: Seq<u8>)
    ensures
        bytes_before(a, b) <==> exists|k: int| goes_before_at(a, b, k),
    decreases a.len(),
{
    if a.len() == 0 || b.len() == 0 || a[0] != b[0] {
        if bytes_before(a, b) {
            assert(goes_before_at(a, b, 0));
        }
        if exists|k: int| goes_before_at(a, b, k) {
            let k = choose|k: int| goes_before_at(a, b, k);
            if k > 0 {
                assert(a[0] == b[0]);
            }
        }
    } else {
        let x = a.skip(1);
        let y = b.skip(1);
        texts_go_by_their_first_difference(x, y);
        if bytes_before(x, y) {
            let k = choose|k: int| goes_before_at(x, y, k);
            assert forall|i: int| 0 <= i < k + 1 implies #[trigger] a[i] == b[i] by {
                if i > 0 {
                    assert(x[i - 1] == y[i - 1]);
                }
            }
            assert(goes_before_at(a, b, k + 1));
        }
        if exists|k: int| goes_before_at(a, b, k) {
            let k = choose|k: int| goes_before_at(a, b, k);
            assert(k > 0);
            assert forall|i: int| 0 <= i < k - 1 implies #[trigger] x[i] == y[i] by {
                assert(a[i + 1] == b[i + 1]);
            }
            assert(goes_before_at(x, y, k - 1));
        }
    }
}

/// A segment's header is read where the segment is long enough for it, begins
/// with its mark, is of this version, and holds all the rows and the heap that
/// it counts; and it counts the rows.
pub proof fn a_segment_is_as_long_as_its_header_says(bytes: Seq<u8>)
    ensures
        read_header_spec(bytes) is Ok <==> {
            &&& bytes.len() >= 24
            &&& bytes[0] == 0x4f && bytes[1] == 0x49 && bytes[2] == 0x58 && bytes[3] == 0x31
            &&& le_value(bytes.subrange(4, 8)) == 1
            &&& bytes.len() >= 24 + 20 * le_value(bytes.subrange(16, 20)) + le_value(
                bytes.subrange(20, 24),
            )
        },
        read_header_spec(bytes) is Ok ==> read_header_spec(bytes)->Ok_0 == le_value(
            bytes.subrange(16, 20),
        ),
{
    let mark = crate::objects::format::magic();
    if bytes.len() >= 24 {
        let front = bytes.subrange(0, 4);
        assert(front[0] == bytes[0] && front[1] == bytes[1] && front[2] == bytes[2] && front[3]
            == bytes[3]);
        if bytes[0] == 0x4f && bytes[1] == 0x49 && bytes[2] == 0x58 && bytes[3] == 0x31 {
            assert(front =~= mark);
        }
    }
}

proof fn lemma_rows(
    body: Seq<u8>,
    heap: Seq<u8>,
    records: nat,
    at: nat,
    first: u64,
    last: u64,
)
    requires
        entries_from(body, heap, records, at, first, last) is Ok,
    ensures
        ({
            let read = entries_from(body, heap, records, at, first, last)->Ok_0;
            &&& forall|i: nat|
                at <= i < records && i > 0 ==> seq_at(body, (i - 1) as nat) < #[trigger] seq_at(
                    body,
                    i,
                )
            &&& forall|i: nat|
                at <= i < records && first <= #[trigger] seq_at(body, i) <= last
                    ==> read.contains_key(seq_at(body, i)) && object_at(entry_at(body, i), heap)
                    == Ok::<ObjectView, Malformed>(read[seq_at(body, i)])
            &&& forall|seq: u64| #[trigger]
                read.contains_key(seq) ==> first <= seq <= last && exists|i: nat|
                    at <= i < records && #[trigger] seq_at(body, i) == seq
        }),
    decreases records - at,
{
    if at < records {
        let seq = seq_at(body, at);
        lemma_rows(body, heap, records, at + 1, first, last);
        let rest = entries_from(body, heap, records, at + 1, first, last)->Ok_0;
        let read = entries_from(body, heap, records, at, first, last)->Ok_0;
        assert forall|i: nat| at < i < records implies seq < #[trigger] seq_at(body, i) by {
            lemma_ascending(body, records, at, i);
        }
        assert forall|i: nat|
            at <= i < records && first <= #[trigger] seq_at(body, i) <= last implies read.contains_key(
            seq_at(body, i),
        ) && object_at(entry_at(body, i), heap) == Ok::<ObjectView, Malformed>(
            read[seq_at(body, i)],
        ) by {
            if i > at {
                assert(rest.contains_key(seq_at(body, i)));
                assert(seq != seq_at(body, i));
            }
        }
        assert forall|key: u64| #[trigger] read.contains_key(key) implies first <= key <= last
            && exists|i: nat| at <= i < records && #[trigger] seq_at(body, i) == key by {
            if rest.contains_key(key) {
                let i = choose|i: nat| at + 1 <= i < records && #[trigger] seq_at(body, i) == key;
                assert(seq_at(body, i) == key);
            } else {
                assert(seq_at(body, at) == key);
            }
        }
    }
}

/// What ascends step by step ascends.
proof fn lemma_ascending(body: Seq<u8>, records: nat, from: nat, to: nat)
    requires
        from < to < records,
        forall|i: nat|
            from + 1 <= i < records && i > 0 ==> seq_at(body, (i - 1) as nat) < #[trigger] seq_at(
                body,
                i,
            ),
    ensures
        seq_at(body, from) < seq_at(body, to),
    decreases to - from,
{
    assert(seq_at(body, (to - 1) as nat) < seq_at(body, to));
    if from + 1 < to {
        lemma_ascending(body, records, from, (to - 1) as nat);
    }
}

/// What a segment holds is its rows: they ascend, each that is asked for gives
/// the object that it describes under its own number, and nothing else is there.
pub proof fn a_segment_holds_its_rows(bytes: Seq<u8>, first: u64, last: u64, i: nat)
    requires
        decoded(bytes, first, last) is Ok,
        i < read_header_spec(bytes)->Ok_0,
    ensures
        ({
            let records = read_header_spec(bytes)->Ok_0;
            let body = bytes.skip(HEADER as int);
            let heap = body.skip(records * ENTRY);
            let read = decoded(bytes, first, last)->Ok_0;
            &&& i > 0 ==> seq_at(body, (i - 1) as nat) < seq_at(body, i)
            &&& first <= seq_at(body, i) <= last ==> read.contains_key(seq_at(body, i))
                && object_at(entry_at(body, i), heap) == Ok::<ObjectView, Malformed>(
                read[seq_at(body, i)],
            )
            &&& forall|seq: u64| #[trigger]
                read.contains_key(seq) ==> first <= seq <= last && exists|k: nat|
                    k < records && #[trigger] seq_at(body, k) == seq
        }),
{
    let records = read_header_spec(bytes)->Ok_0;
    let body = bytes.skip(HEADER as int);
    lemma_rows(body, body.skip(records * ENTRY), records, 0, first, last);
}

/// A place is written field by field, each where it belongs and with its low
/// byte first, but for the id of its pack, which is written as it is.
pub proof fn a_place_is_written_field_by_field(l: Location)
    ensures
        ({
            let bytes = location_bytes(l);
            &&& bytes.len() == 84
            &&& bytes.subrange(8, 16) == le_bytes(l.offset as nat, 8)
            &&& bytes.subrange(16, 24) == le_bytes(l.entry_len as nat, 8)
            &&& bytes.subrange(32, 52) == l.pack_oid.bytes()
            &&& bytes.subrange(52, 68) == le_bytes(l.segment.id.0 as nat, 16)
            &&& bytes.subrange(68, 76) == le_bytes(l.segment.base_offset as nat, 8)
            &&& bytes.subrange(76, 84) == le_bytes(l.segment.image_len as nat, 8)
            &&& l.pack_seq >= 0 ==> bytes.subrange(0, 8) == le_bytes(l.pack_seq as nat, 8)
            &&& bytes.subrange(24, 32) == le_bytes(
                match l.base_seq {
                    Some(seq) => seq as nat,
                    None => 0xffff_ffff_ffff_ffff,
                },
                8,
            )
        }),
{
    let bytes = location_bytes(l);
    let base = match l.base_seq {
        Some(seq) => seq as nat,
        None => 0xffff_ffff_ffff_ffff,
    };
    lemma_le_bytes(crate::objects::format::as_bits(l.pack_seq), 8);
    lemma_le_bytes(l.offset as nat, 8);
    lemma_le_bytes(l.entry_len as nat, 8);
    lemma_le_bytes(base, 8);
    crate::object::ids_are_their_bytes(l.pack_oid, l.pack_oid);
    lemma_le_bytes(l.segment.id.0 as nat, 16);
    lemma_le_bytes(l.segment.base_offset as nat, 8);
    lemma_le_bytes(l.segment.image_len as nat, 8);
    assert(bytes.subrange(0, 8) =~= le_bytes(crate::objects::format::as_bits(l.pack_seq), 8));
    assert(bytes.subrange(8, 16) =~= le_bytes(l.offset as nat, 8));
    assert(bytes.subrange(16, 24) =~= le_bytes(l.entry_len as nat, 8));
    assert(bytes.subrange(24, 32) =~= le_bytes(base, 8));
    assert(bytes.subrange(32, 52) =~= l.pack_oid.bytes());
    assert(bytes.subrange(52, 68) =~= le_bytes(l.segment.id.0 as nat, 16));
    assert(bytes.subrange(68, 76) =~= le_bytes(l.segment.base_offset as nat, 8));
    assert(bytes.subrange(76, 84) =~= le_bytes(l.segment.image_len as nat, 8));
}

/// Two ids that differ are in one order, which goes by their bytes.
pub proof fn ids_are_in_one_order(a: ObjectId, b: ObjectId, c: ObjectId)
    ensures
        !a.precedes(a),
        a.precedes(b) ==> !b.precedes(a),
        a != b ==> a.precedes(b) || b.precedes(a),
        a.precedes(b) && b.precedes(c) ==> a.precedes(c),
        a.high < b.high ==> a.precedes(b),
{
}

/// An entry header that reads is of the type that its first byte says, and of a
/// size whose low bits that byte holds; the types that git does not use are
/// refused.
pub proof fn an_entry_is_of_the_type_its_first_byte_says(data: Seq<u8>)
    ensures
        parse_entry_header(data) matches Parsed::Read { value, len } ==> {
            &&& 1 <= len && data.len() > 0
            &&& git_type(value.0) == data[0] as nat / 16 % 8
            &&& value.1 as nat % 16 == data[0] as nat % 16
            &&& data[0] < 128 ==> value.1 < 16
        },
        data.len() > 0 && data[0] < 128 && (data[0] as nat / 16 % 8 == 0 || data[0] as nat / 16 % 8
            == 5) ==> parse_entry_header(data) is Refused,
{
    if data.len() > 0 {
        let rest = data.skip(1);
        let sum = varint_sum(rest.take(varint_end(rest, 0) as int + 1));
        assert((data[0] as nat % 16 + 16 * sum) % 0x1_0000_0000_0000_0000 % 16 == data[0] as nat
            % 16) by {
            let x = data[0] as nat % 16 + 16 * sum;
            assert(x % 16 == data[0] as nat % 16);
            assert(x % 0x1_0000_0000_0000_0000 % 16 == x % 16);
        }
    }
}

/// Names go by the bytes that they are written in.
pub proof fn names_go_by_their_bytes(a: Seq<char>, b: Seq<char>)
    ensures
        name_before(a, b) <==> exists|k: int|
            goes_before_at(vstd::utf8::encode_utf8(a), vstd::utf8::encode_utf8(b), k),
{
    texts_go_by_their_first_difference(
        vstd::utf8::encode_utf8(a),
        vstd::utf8::encode_utf8(b),
    );
}

} // verus!
