//! Unsigned LEB128: seven bits per byte, least significant first, the high bit
//! marking a continuation.
//!
//! Git uses it for the two sizes at the front of a delta.

use vstd::prelude::*;

use crate::error::Error;

verus! {

/// Weight of the digit at position `i`: 128 to the power `i`.
pub open spec fn place(i: nat) -> nat
    decreases i,
{
    if i == 0 {
        1
    } else {
        128 * place((i - 1) as nat)
    }
}

/// The number that the digits in `bytes` spell, continuation bits left aside.
pub open spec fn varint_sum(bytes: Seq<u8>) -> nat
    decreases bytes.len(),
{
    if bytes.len() == 0 {
        0
    } else {
        varint_sum(bytes.drop_last()) + (bytes.last() as nat % 128) * place(
            (bytes.len() - 1) as nat,
        )
    }
}

/// Index of the first byte at or after `i` without a continuation bit, or the
/// length of `data` where there is none.
pub open spec fn varint_end(data: Seq<u8>, i: nat) -> nat
    decreases data.len() - i,
{
    if i >= data.len() {
        data.len()
    } else if data[i as int] < 128 {
        i
    } else {
        varint_end(data, i + 1)
    }
}

/// What the varint at the front of `data` reads as: its value and how many
/// bytes it takes.
///
/// A number that needs more than 64 bits is refused, and so is one that goes on
/// past ten bytes.
pub open spec fn varint(data: Seq<u8>) -> Result<(u64, nat), Error> {
    let end = varint_end(data, 0);
    if end >= 10 && data.len() > 10 {
        Err(Error::VarintOverflow)
    } else if end >= data.len() {
        Err(Error::VarintTruncated)
    } else if varint_sum(data.take(end as int + 1)) > u64::MAX {
        Err(Error::VarintOverflow)
    } else {
        Ok((varint_sum(data.take(end as int + 1)) as u64, end + 1))
    }
}

/// The bytes that stand for `value`.
pub open spec fn varint_bytes(value: nat) -> Seq<u8>
    decreases value,
{
    if value < 128 {
        seq![value as u8]
    } else {
        seq![(value % 128 + 128) as u8] + varint_bytes(value / 128)
    }
}

/// Parse a varint from the front of `data`, returning the value and how many
/// bytes it consumed.
pub fn read_varint(data: &[u8]) -> (r: Result<(u64, usize), Error>)
    ensures
        match r {
            Ok((value, n)) => varint(data@) == Ok::<(u64, nat), Error>((value, n as nat)),
            Err(e) => varint(data@) == Err::<(u64, nat), Error>(e),
        },
        r is Ok ==> r->Ok_0.1 <= data@.len(),
{
    let mut value: u128 = 0;
    let mut scale: u128 = 1;
    let mut i: usize = 0;
    while i < data.len()
        invariant
            i <= data@.len(),
            i <= 10,
            value == varint_sum(data@.take(i as int)),
            value < scale,
            scale == place(i as nat),
            scale <= 0x40_0000_0000_0000_0000,
            varint_end(data@, 0) == varint_end(data@, i as nat),
        decreases data@.len() - i,
    {
        if i == 10 {
            proof {
                lemma_end_bounds(data@, i as nat);
            }
            return Err(Error::VarintOverflow);
        }
        proof {
            assert(data@.take(i + 1).drop_last() =~= data@.take(i as int));
            lemma_place_bound(i as nat);
        }
        let byte: u8 = data[i];
        let digit: u128 = (byte % 128) as u128;
        assert(digit * scale <= 127 * scale) by (nonlinear_arith)
            requires
                digit <= 127,
        ;
        value = value + digit * scale;
        scale = scale * 128;
        i = i + 1;
        if byte < 128 {
            if value > 0xffff_ffff_ffff_ffff {
                return Err(Error::VarintOverflow);
            }
            return Ok((value as u64, i));
        }
    }
    Err(Error::VarintTruncated)
}

/// Append a varint, the inverse of [`read_varint`].
pub fn write_varint(out: &mut Vec<u8>, value: u64)
    ensures
        final(out)@ == old(out)@ + varint_bytes(value as nat),
{
    let mut rest: u64 = value;
    while rest >= 128
        invariant
            out@ + varint_bytes(rest as nat) == old(out)@ + varint_bytes(value as nat),
        decreases rest,
    {
        let ghost before = out@;
        out.push((rest % 128 + 128) as u8);
        proof {
            assert(before + (seq![(rest % 128 + 128) as u8] + varint_bytes((rest / 128) as nat))
                =~= out@ + varint_bytes((rest / 128) as nat));
        }
        rest = rest / 128;
    }
    out.push(rest as u8);
}

proof fn lemma_place_bound(i: nat)
    requires
        i <= 9,
    ensures
        place(i) <= 0x8000_0000_0000_0000,
        place(i + 1) == 128 * place(i),
{
    reveal_with_fuel(place, 11);
}

pub(crate) proof fn lemma_end_bounds(data: Seq<u8>, i: nat)
    requires
        i <= data.len(),
    ensures
        i <= varint_end(data, i) <= data.len(),
    decreases data.len() - i,
{
    if i < data.len() && data[i as int] >= 128 {
        lemma_end_bounds(data, i + 1);
    }
}

proof fn lemma_sum_front(first: u8, rest: Seq<u8>)
    ensures
        varint_sum(seq![first] + rest) == first as nat % 128 + 128 * varint_sum(rest),
    decreases rest.len(),
{
    let all = seq![first] + rest;
    if rest.len() == 0 {
        assert(all.drop_last() =~= Seq::<u8>::empty());
        reveal_with_fuel(varint_sum, 2);
        assert(all.last() == first);
        assert(varint_sum(all) == (first as nat % 128) * place(0));
        assert((first as nat % 128) * 1 == first as nat % 128);
    } else {
        lemma_sum_front(first, rest.drop_last());
        assert(all.drop_last() =~= seq![first] + rest.drop_last());
        let digit = rest.last() as nat % 128;
        let weight = place((rest.len() - 1) as nat);
        assert(place(rest.len()) == 128 * weight);
        assert(all.last() == rest.last());
        assert(varint_sum(all) == varint_sum(all.drop_last()) + digit * place(rest.len()));
        assert(digit * (128 * weight) == 128 * (digit * weight)) by (nonlinear_arith);
        assert(128 * (varint_sum(rest.drop_last()) + digit * weight) == 128 * varint_sum(
            rest.drop_last(),
        ) + 128 * (digit * weight));
    }
}

pub(crate) proof fn lemma_bytes(value: nat, limit: nat)
    requires
        value < place(limit),
        1 <= limit,
    ensures
        varint_sum(varint_bytes(value)) == value,
        1 <= varint_bytes(value).len() <= limit,
        varint_bytes(value).last() < 128,
        forall|j: int|
            0 <= j < varint_bytes(value).len() - 1 ==> (#[trigger] varint_bytes(value)[j]) >= 128,
    decreases value,
{
    let bytes = varint_bytes(value);
    if value < 128 {
        assert(bytes.drop_last() =~= Seq::<u8>::empty());
        reveal_with_fuel(varint_sum, 2);
        reveal_with_fuel(place, 2);
        assert(bytes.last() as nat % 128 == value);
        assert(place(0) == 1);
        assert(varint_sum(bytes) == varint_sum(bytes.drop_last()) + value * place(0));
        assert(value * 1 == value);
    } else {
        reveal_with_fuel(place, 2);
        lemma_bytes(value / 128, (limit - 1) as nat);
        lemma_sum_front((value % 128 + 128) as u8, varint_bytes(value / 128));
        let tail = varint_bytes(value / 128);
        let first = (value % 128 + 128) as u8;
        assert(bytes == seq![first] + tail);
        assert(first as nat % 128 == value % 128);
        assert(value == value % 128 + 128 * (value / 128));
        assert forall|j: int| 0 <= j < bytes.len() - 1 implies (#[trigger] bytes[j]) >= 128 by {
            if j > 0 {
                assert(bytes[j] == tail[j - 1]);
            }
        }
        assert(bytes.last() == tail.last());
    }
}

pub(crate) proof fn lemma_end_at(data: Seq<u8>, i: nat, end: nat)
    requires
        i <= end < data.len(),
        data[end as int] < 128,
        forall|j: int| i <= j < end ==> (#[trigger] data[j]) >= 128,
    ensures
        varint_end(data, i) == end,
    decreases end - i,
{
    if i < end {
        lemma_end_at(data, i + 1, end);
    }
}

/// Reading gives back what writing wrote, whatever follows it.
pub proof fn varint_round_trips(value: u64, rest: Seq<u8>)
    ensures
        varint(varint_bytes(value as nat) + rest) == Ok::<(u64, nat), Error>(
            (value, varint_bytes(value as nat).len()),
        ),
        varint_bytes(value as nat).len() <= 10,
{
    let bytes = varint_bytes(value as nat);
    reveal_with_fuel(place, 11);
    lemma_bytes(value as nat, 10);
    let data = bytes + rest;
    let end = (bytes.len() - 1) as nat;
    assert forall|j: int| 0 <= j < end implies (#[trigger] data[j]) >= 128 by {
        assert(data[j] == bytes[j]);
    }
    lemma_end_at(data, 0, end);
    assert(data.take(end as int + 1) =~= bytes);
}

} // verus!
