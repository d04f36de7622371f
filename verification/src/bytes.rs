//! Byte runs: appending one to another, and the numbers that a run spells in
//! either byte order.

use vstd::prelude::*;

verus! {

/// Append `bytes` to `out`.
pub fn append(out: &mut Vec<u8>, bytes: &[u8])
    ensures
        final(out)@ == old(out)@ + bytes@,
{
    out.extend_from_slice(bytes);
    assert(out@ =~= old(out)@ + bytes@);
}

/// Whether two byte runs are the same.
pub fn same_bytes(a: &[u8], b: &[u8]) -> (same: bool)
    ensures
        same == (a@ == b@),
{
    if a.len() != b.len() {
        return false;
    }
    let mut i: usize = 0;
    while i < a.len()
        invariant
            i <= a@.len(),
            a@.len() == b@.len(),
            forall|j: int| 0 <= j < i ==> a@[j] == b@[j],
        decreases a@.len() - i,
    {
        if a[i] != b[i] {
            return false;
        }
        i = i + 1;
    }
    assert(a@ =~= b@);
    true
}

/// 256 to the power `n`: how many values `n` bytes can spell.
pub open spec fn byte_range(n: nat) -> nat
    decreases n,
{
    if n == 0 {
        1
    } else {
        256 * byte_range((n - 1) as nat)
    }
}

/// The number that `bytes` spells, most significant byte first.
pub open spec fn be_value(bytes: Seq<u8>) -> nat
    decreases bytes.len(),
{
    if bytes.len() == 0 {
        0
    } else {
        be_value(bytes.drop_last()) * 256 + bytes.last() as nat
    }
}

/// The `n` low bytes of `value`, most significant first.
pub open spec fn be_bytes(value: nat, n: nat) -> Seq<u8>
    decreases n,
{
    if n == 0 {
        Seq::empty()
    } else {
        be_bytes(value / 256, (n - 1) as nat).push((value % 256) as u8)
    }
}

/// The number that `bytes` spells, least significant byte first.
pub open spec fn le_value(bytes: Seq<u8>) -> nat {
    be_value(bytes.reverse())
}

/// The `n` low bytes of `value`, least significant first.
pub open spec fn le_bytes(value: nat, n: nat) -> Seq<u8> {
    be_bytes(value, n).reverse()
}

pub(crate) proof fn lemma_be_bytes(value: nat, n: nat)
    ensures
        be_bytes(value, n).len() == n,
        value < byte_range(n) ==> be_value(be_bytes(value, n)) == value,
    decreases n,
{
    if n > 0 {
        lemma_be_bytes(value / 256, (n - 1) as nat);
        let bytes = be_bytes(value, n);
        assert(bytes.drop_last() =~= be_bytes(value / 256, (n - 1) as nat));
    }
}

pub(crate) proof fn lemma_be_value(bytes: Seq<u8>)
    ensures
        be_value(bytes) < byte_range(bytes.len()),
        be_bytes(be_value(bytes), bytes.len()) == bytes,
    decreases bytes.len(),
{
    if bytes.len() > 0 {
        lemma_be_value(bytes.drop_last());
        assert(bytes =~= bytes.drop_last().push(bytes.last()));
    }
}

pub(crate) proof fn lemma_le_bytes(value: nat, n: nat)
    ensures
        le_bytes(value, n).len() == n,
        value < byte_range(n) ==> le_value(le_bytes(value, n)) == value,
{
    lemma_be_bytes(value, n);
    assert(le_bytes(value, n).reverse() =~= be_bytes(value, n));
}

/// What one, four, eight and sixteen bytes can spell, as numbers.
pub(crate) proof fn lemma_byte_ranges()
    ensures
        byte_range(1) == 0x100,
        byte_range(4) == 0x1_0000_0000,
        byte_range(8) == 0x1_0000_0000_0000_0000,
        byte_range(16) == 0x1_0000_0000_0000_0000_0000_0000_0000_0000,
{
    reveal_with_fuel(byte_range, 17);
}

proof fn lemma_byte_range_grows(i: nat, j: nat)
    requires
        i <= j,
    ensures
        0 < byte_range(i) <= byte_range(j),
    decreases j,
{
    if j > i {
        lemma_byte_range_grows(i, (j - 1) as nat);
    } else if i > 0 {
        lemma_byte_range_grows((i - 1) as nat, (i - 1) as nat);
    }
}

/// Append the `n` low bytes of `value`, most significant first.
pub fn push_be(out: &mut Vec<u8>, value: u128, n: usize)
    ensures
        final(out)@ == old(out)@ + be_bytes(value as nat, n as nat),
    decreases n,
{
    if n == 0 {
        assert(out@ =~= old(out)@ + be_bytes(value as nat, 0));
        return;
    }
    push_be(out, value / 256, n - 1);
    out.push((value % 256) as u8);
    assert(out@ =~= old(out)@ + be_bytes(value as nat, n as nat));
}

/// Append the `n` low bytes of `value`, least significant first.
pub fn push_le(out: &mut Vec<u8>, value: u128, n: usize)
    ensures
        final(out)@ == old(out)@ + le_bytes(value as nat, n as nat),
    decreases n,
{
    if n == 0 {
        assert(out@ =~= old(out)@ + le_bytes(value as nat, 0));
        return;
    }
    let ghost high = be_bytes((value / 256) as nat, (n - 1) as nat);
    let ghost low = (value % 256) as u8;
    out.push((value % 256) as u8);
    push_le(out, value / 256, n - 1);
    proof {
        assert(high.push(low).reverse() =~= seq![low] + high.reverse());
        assert(out@ =~= old(out)@ + le_bytes(value as nat, n as nat));
    }
}

/// Read a number, most significant byte first.
pub fn read_be(bytes: &[u8]) -> (value: u128)
    requires
        bytes@.len() <= 16,
    ensures
        value == be_value(bytes@),
        value < byte_range(bytes@.len()),
{
    let mut value: u128 = 0;
    let mut i: usize = 0;
    assert(bytes@.take(0) =~= Seq::<u8>::empty());
    while i < bytes.len()
        invariant
            i <= bytes@.len() <= 16,
            value == be_value(bytes@.take(i as int)),
        decreases bytes@.len() - i,
    {
        proof {
            lemma_be_value(bytes@.take(i as int));
            lemma_byte_range_grows(i as nat, 15);
            reveal_with_fuel(byte_range, 17);
            assert(bytes@.take(i + 1).drop_last() =~= bytes@.take(i as int));
        }
        value = value * 256 + bytes[i] as u128;
        i = i + 1;
    }
    proof {
        assert(bytes@.take(i as int) =~= bytes@);
        lemma_be_value(bytes@);
    }
    value
}

/// Read a number, least significant byte first.
pub fn read_le(bytes: &[u8]) -> (value: u128)
    requires
        bytes@.len() <= 16,
    ensures
        value == le_value(bytes@),
        value < byte_range(bytes@.len()),
{
    let mut value: u128 = 0;
    let mut i: usize = bytes.len();
    let ghost back = bytes@.reverse();
    assert(back.take(0) =~= Seq::<u8>::empty());
    while i > 0
        invariant
            i <= bytes@.len() <= 16,
            back == bytes@.reverse(),
            value == be_value(back.take(bytes@.len() - i)),
        decreases i,
    {
        let ghost done = bytes@.len() - i;
        proof {
            lemma_be_value(back.take(done));
            lemma_byte_range_grows(done as nat, 15);
            reveal_with_fuel(byte_range, 17);
            assert(back.take(done + 1).drop_last() =~= back.take(done));
            assert(back[done] == bytes@[i - 1]);
        }
        i = i - 1;
        value = value * 256 + bytes[i] as u128;
    }
    proof {
        assert(back.take(bytes@.len() as int) =~= back);
        lemma_be_value(back);
    }
    value
}

} // verus!
