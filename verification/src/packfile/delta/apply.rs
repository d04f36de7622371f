//! Applying a delta to its base.

use vstd::prelude::*;
use vstd::slice::slice_subrange;

use crate::bytes::append;
use crate::error::Error;
use crate::packfile::delta::{
    applied, copy_offset, copy_size, copy_size_field, instruction, operand, operand_at, replay,
};
use crate::packfile::format::MAX_OBJECT_BYTES;
use crate::packfile::varint::read_varint;

verus! {

/// A cursor over the operand bytes of one copy instruction.
struct Operands {
    at: usize,
    truncated: bool,
}

impl Operands {
    /// The next operand byte where `present`, zero otherwise.
    fn next(&mut self, ins: &[u8], present: bool) -> (value: u32)
        requires
            old(self).at <= ins@.len(),
        ensures
            final(self).at <= ins@.len(),
            !final(self).truncated ==> !old(self).truncated,
            !final(self).truncated ==> value == operand(ins@, present, old(self).at as nat),
            !final(self).truncated ==> final(self).at == old(self).at + (if present {
                1int
            } else {
                0
            }),
            final(self).truncated ==> old(self).truncated || (present && old(self).at
                == ins@.len()),
            value <= 255,
    {
        if !present {
            return 0;
        }
        if self.at < ins.len() {
            let byte: u8 = ins[self.at];
            self.at = self.at + 1;
            byte as u32
        } else {
            self.truncated = true;
            0
        }
    }
}

/// Offset, size and length of the copy instruction at the front of `ins`.
fn read_copy(ins: &[u8]) -> (r: Result<(u64, u64, usize), Error>)
    requires
        ins@.len() > 0,
    ensures
        match r {
            Ok((offset, size, n)) => {
                &&& operand_at(ins@[0], 7) == n
                &&& 1 <= n <= ins@.len()
                &&& offset == copy_offset(ins@)
                &&& size == copy_size(ins@)
                &&& offset <= u32::MAX
                &&& size <= 0xff_ffff
            },
            Err(e) => e == Error::DeltaCopyTruncated && operand_at(ins@[0], 7) > ins@.len(),
        },
{
    proof {
        reveal(operand_at);
        reveal(copy_offset);
        reveal(copy_size_field);
    }
    let cmd: u8 = ins[0];
    let mut from = Operands { at: 1, truncated: false };
    let o0: u32 = from.next(ins, cmd & 0x01 != 0);
    let o1: u32 = from.next(ins, cmd & 0x02 != 0);
    let o2: u32 = from.next(ins, cmd & 0x04 != 0);
    let o3: u32 = from.next(ins, cmd & 0x08 != 0);
    let s0: u32 = from.next(ins, cmd & 0x10 != 0);
    let s1: u32 = from.next(ins, cmd & 0x20 != 0);
    let s2: u32 = from.next(ins, cmd & 0x40 != 0);
    if from.truncated {
        return Err(Error::DeltaCopyTruncated);
    }
    let offset: u32 = o0 + 0x100 * o1 + 0x1_0000 * o2 + 0x100_0000 * o3;
    let size: u32 = s0 + 0x100 * s1 + 0x1_0000 * s2;
    let size: u32 = if size == 0 {
        0x1_0000
    } else {
        size
    };
    Ok((offset as u64, size as u64, from.at))
}

/// Run the instructions `ins` over `base`, which are to produce exactly
/// `promised` bytes.
fn run(base: &[u8], ins: &[u8], promised: usize) -> (r: Result<Vec<u8>, Error>)
    ensures
        match r {
            Ok(bytes) => replay(base@, ins@, promised as nat) == Ok::<Seq<u8>, Error>(bytes@),
            Err(e) => replay(base@, ins@, promised as nat) == Err::<Seq<u8>, Error>(e),
        },
{
    let mut out: Vec<u8> = Vec::with_capacity(promised);
    let mut i: usize = 0;
    proof {
        assert(ins@.skip(0) =~= ins@);
        assert(forall|tail: Seq<u8>| #![trigger out@ + tail] out@ + tail =~= tail);
    }
    while i < ins.len()
        invariant
            i <= ins@.len(),
            out@.len() <= promised,
            replay(base@, ins@, promised as nat) == (match replay(
                base@,
                ins@.skip(i as int),
                (promised - out@.len()) as nat,
            ) {
                Ok(rest) => Ok::<Seq<u8>, Error>(out@ + rest),
                Err(e) => Err::<Seq<u8>, Error>(e),
            }),
        decreases ins@.len() - i,
    {
        let ghost before = out@;
        let rest = slice_subrange(ins, i, ins.len());
        assert(rest@ =~= ins@.skip(i as int));
        let left: usize = promised - out.len();
        let cmd: u8 = rest[0];
        let n: usize;
        if cmd & 0x80 != 0 {
            match read_copy(rest) {
                Err(e) => {
                    return Err(e);
                },
                Ok((offset, size, len)) => {
                    if offset + size > base.len() as u64 {
                        return Err(Error::DeltaCopyRange);
                    }
                    if size > left as u64 {
                        return Err(Error::DeltaResultOverflow);
                    }
                    append(
                        &mut out,
                        slice_subrange(base, offset as usize, (offset + size) as usize),
                    );
                    n = len;
                },
            }
        } else if cmd == 0 {
            return Err(Error::DeltaCommandZero);
        } else {
            let count: usize = cmd as usize;
            if count > rest.len() - 1 {
                return Err(Error::DeltaInsertTruncated);
            }
            if count > left {
                return Err(Error::DeltaResultOverflow);
            }
            append(&mut out, slice_subrange(rest, 1, 1 + count));
            n = 1 + count;
        }
        proof {
            let (bytes, len) = instruction(base@, rest@)->Ok_0;
            assert(out@ == before + bytes);
            assert(len == n);
            assert(rest@.skip(n as int) =~= ins@.skip(i + n));
            assert(forall|tail: Seq<u8>|
                #![trigger before + (bytes + tail)]
                before + (bytes + tail) =~= (before + bytes) + tail);
        }
        i = i + n;
    }
    proof {
        assert(ins@.skip(i as int).len() == 0);
        assert(out@ + Seq::<u8>::empty() =~= out@);
    }
    if out.len() < promised {
        return Err(Error::DeltaResultTooShort);
    }
    Ok(out)
}

/// Apply git delta instructions to `base`, producing the reconstructed object.
///
/// Fails if the delta is truncated, declares a base size that does not match
/// `base`, copies outside the base, or produces a result of the wrong length.
pub fn apply_delta(base: &[u8], delta: &[u8]) -> (r: Result<Vec<u8>, Error>)
    ensures
        match r {
            Ok(object) => applied(base@, delta@) == Ok::<Seq<u8>, Error>(object@),
            Err(e) => applied(base@, delta@) == Err::<Seq<u8>, Error>(e),
        },
{
    let (base_size, n) = match read_varint(delta) {
        Ok(read) => read,
        Err(e) => {
            return Err(e);
        },
    };
    let rest = slice_subrange(delta, n, delta.len());
    assert(rest@ =~= delta@.skip(n as int));
    if base_size != base.len() as u64 {
        return Err(Error::DeltaBaseSize);
    }
    let (result_size, m) = match read_varint(rest) {
        Ok(read) => read,
        Err(e) => {
            return Err(e);
        },
    };
    if result_size > MAX_OBJECT_BYTES {
        return Err(Error::DeltaResultTooLarge);
    }
    let ins = slice_subrange(rest, m, rest.len());
    assert(ins@ =~= rest@.skip(m as int));
    run(base, ins, result_size as usize)
}

} // verus!
