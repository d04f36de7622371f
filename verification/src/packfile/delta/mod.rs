//! Git delta encoding and decoding.
//!
//! Stream layout: `[base_size: varint][result_size: varint][instruction...]`.
//! Each instruction is one of
//! - **copy** (`0x80` set): flag bits `0x01..0x08` select which of four
//!   little-endian offset bytes follow, `0x10..0x40` which of three size bytes;
//!   an absent byte is zero, and a size of zero means `0x10000`.
//! - **insert** (`0x80` clear, non-zero): that many literal bytes follow.
//! - `0x00`: reserved, rejected.
//!
//! What an instruction stream means is stated here once, over byte sequences;
//! the decoder and the encoder are both held to it.

pub mod apply;
pub mod encode;
pub mod scheme;

use vstd::prelude::*;

use crate::error::Error;
use crate::packfile::format::MAX_OBJECT_BYTES;
use crate::packfile::varint::varint;

verus! {

/// Longest run one copy instruction can encode: the size field is three
/// bytes, and zero is reserved for `0x10000`.
pub const MAX_COPY: usize = 0x00ff_ffff;

/// Longest run one insert instruction can encode, clear of the `0x80` copy
/// bit it shares the command byte with.
pub const MAX_INSERT: usize = 0x7f;

/// One for an operand byte that is there, zero for one that is not.
pub open spec fn taken(present: bool) -> nat {
    if present {
        1
    } else {
        0
    }
}

/// Where the operand selected by each flag of the command `cmd` stands; the
/// last entry is the length of the whole instruction.
#[verifier::opaque]
pub open spec fn operand_at(cmd: u8, operand: u8) -> nat {
    let p0 = 1nat;
    let p1 = p0 + taken(cmd & 0x01 != 0);
    let p2 = p1 + taken(cmd & 0x02 != 0);
    let p3 = p2 + taken(cmd & 0x04 != 0);
    let p4 = p3 + taken(cmd & 0x08 != 0);
    let p5 = p4 + taken(cmd & 0x10 != 0);
    let p6 = p5 + taken(cmd & 0x20 != 0);
    let p7 = p6 + taken(cmd & 0x40 != 0);
    match operand {
        0 => p0,
        1 => p1,
        2 => p2,
        3 => p3,
        4 => p4,
        5 => p5,
        6 => p6,
        _ => p7,
    }
}

/// The operand byte at `at`, or zero where its flag is not set.
pub open spec fn operand(ins: Seq<u8>, present: bool, at: nat) -> nat {
    if present {
        ins[at as int] as nat
    } else {
        0
    }
}

/// Offset that the copy instruction at the front of `ins` names.
#[verifier::opaque]
pub open spec fn copy_offset(ins: Seq<u8>) -> nat {
    let cmd = ins[0];
    operand(ins, cmd & 0x01 != 0, operand_at(cmd, 0)) + 0x100 * operand(
        ins,
        cmd & 0x02 != 0,
        operand_at(cmd, 1),
    ) + 0x1_0000 * operand(ins, cmd & 0x04 != 0, operand_at(cmd, 2)) + 0x100_0000 * operand(
        ins,
        cmd & 0x08 != 0,
        operand_at(cmd, 3),
    )
}

/// Size that the copy instruction at the front of `ins` names, before the rule
/// for zero.
#[verifier::opaque]
pub open spec fn copy_size_field(ins: Seq<u8>) -> nat {
    let cmd = ins[0];
    operand(ins, cmd & 0x10 != 0, operand_at(cmd, 4)) + 0x100 * operand(
        ins,
        cmd & 0x20 != 0,
        operand_at(cmd, 5),
    ) + 0x1_0000 * operand(ins, cmd & 0x40 != 0, operand_at(cmd, 6))
}

/// How many bytes the copy instruction at the front of `ins` copies.
pub open spec fn copy_size(ins: Seq<u8>) -> nat {
    if copy_size_field(ins) == 0 {
        0x1_0000
    } else {
        copy_size_field(ins)
    }
}

/// What the instruction at the front of `ins` produces over `base`, and how
/// many bytes of `ins` it takes.
pub open spec fn instruction(base: Seq<u8>, ins: Seq<u8>) -> Result<(Seq<u8>, nat), Error> {
    let cmd = ins[0];
    if cmd & 0x80 != 0 {
        let end = copy_offset(ins) + copy_size(ins);
        if operand_at(cmd, 7) > ins.len() {
            Err(Error::DeltaCopyTruncated)
        } else if end > base.len() {
            Err(Error::DeltaCopyRange)
        } else {
            Ok((base.subrange(copy_offset(ins) as int, end as int), operand_at(cmd, 7)))
        }
    } else if cmd == 0 {
        Err(Error::DeltaCommandZero)
    } else if 1 + cmd > ins.len() {
        Err(Error::DeltaInsertTruncated)
    } else {
        Ok((ins.subrange(1, 1 + cmd), 1 + cmd as nat))
    }
}

/// What the instructions `ins` produce over `base`, where exactly `promised`
/// bytes are to come out.
pub open spec fn replay(base: Seq<u8>, ins: Seq<u8>, promised: nat) -> Result<Seq<u8>, Error>
    decreases ins.len(),
{
    if ins.len() == 0 {
        if promised == 0 {
            Ok(Seq::empty())
        } else {
            Err(Error::DeltaResultTooShort)
        }
    } else {
        match instruction(base, ins) {
            Err(e) => Err(e),
            Ok((bytes, n)) => if bytes.len() > promised {
                Err(Error::DeltaResultOverflow)
            } else {
                proof {
                    reveal(operand_at);
                }
                match replay(base, ins.skip(n as int), (promised - bytes.len()) as nat) {
                    Err(e) => Err(e),
                    Ok(rest) => Ok(bytes + rest),
                }
            },
        }
    }
}

/// The object that `delta` stands for over `base`.
pub open spec fn applied(base: Seq<u8>, delta: Seq<u8>) -> Result<Seq<u8>, Error> {
    match varint(delta) {
        Err(e) => Err(e),
        Ok((base_size, n)) => if base_size != base.len() {
            Err(Error::DeltaBaseSize)
        } else {
            let rest = delta.skip(n as int);
            match varint(rest) {
                Err(e) => Err(e),
                Ok((result_size, m)) => if result_size > MAX_OBJECT_BYTES {
                    Err(Error::DeltaResultTooLarge)
                } else {
                    replay(base, rest.skip(m as int), result_size as nat)
                },
            }
        },
    }
}

} // verus!
