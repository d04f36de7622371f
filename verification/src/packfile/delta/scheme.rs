//! Which delta stands for one object against another.
//!
//! The base is cut into aligned blocks, which are indexed by a hash. A window
//! slides over the target; where its hash names blocks of the base, the
//! longest run that one of them starts is copied, and what lies between two
//! copies goes out literally.

use vstd::prelude::*;
use vstd::arithmetic::div_mod::lemma_mod_multiples_vanish;
use vstd::arithmetic::power::pow;

use crate::error::Error;
use crate::packfile::delta::{
    applied, copy_offset, copy_size_field, instruction, operand, operand_at, replay, taken,
    MAX_COPY, MAX_INSERT,
};
use crate::packfile::format::MAX_OBJECT_BYTES;
use crate::packfile::varint::{varint_bytes, varint_round_trips};

verus! {

/// Bytes per indexed base block: below this, a match costs more in
/// copy-instruction overhead than it saves.
pub const BLOCK: usize = 16;

/// Cap on how far a hash chain is walked per position; without it, input
/// whose blocks all collide degrades to quadratic.
pub const MAX_CANDIDATES: usize = 64;

/// Multiplier of the window hash.
pub const MULT: u64 = 0x0100_0193;

/// Weight of the byte leaving the rolling window: `MULT` to the power
/// `BLOCK - 1`, in 32 bits.
pub const OUTGOING: u64 = 0xd69d_215b;

/// Chain terminator; no block number reaches it.
pub const NONE: u32 = 0xffff_ffff;

/// The polynomial in [`MULT`] with the bytes of `window` as coefficients, the
/// last byte the constant term.
pub open spec fn window_sum(window: Seq<u8>) -> int
    decreases window.len(),
{
    if window.len() == 0 {
        0
    } else {
        window_sum(window.drop_last()) * MULT + window.last()
    }
}

/// Hash of one window: its polynomial in 32 bits.
pub open spec fn window_hash(window: Seq<u8>) -> u32 {
    (window_sum(window) % 0x1_0000_0000) as u32
}

/// Bucket of a hash, its high bits mixed down first.
pub open spec fn bucket_of(hash: u32, mask: usize) -> usize {
    ((hash ^ (hash >> 13u32)) as usize) & mask
}

/// Smallest power of two times `from` that reaches `blocks`.
pub open spec fn table_len(blocks: nat, from: nat) -> nat
    decreases
            if from >= blocks {
                0
            } else {
                blocks - from
            },
{
    if from >= blocks || from == 0 {
        from
    } else {
        table_len(blocks, 2 * from)
    }
}

/// Block number `b` of `base`.
pub open spec fn block(base: Seq<u8>, b: nat) -> Seq<u8> {
    base.subrange(BLOCK * b, BLOCK * b + BLOCK)
}

/// Bucket that block `b` of `base` falls in.
pub open spec fn slot_of(base: Seq<u8>, b: nat, mask: usize) -> usize {
    bucket_of(window_hash(block(base, b)), mask)
}

/// The last block before `upto` that falls in bucket `slot`.
pub open spec fn last_in(base: Seq<u8>, slot: usize, mask: usize, upto: nat) -> Option<nat>
    decreases upto,
{
    if upto == 0 {
        None
    } else if slot_of(base, (upto - 1) as nat, mask) == slot {
        Some((upto - 1) as nat)
    } else {
        last_in(base, slot, mask, (upto - 1) as nat)
    }
}

/// How a block number, or its absence, is stored in a chain.
pub open spec fn link(b: Option<nat>) -> u32 {
    match b {
        None => NONE,
        Some(b) => b as u32,
    }
}

/// Length of the run from `i` on that the fronts of `a` and `b` share.
pub open spec fn common_prefix_from(a: Seq<u8>, b: Seq<u8>, i: nat) -> nat
    decreases a.len() - i,
{
    if i < a.len() && i < b.len() && a[i as int] == b[i as int] {
        common_prefix_from(a, b, i + 1)
    } else {
        i
    }
}

/// Length of the run from `i` on, counted from the back, that the ends of `a`
/// and `b` share.
pub open spec fn common_suffix_from(a: Seq<u8>, b: Seq<u8>, i: nat) -> nat
    decreases a.len() - i,
{
    if i < a.len() && i < b.len() && a[a.len() - 1 - i] == b[b.len() - 1 - i] {
        common_suffix_from(a, b, i + 1)
    } else {
        i
    }
}

/// A run of the target that the base holds too.
pub struct Run {
    pub start: nat,
    pub base_offset: nat,
    pub len: nat,
}

/// The run through block `b` of the base and position `pos` of the target:
/// forward from both, and backward as far as `pending`.
pub open spec fn run_at(base: Seq<u8>, target: Seq<u8>, pos: nat, pending: nat, b: nat) -> Option<
    Run,
> {
    let offset = BLOCK as nat * b;
    let forward = common_prefix_from(base.skip(offset as int), target.skip(pos as int), 0);
    let backward = common_suffix_from(
        base.take(offset as int),
        target.subrange(pending as int, pos as int),
        0,
    );
    if forward > 0 && forward + backward >= BLOCK {
        Some(
            Run {
                start: (pos - backward) as nat,
                base_offset: (offset - backward) as nat,
                len: forward + backward,
            },
        )
    } else {
        None
    }
}

/// The longer of two runs, the first where they are equal.
pub open spec fn longer(best: Option<Run>, other: Option<Run>) -> Option<Run> {
    match (best, other) {
        (None, _) => other,
        (_, None) => best,
        (Some(a), Some(b)) => if b.len > a.len {
            other
        } else {
            best
        },
    }
}

/// The longest run through `candidate` and the blocks chained behind it, at
/// most `steps` in all.
pub open spec fn longest(
    base: Seq<u8>,
    target: Seq<u8>,
    pos: nat,
    pending: nat,
    mask: usize,
    candidate: Option<nat>,
    steps: nat,
    best: Option<Run>,
) -> Option<Run>
    decreases steps,
{
    match candidate {
        None => best,
        Some(b) => if steps == 0 {
            best
        } else {
            longest(
                base,
                target,
                pos,
                pending,
                mask,
                last_in(base, slot_of(base, b, mask), mask, b),
                (steps - 1) as nat,
                longer(best, run_at(base, target, pos, pending, b)),
            )
        },
    }
}

/// The longest run at or just before `pos` through the blocks of the base that
/// share a bucket with `hash`.
#[verifier::opaque]
pub open spec fn run_under(
    base: Seq<u8>,
    target: Seq<u8>,
    pos: nat,
    pending: nat,
    hash: u32,
) -> Option<Run> {
    let blocks = base.len() / BLOCK as nat;
    if blocks == 0 {
        None
    } else {
        let mask = (table_len(blocks, 1) - 1) as usize;
        longest(
            base,
            target,
            pos,
            pending,
            mask,
            last_in(base, bucket_of(hash, mask), mask, blocks),
            MAX_CANDIDATES as nat,
            None,
        )
    }
}

/// The run that the encoder copies at `pos`, where it finds one.
#[verifier::opaque]
pub open spec fn best_run(base: Seq<u8>, target: Seq<u8>, pos: nat, pending: nat) -> Option<Run> {
    if pos + BLOCK > target.len() {
        None
    } else {
        run_under(
            base,
            target,
            pos,
            pending,
            window_hash(target.subrange(pos as int, pos + BLOCK)),
        )
    }
}

/// Insert instructions for `data`.
pub open spec fn literal(data: Seq<u8>) -> Seq<u8>
    decreases data.len(),
{
    if data.len() == 0 {
        Seq::empty()
    } else if data.len() <= MAX_INSERT {
        seq![data.len() as u8] + data
    } else {
        seq![MAX_INSERT as u8] + data.take(MAX_INSERT as int) + literal(
            data.skip(MAX_INSERT as int),
        )
    }
}

/// An operand byte, left out where it is zero.
pub open spec fn nonzero(byte: nat) -> Seq<u8> {
    if byte == 0 {
        Seq::empty()
    } else {
        seq![byte as u8]
    }
}

/// The flag of an operand byte.
pub open spec fn flag(byte: nat) -> u8 {
    if byte == 0 {
        0
    } else {
        1
    }
}

/// Command byte of the copy instruction for `size` bytes from `offset`.
#[verifier::opaque]
pub open spec fn copy_command(offset: nat, size: nat) -> u8 {
    (0x80 + flag(offset % 256) + 2 * flag(offset / 0x100 % 256) + 4 * flag(offset / 0x1_0000 % 256)
        + 8 * flag(offset / 0x100_0000 % 256) + 0x10 * flag(size % 256) + 0x20 * flag(
        size / 0x100 % 256,
    ) + 0x40 * flag(size / 0x1_0000 % 256)) as u8
}

/// The copy instruction for `size` bytes from `offset`.
#[verifier::opaque]
pub open spec fn copy_instruction(offset: nat, size: nat) -> Seq<u8> {
    seq![copy_command(offset, size)] + nonzero(offset % 256) + nonzero(offset / 0x100 % 256)
        + nonzero(offset / 0x1_0000 % 256) + nonzero(offset / 0x100_0000 % 256) + nonzero(
        size % 256,
    ) + nonzero(size / 0x100 % 256) + nonzero(size / 0x1_0000 % 256)
}

/// Copy instructions for `len` bytes from `offset`.
pub open spec fn copies(offset: nat, len: nat) -> Seq<u8>
    decreases len,
{
    if len == 0 {
        Seq::empty()
    } else if len <= MAX_COPY {
        copy_instruction(offset, len)
    } else {
        copy_instruction(offset, MAX_COPY as nat) + copies(
            offset + MAX_COPY as nat,
            (len - MAX_COPY) as nat,
        )
    }
}

/// Instructions for what follows `pending` in `target`, where nothing before
/// `pos` starts a copy.
pub open spec fn instructions(base: Seq<u8>, target: Seq<u8>, pos: nat, pending: nat) -> Seq<u8>
    decreases
            if pos >= target.len() {
                0
            } else {
                target.len() - pos
            },
{
    if pos >= target.len() {
        literal(target.skip(pending as int))
    } else {
        match best_run(base, target, pos, pending) {
            None => instructions(base, target, pos + 1, pending),
            Some(run) => if run.start + run.len > pos {
                literal(target.subrange(pending as int, run.start as int)) + copies(
                    run.base_offset,
                    run.len,
                ) + instructions(base, target, run.start + run.len, run.start + run.len)
            } else {
                Seq::empty()
            },
        }
    }
}

/// The delta that turns `base` into `target`.
pub open spec fn delta_of(base: Seq<u8>, target: Seq<u8>) -> Seq<u8> {
    varint_bytes(base.len()) + varint_bytes(target.len()) + instructions(base, target, 0, 0)
}

proof fn lemma_prefix(a: Seq<u8>, b: Seq<u8>, i: nat)
    requires
        i <= a.len(),
        i <= b.len(),
        a.take(i as int) == b.take(i as int),
    ensures
        i <= common_prefix_from(a, b, i),
        common_prefix_from(a, b, i) <= a.len(),
        common_prefix_from(a, b, i) <= b.len(),
        a.take(common_prefix_from(a, b, i) as int) == b.take(common_prefix_from(a, b, i) as int),
    decreases a.len() - i,
{
    if i < a.len() && i < b.len() && a[i as int] == b[i as int] {
        assert(a.take(i as int + 1) =~= a.take(i as int).push(a[i as int]));
        assert(b.take(i as int + 1) =~= b.take(i as int).push(b[i as int]));
        lemma_prefix(a, b, i + 1);
    }
}

proof fn lemma_suffix(a: Seq<u8>, b: Seq<u8>, i: nat)
    requires
        i <= a.len(),
        i <= b.len(),
        a.skip(a.len() - i) == b.skip(b.len() - i),
    ensures
        i <= common_suffix_from(a, b, i),
        common_suffix_from(a, b, i) <= a.len(),
        common_suffix_from(a, b, i) <= b.len(),
        a.skip(a.len() - common_suffix_from(a, b, i)) == b.skip(
            b.len() - common_suffix_from(a, b, i),
        ),
    decreases a.len() - i,
{
    if i < a.len() && i < b.len() && a[a.len() - 1 - i] == b[b.len() - 1 - i] {
        assert(a.skip(a.len() - 1 - i) =~= seq![a[a.len() - 1 - i]] + a.skip(a.len() - i));
        assert(b.skip(b.len() - 1 - i) =~= seq![b[b.len() - 1 - i]] + b.skip(b.len() - i));
        lemma_suffix(a, b, i + 1);
    }
}

/// What holds of a run that may be copied: it covers `pos`, starts no earlier
/// than `pending`, is worth a copy, and the base holds the same bytes.
pub open spec fn run_is_sound(
    base: Seq<u8>,
    target: Seq<u8>,
    pos: nat,
    pending: nat,
    run: Run,
) -> bool {
    &&& pending <= run.start <= pos < run.start + run.len <= target.len()
    &&& run.len >= BLOCK
    &&& run.base_offset + run.len <= base.len()
    &&& target.subrange(run.start as int, (run.start + run.len) as int) == base.subrange(
        run.base_offset as int,
        (run.base_offset + run.len) as int,
    )
}

proof fn lemma_run_at(base: Seq<u8>, target: Seq<u8>, pos: nat, pending: nat, b: nat)
    requires
        pending <= pos <= target.len(),
        BLOCK * b <= base.len(),
    ensures
        run_at(base, target, pos, pending, b) matches Some(run) ==> run_is_sound(
            base,
            target,
            pos,
            pending,
            run,
        ),
{
    let offset = BLOCK as int * b;
    let ahead = base.skip(offset);
    let there = target.skip(pos as int);
    let upto = base.take(offset);
    let behind = target.subrange(pending as int, pos as int);
    assert(ahead.take(0) =~= there.take(0));
    lemma_prefix(ahead, there, 0);
    assert(upto.skip(upto.len() as int) =~= behind.skip(behind.len() as int));
    lemma_suffix(upto, behind, 0);
    let f = common_prefix_from(ahead, there, 0) as int;
    let k = common_suffix_from(upto, behind, 0) as int;
    assert(upto.skip(upto.len() - k) =~= base.subrange(offset - k, offset));
    assert(behind.skip(behind.len() - k) =~= target.subrange(pos - k, pos as int));
    assert(ahead.take(f) =~= base.subrange(offset, offset + f));
    assert(there.take(f) =~= target.subrange(pos as int, pos + f));
    assert(target.subrange(pos - k, pos + f) =~= target.subrange(pos - k, pos as int)
        + target.subrange(pos as int, pos + f));
    assert(base.subrange(offset - k, offset + f) =~= base.subrange(offset - k, offset)
        + base.subrange(offset, offset + f));
}

pub(crate) proof fn lemma_last_in(base: Seq<u8>, slot: usize, mask: usize, upto: nat)
    ensures
        last_in(base, slot, mask, upto) matches Some(b) ==> b < upto && slot_of(base, b, mask)
            == slot,
    decreases upto,
{
    if upto > 0 {
        lemma_last_in(base, slot, mask, (upto - 1) as nat);
    }
}

proof fn lemma_longest(
    base: Seq<u8>,
    target: Seq<u8>,
    pos: nat,
    pending: nat,
    mask: usize,
    candidate: Option<nat>,
    steps: nat,
    best: Option<Run>,
)
    requires
        pending <= pos <= target.len(),
        candidate matches Some(b) ==> b < base.len() / BLOCK as nat,
        best matches Some(run) ==> run_is_sound(base, target, pos, pending, run),
    ensures
        longest(base, target, pos, pending, mask, candidate, steps, best) matches Some(run)
            ==> run_is_sound(base, target, pos, pending, run),
    decreases steps,
{
    if let Some(b) = candidate {
        if steps > 0 {
            lemma_run_at(base, target, pos, pending, b);
            lemma_last_in(base, slot_of(base, b, mask), mask, b);
            lemma_longest(
                base,
                target,
                pos,
                pending,
                mask,
                last_in(base, slot_of(base, b, mask), mask, b),
                (steps - 1) as nat,
                longer(best, run_at(base, target, pos, pending, b)),
            );
        }
    }
}

/// Whatever the hash, a run that is found may be copied.
pub(crate) proof fn lemma_run_under(
    base: Seq<u8>,
    target: Seq<u8>,
    pos: nat,
    pending: nat,
    hash: u32,
)
    requires
        pending <= pos <= target.len(),
    ensures
        run_under(base, target, pos, pending, hash) matches Some(run) ==> run_is_sound(
            base,
            target,
            pos,
            pending,
            run,
        ),
{
    reveal(run_under);
    let blocks = base.len() / BLOCK as nat;
    if blocks != 0 {
        let mask = (table_len(blocks, 1) - 1) as usize;
        lemma_last_in(base, bucket_of(hash, mask), mask, blocks);
        lemma_longest(
            base,
            target,
            pos,
            pending,
            mask,
            last_in(base, bucket_of(hash, mask), mask, blocks),
            MAX_CANDIDATES as nat,
            None,
        );
    }
}

/// Every run that the encoder copies is sound.
pub(crate) proof fn lemma_best_run(base: Seq<u8>, target: Seq<u8>, pos: nat, pending: nat)
    requires
        pending <= pos <= target.len(),
    ensures
        best_run(base, target, pos, pending) matches Some(run) ==> run_is_sound(
            base,
            target,
            pos,
            pending,
            run,
        ),
{
    reveal(best_run);
    if pos + BLOCK <= target.len() {
        lemma_run_under(
            base,
            target,
            pos,
            pending,
            window_hash(target.subrange(pos as int, pos + BLOCK)),
        );
    }
}

proof fn lemma_flags(f0: u8, f1: u8, f2: u8, f3: u8, f4: u8, f5: u8, f6: u8)
    by (bit_vector)
    requires
        f0 <= 1,
        f1 <= 1,
        f2 <= 1,
        f3 <= 1,
        f4 <= 1,
        f5 <= 1,
        f6 <= 1,
    ensures
        ((0x80 + f0 + 2 * f1 + 4 * f2 + 8 * f3 + 0x10 * f4 + 0x20 * f5 + 0x40 * f6) as u8) & 0x80
            != 0,
        (((0x80 + f0 + 2 * f1 + 4 * f2 + 8 * f3 + 0x10 * f4 + 0x20 * f5 + 0x40 * f6) as u8) & 0x01
            != 0) == (f0 == 1),
        (((0x80 + f0 + 2 * f1 + 4 * f2 + 8 * f3 + 0x10 * f4 + 0x20 * f5 + 0x40 * f6) as u8) & 0x02
            != 0) == (f1 == 1),
        (((0x80 + f0 + 2 * f1 + 4 * f2 + 8 * f3 + 0x10 * f4 + 0x20 * f5 + 0x40 * f6) as u8) & 0x04
            != 0) == (f2 == 1),
        (((0x80 + f0 + 2 * f1 + 4 * f2 + 8 * f3 + 0x10 * f4 + 0x20 * f5 + 0x40 * f6) as u8) & 0x08
            != 0) == (f3 == 1),
        (((0x80 + f0 + 2 * f1 + 4 * f2 + 8 * f3 + 0x10 * f4 + 0x20 * f5 + 0x40 * f6) as u8) & 0x10
            != 0) == (f4 == 1),
        (((0x80 + f0 + 2 * f1 + 4 * f2 + 8 * f3 + 0x10 * f4 + 0x20 * f5 + 0x40 * f6) as u8) & 0x20
            != 0) == (f5 == 1),
        (((0x80 + f0 + 2 * f1 + 4 * f2 + 8 * f3 + 0x10 * f4 + 0x20 * f5 + 0x40 * f6) as u8) & 0x40
            != 0) == (f6 == 1),
{
}

/// Where `whole` starts with `front` and then the operand `byte`, that operand
/// stands right behind `front`.
proof fn lemma_operand(whole: Seq<u8>, front: Seq<u8>, byte: nat)
    requires
        byte < 256,
        (front + nonzero(byte)).len() <= whole.len(),
        forall|i: int|
            0 <= i < (front + nonzero(byte)).len() ==> #[trigger] whole[i] == (front + nonzero(
                byte,
            ))[i],
    ensures
        forall|i: int| 0 <= i < front.len() ==> #[trigger] whole[i] == front[i],
        operand(whole, byte != 0, front.len()) == byte,
        (front + nonzero(byte)).len() == front.len() + taken(byte != 0),
{
    assert forall|i: int| 0 <= i < front.len() implies #[trigger] whole[i] == front[i] by {
        assert(whole[i] == (front + nonzero(byte))[i]);
    }
    if byte != 0 {
        let i = front.len() as int;
        assert(whole[i] == (front + nonzero(byte))[i]);
    }
}

/// Each flag of a copy command says whether its operand byte is there.
proof fn lemma_copy_command(offset: nat, size: nat)
    ensures
        copy_command(offset, size) & 0x80 != 0,
        (copy_command(offset, size) & 0x01 != 0) == (offset % 256 != 0),
        (copy_command(offset, size) & 0x02 != 0) == (offset / 0x100 % 256 != 0),
        (copy_command(offset, size) & 0x04 != 0) == (offset / 0x1_0000 % 256 != 0),
        (copy_command(offset, size) & 0x08 != 0) == (offset / 0x100_0000 % 256 != 0),
        (copy_command(offset, size) & 0x10 != 0) == (size % 256 != 0),
        (copy_command(offset, size) & 0x20 != 0) == (size / 0x100 % 256 != 0),
        (copy_command(offset, size) & 0x40 != 0) == (size / 0x1_0000 % 256 != 0),
{
    reveal(copy_command);
    lemma_flags(
        flag(offset % 256),
        flag(offset / 0x100 % 256),
        flag(offset / 0x1_0000 % 256),
        flag(offset / 0x100_0000 % 256),
        flag(size % 256),
        flag(size / 0x100 % 256),
        flag(size / 0x1_0000 % 256),
    );
}

#[verifier::spinoff_prover]
proof fn lemma_four_bytes(x: nat)
    requires
        x <= u32::MAX,
    ensures
        x == x % 256 + 0x100 * (x / 0x100 % 256) + 0x1_0000 * (x / 0x1_0000 % 256) + 0x100_0000 * (x
            / 0x100_0000 % 256),
        x <= 0xff_ffff ==> x / 0x100_0000 == 0,
{
    let y = x / 0x100;
    let z = y / 0x100;
    let w = z / 0x100;
    assert(x == 0x100 * y + x % 256);
    assert(y == 0x100 * z + y % 256);
    assert(z == 0x100 * w + z % 256);
    assert(x / 0x1_0000 == z) by {
        assert(x == 0x1_0000 * z + (0x100 * (y % 256) + x % 256));
    }
    assert(x / 0x100_0000 == w) by {
        assert(x == 0x100_0000 * w + (0x1_0000 * (z % 256) + 0x100 * (y % 256) + x % 256));
    }
    assert(w < 256);
}

/// A copy instruction reads back as the copy it stands for, whatever follows.
proof fn lemma_copy_instruction(base: Seq<u8>, offset: nat, size: nat, rest: Seq<u8>)
    requires
        offset <= u32::MAX,
        0 < size <= MAX_COPY,
        offset + size <= base.len(),
    ensures
        instruction(base, copy_instruction(offset, size) + rest) == Ok::<(Seq<u8>, nat), Error>(
            (
                base.subrange(offset as int, (offset + size) as int),
                copy_instruction(offset, size).len(),
            ),
        ),
        copy_instruction(offset, size).len() >= 1,
{
    let (b0, b1, b2, b3) = (
        offset % 256,
        offset / 0x100 % 256,
        offset / 0x1_0000 % 256,
        offset / 0x100_0000 % 256,
    );
    let (c0, c1, c2) = (size % 256, size / 0x100 % 256, size / 0x1_0000 % 256);
    let cmd = copy_command(offset, size);
    lemma_copy_command(offset, size);
    lemma_four_bytes(offset);
    lemma_four_bytes(size);
    let ins = copy_instruction(offset, size) + rest;
    let q0 = seq![cmd];
    let q1 = q0 + nonzero(b0);
    let q2 = q1 + nonzero(b1);
    let q3 = q2 + nonzero(b2);
    let q4 = q3 + nonzero(b3);
    let q5 = q4 + nonzero(c0);
    let q6 = q5 + nonzero(c1);
    let q7 = q6 + nonzero(c2);
    assert(copy_instruction(offset, size) == q7) by {
        reveal(copy_instruction);
    }
    assert forall|i: int| 0 <= i < q7.len() implies #[trigger] ins[i] == q7[i] by {}
    lemma_operand(ins, q6, c2);
    lemma_operand(ins, q5, c1);
    lemma_operand(ins, q4, c0);
    lemma_operand(ins, q3, b3);
    lemma_operand(ins, q2, b2);
    lemma_operand(ins, q1, b1);
    lemma_operand(ins, q0, b0);
    assert(ins[0] == cmd);
    reveal(operand_at);
    assert(q1.len() == operand_at(cmd, 1));
    assert(q2.len() == operand_at(cmd, 2));
    assert(q3.len() == operand_at(cmd, 3));
    assert(q4.len() == operand_at(cmd, 4));
    assert(q5.len() == operand_at(cmd, 5));
    assert(q6.len() == operand_at(cmd, 6));
    assert(q7.len() == operand_at(cmd, 7));
    assert(copy_offset(ins) == offset) by {
        reveal(copy_offset);
    }
    assert(copy_size_field(ins) == size) by {
        reveal(copy_size_field);
    }
}

/// The copies for a run replay as that run, followed by what `rest` replays as.
proof fn lemma_copies(base: Seq<u8>, offset: nat, len: nat, rest: Seq<u8>, out: Seq<u8>)
    requires
        offset + len <= u32::MAX,
        offset + len <= base.len(),
        replay(base, rest, out.len()) == Ok::<Seq<u8>, Error>(out),
    ensures
        replay(base, copies(offset, len) + rest, len + out.len()) == Ok::<Seq<u8>, Error>(
            base.subrange(offset as int, (offset + len) as int) + out,
        ),
    decreases len,
{
    if len == 0 {
        assert(copies(offset, len) + rest =~= rest);
        assert(base.subrange(offset as int, offset as int) + out =~= out);
    } else {
        let n = if len <= MAX_COPY {
            len
        } else {
            MAX_COPY as nat
        };
        let tail = copies(offset + n, (len - n) as nat) + rest;
        lemma_copies(base, offset + n, (len - n) as nat, rest, out);
        lemma_copy_instruction(base, offset, n, tail);
        let ins = copies(offset, len) + rest;
        assert(ins =~= copy_instruction(offset, n) + tail);
        assert(ins.skip(copy_instruction(offset, n).len() as int) =~= tail);
        assert(base.subrange(offset as int, (offset + len) as int) + out =~= base.subrange(
            offset as int,
            (offset + n) as int,
        ) + (base.subrange((offset + n) as int, (offset + len) as int) + out));
    }
}

proof fn lemma_insert_command(n: u8)
    by (bit_vector)
    requires
        n <= 0x7f,
    ensures
        n & 0x80 == 0,
{
}

/// The inserts for `data` replay as `data`, followed by what `rest` replays as.
proof fn lemma_literal(base: Seq<u8>, data: Seq<u8>, rest: Seq<u8>, out: Seq<u8>)
    requires
        replay(base, rest, out.len()) == Ok::<Seq<u8>, Error>(out),
    ensures
        replay(base, literal(data) + rest, data.len() + out.len()) == Ok::<Seq<u8>, Error>(
            data + out,
        ),
    decreases data.len(),
{
    if data.len() == 0 {
        assert(literal(data) + rest =~= rest);
        assert(data + out =~= out);
    } else {
        let n = if data.len() <= MAX_INSERT {
            data.len()
        } else {
            MAX_INSERT as nat
        };
        let tail = literal(data.skip(n as int)) + rest;
        lemma_literal(base, data.skip(n as int), rest, out);
        lemma_insert_command(n as u8);
        let ins = literal(data) + rest;
        assert(ins =~= seq![n as u8] + data.take(n as int) + tail);
        assert(ins.subrange(1, 1 + n as int) =~= data.take(n as int));
        assert(ins.skip(1 + n as int) =~= tail);
        assert(data + out =~= data.take(n as int) + (data.skip(n as int) + out));
    }
}

proof fn lemma_instructions(base: Seq<u8>, target: Seq<u8>, pos: nat, pending: nat)
    requires
        pending <= pos <= target.len(),
        base.len() <= MAX_OBJECT_BYTES,
    ensures
        replay(base, instructions(base, target, pos, pending), (target.len() - pending) as nat)
            == Ok::<Seq<u8>, Error>(target.skip(pending as int)),
    decreases target.len() - pos,
{
    if pos >= target.len() {
        let data = target.skip(pending as int);
        lemma_literal(base, data, Seq::empty(), Seq::empty());
        assert(literal(data) + Seq::<u8>::empty() =~= literal(data));
        assert(data + Seq::<u8>::empty() =~= data);
    } else {
        lemma_best_run(base, target, pos, pending);
        match best_run(base, target, pos, pending) {
            None => {
                lemma_instructions(base, target, pos + 1, pending);
            },
            Some(run) => {
                let end = run.start + run.len;
                let rest = instructions(base, target, end, end);
                let out = target.skip(end as int);
                lemma_instructions(base, target, end, end);
                lemma_copies(base, run.base_offset, run.len, rest, out);
                let copied = copies(run.base_offset, run.len) + rest;
                let moved = base.subrange(
                    run.base_offset as int,
                    (run.base_offset + run.len) as int,
                ) + out;
                let data = target.subrange(pending as int, run.start as int);
                lemma_literal(base, data, copied, moved);
                assert(instructions(base, target, pos, pending) =~= literal(data) + copied);
                assert(data + moved =~= target.skip(pending as int));
            },
        }
    }
}

/// Applying the delta of two objects to the first gives back the second.
pub proof fn delta_round_trips(base: Seq<u8>, target: Seq<u8>)
    requires
        base.len() <= MAX_OBJECT_BYTES,
        target.len() <= MAX_OBJECT_BYTES,
    ensures
        applied(base, delta_of(base, target)) == Ok::<Seq<u8>, Error>(target),
{
    let ins = instructions(base, target, 0, 0);
    let first = varint_bytes(base.len());
    let second = varint_bytes(target.len());
    let delta = delta_of(base, target);
    varint_round_trips(base.len() as u64, second + ins);
    varint_round_trips(target.len() as u64, ins);
    assert(delta =~= first + (second + ins));
    assert(delta.skip(first.len() as int) =~= second + ins);
    assert((second + ins).skip(second.len() as int) =~= ins);
    lemma_instructions(base, target, 0, 0);
    assert(target.skip(0) =~= target);
}

/// One operation of a delta.
pub enum Op {
    /// Copy `size` bytes of the base from `offset`; a minimal one leaves zero
    /// operand bytes out.
    Copy { offset: nat, size: nat, minimal: bool },
    /// Insert these bytes.
    Insert(Seq<u8>),
}

impl Op {
    /// Whether an instruction can carry the operation out over `base`.
    pub open spec fn is_valid(self, base: Seq<u8>) -> bool {
        match self {
            Op::Copy { offset, size, .. } => {
                &&& offset <= u32::MAX
                &&& 0 < size <= MAX_COPY
                &&& offset + size <= base.len()
            },
            Op::Insert(data) => 0 < data.len() <= MAX_INSERT,
        }
    }

    /// The bytes that the operation produces.
    pub open spec fn output(self, base: Seq<u8>) -> Seq<u8> {
        match self {
            Op::Copy { offset, size, .. } => base.subrange(offset as int, (offset + size) as int),
            Op::Insert(data) => data,
        }
    }

    /// The instruction that stands for the operation.
    pub open spec fn encoded(self) -> Seq<u8> {
        match self {
            Op::Copy { offset, size, minimal } => if minimal {
                copy_instruction(offset, size)
            } else {
                seq![
                    0xffu8,
                    (offset % 256) as u8,
                    (offset / 0x100 % 256) as u8,
                    (offset / 0x1_0000 % 256) as u8,
                    (offset / 0x100_0000 % 256) as u8,
                    (size % 256) as u8,
                    (size / 0x100 % 256) as u8,
                    (size / 0x1_0000 % 256) as u8,
                ]
            },
            Op::Insert(data) => seq![data.len() as u8] + data,
        }
    }
}

/// What a run of operations produces.
pub open spec fn outputs(base: Seq<u8>, ops: Seq<Op>) -> Seq<u8>
    decreases ops.len(),
{
    if ops.len() == 0 {
        Seq::empty()
    } else {
        ops[0].output(base) + outputs(base, ops.skip(1))
    }
}

/// The instructions for a run of operations.
pub open spec fn encodings(ops: Seq<Op>) -> Seq<u8>
    decreases ops.len(),
{
    if ops.len() == 0 {
        Seq::empty()
    } else {
        ops[0].encoded() + encodings(ops.skip(1))
    }
}

proof fn lemma_all_flags()
    ensures
        0xffu8 & 0x80 != 0,
        0xffu8 & 0x01 != 0,
        0xffu8 & 0x02 != 0,
        0xffu8 & 0x04 != 0,
        0xffu8 & 0x08 != 0,
        0xffu8 & 0x10 != 0,
        0xffu8 & 0x20 != 0,
        0xffu8 & 0x40 != 0,
{
    lemma_flags(1, 1, 1, 1, 1, 1, 1);
}

proof fn lemma_op(base: Seq<u8>, op: Op, rest: Seq<u8>)
    requires
        op.is_valid(base),
    ensures
        instruction(base, op.encoded() + rest) == Ok::<(Seq<u8>, nat), Error>(
            (op.output(base), op.encoded().len()),
        ),
        op.encoded().len() > 0,
{
    let ins = op.encoded() + rest;
    match op {
        Op::Copy { offset, size, minimal } => {
            if minimal {
                lemma_copy_instruction(base, offset, size, rest);
            } else {
                lemma_all_flags();
                lemma_four_bytes(offset);
                lemma_four_bytes(size);
                assert(ins[0] == 0xffu8);
                assert(operand_at(0xffu8, 7) == 8) by {
                    reveal(operand_at);
                }
                assert(copy_offset(ins) == offset) by {
                    reveal(operand_at);
                    reveal(copy_offset);
                }
                assert(copy_size_field(ins) == size) by {
                    reveal(operand_at);
                    reveal(copy_size_field);
                }
            }
        },
        Op::Insert(data) => {
            lemma_insert_command(data.len() as u8);
            assert(ins.subrange(1, 1 + data.len() as int) =~= data);
        },
    }
}

/// A delta made of operations, each copy written in full or minimally, applies
/// as those operations one after the other.
pub proof fn applying_is_replaying(base: Seq<u8>, ops: Seq<Op>)
    requires
        base.len() <= u64::MAX,
        outputs(base, ops).len() <= MAX_OBJECT_BYTES,
        forall|i: int| 0 <= i < ops.len() ==> (#[trigger] ops[i]).is_valid(base),
    ensures
        applied(
            base,
            varint_bytes(base.len()) + varint_bytes(outputs(base, ops).len()) + encodings(ops),
        ) == Ok::<Seq<u8>, Error>(outputs(base, ops)),
{
    let out = outputs(base, ops);
    let ins = encodings(ops);
    let first = varint_bytes(base.len());
    let second = varint_bytes(out.len());
    let delta = first + second + ins;
    varint_round_trips(base.len() as u64, second + ins);
    varint_round_trips(out.len() as u64, ins);
    assert(delta =~= first + (second + ins));
    assert(delta.skip(first.len() as int) =~= second + ins);
    assert((second + ins).skip(second.len() as int) =~= ins);
    lemma_replay_ops(base, ops);
}

proof fn lemma_replay_ops(base: Seq<u8>, ops: Seq<Op>)
    requires
        forall|i: int| 0 <= i < ops.len() ==> (#[trigger] ops[i]).is_valid(base),
    ensures
        replay(base, encodings(ops), outputs(base, ops).len()) == Ok::<Seq<u8>, Error>(
            outputs(base, ops),
        ),
    decreases ops.len(),
{
    if ops.len() > 0 {
        let rest = ops.skip(1);
        lemma_replay_ops(base, rest);
        lemma_op(base, ops[0], encodings(rest));
        let ins = encodings(ops);
        assert(ins.skip(ops[0].encoded().len() as int) =~= encodings(rest));
    }
}

proof fn lemma_window_front(window: Seq<u8>)
    requires
        window.len() > 0,
    ensures
        window_sum(window) == window[0] * pow(MULT as int, (window.len() - 1) as nat)
            + window_sum(window.skip(1)),
    decreases window.len(),
{
    if window.len() == 1 {
        assert(window.drop_last() =~= Seq::<u8>::empty());
        assert(window.skip(1) =~= Seq::<u8>::empty());
        assert(window_sum(window.drop_last()) == 0);
        assert(pow(MULT as int, 0) == 1) by {
            vstd::arithmetic::power::lemma_pow0(MULT as int);
        }
    } else {
        let short = window.drop_last();
        lemma_window_front(short);
        assert(short.skip(1) =~= window.skip(1).drop_last());
        let weight = pow(MULT as int, (short.len() - 1) as nat);
        assert(pow(MULT as int, short.len()) == MULT as int * weight) by {
            reveal(pow);
        }
        assert((window[0] * weight + window_sum(short.skip(1))) * MULT == window[0] * (MULT
            * weight) + window_sum(short.skip(1)) * MULT) by (nonlinear_arith);
    }
}

#[verifier::spinoff_prover]
proof fn lemma_outgoing_weight()
    ensures
        pow(MULT as int, 15) % 0x1_0000_0000 == OUTGOING,
{
    reveal_with_fuel(pow, 16);
}

/// The hash of a window moved on by one byte.
pub open spec fn rolled(hash: u32, outgoing: u8, incoming: u8) -> u32 {
    (((hash - outgoing * OUTGOING) * MULT + incoming) % 0x1_0000_0000) as u32
}

/// Rolling a window's hash gives the hash of the window moved on by one byte.
pub proof fn rolling_is_rehashing(window: Seq<u8>, incoming: u8)
    requires
        window.len() == BLOCK,
    ensures
        rolled(window_hash(window), window[0], incoming) == window_hash(
            window.skip(1).push(incoming),
        ),
{
    let m = 0x1_0000_0000int;
    let sum = window_sum(window);
    let moved = window.skip(1).push(incoming);
    let weight = pow(MULT as int, 15);
    lemma_window_front(window);
    assert(moved.drop_last() =~= window.skip(1));
    lemma_outgoing_weight();
    let q = sum / m;
    let p = weight / m;
    let out = window[0] as int;
    let hash = sum % m;
    assert(sum == hash + m * q);
    assert(weight == OUTGOING + m * p);
    let kept = (hash - out * OUTGOING) * MULT + incoming;
    assert(window_sum(moved) == (sum - out * weight) * MULT + incoming);
    assert(window_sum(moved) == m * ((q - out * p) * MULT) + kept) by (nonlinear_arith)
        requires
            window_sum(moved) == (sum - out * weight) * MULT + incoming,
            sum == hash + m * q,
            weight == OUTGOING + m * p,
            kept == (hash - out * OUTGOING) * MULT + incoming,
    ;
    lemma_mod_multiples_vanish((q - out * p) * MULT, kept, m);
}

} // verus!
