//! Encoding one object as a delta against another.

use vstd::prelude::*;
use vstd::arithmetic::div_mod::lemma_mod_multiples_vanish;
use vstd::slice::slice_subrange;

use crate::bytes::append;
use crate::error::Error;
use crate::packfile::delta::scheme::{
    best_run, block, bucket_of, common_prefix_from, common_suffix_from, copies, copy_command,
    copy_instruction, delta_of, delta_round_trips, flag, instructions, last_in, lemma_best_run,
    lemma_last_in, lemma_run_under, link, literal, longest, nonzero, rolled, rolling_is_rehashing,
    run_is_sound, run_under, slot_of, table_len, window_hash, window_sum, Run, BLOCK,
    MAX_CANDIDATES, MULT, NONE, OUTGOING,
};
use crate::packfile::delta::{applied, MAX_COPY, MAX_INSERT};
use crate::packfile::format::MAX_OBJECT_BYTES;
use crate::packfile::varint::{varint_bytes, write_varint};

verus! {

/// A run of `target` that reproduces bytes already present in `base`.
pub struct Match {
    pub start: usize,
    pub base_offset: usize,
    pub len: usize,
}

impl Match {
    pub open spec fn run(self) -> Run {
        Run {
            start: self.start as nat,
            base_offset: self.base_offset as nat,
            len: self.len as nat,
        }
    }
}

/// A found match as the run it is.
pub open spec fn found(m: Option<Match>) -> Option<Run> {
    match m {
        None => None,
        Some(m) => Some(m.run()),
    }
}

/// Chained hash table over a base, keyed on the hash of each aligned
/// [`BLOCK`]-byte window.
pub struct BlockIndex {
    /// Bucket heads, as block numbers; [`NONE`] where the bucket is empty.
    head: Vec<u32>,
    /// Next block number in each bucket's chain.
    next: Vec<u32>,
    /// `head.len() - 1`, so bucket selection is a mask rather than a modulo.
    mask: usize,
}

impl BlockIndex {
    /// Each bucket's chain holds the blocks of `base` that fall in it, the last
    /// first.
    pub closed spec fn indexes(self, base: Seq<u8>) -> bool {
        let blocks = base.len() / BLOCK as nat;
        &&& blocks == 0 ==> self.head@.len() == 0
        &&& blocks > 0 ==> {
            &&& self.head@.len() == table_len(blocks, 1)
            &&& self.mask == self.head@.len() - 1
            &&& self.next@.len() == blocks
            &&& forall|slot: int|
                0 <= slot < self.head@.len() ==> #[trigger] self.head@[slot] == link(
                    last_in(base, slot as usize, self.mask, blocks),
                )
            &&& forall|b: int|
                0 <= b < blocks ==> #[trigger] self.next@[b] == link(
                    last_in(base, slot_of(base, b as nat, self.mask), self.mask, b as nat),
                )
        }
    }

    /// Index the blocks of `base`.
    ///
    /// Only aligned windows are indexed: a match found from any of them is then
    /// extended in both directions, so nothing is lost.
    pub fn build(base: &[u8]) -> (index: Self)
        requires
            base@.len() <= MAX_OBJECT_BYTES,
        ensures
            index.indexes(base@),
    {
        let blocks: usize = base.len() / BLOCK;
        if blocks == 0 {
            return BlockIndex { head: Vec::new(), next: Vec::new(), mask: 0 };
        }
        let size: usize = table_size(blocks);
        let mask: usize = size - 1;
        let mut head: Vec<u32> = vec![NONE; size];
        let mut next: Vec<u32> = vec![NONE; blocks];
        let mut number: usize = 0;
        while number < blocks
            invariant
                number <= blocks,
                blocks == base@.len() / BLOCK as nat,
                base@.len() <= MAX_OBJECT_BYTES,
                head@.len() == size,
                next@.len() == blocks,
                mask == size - 1,
                forall|slot: int|
                    0 <= slot < size ==> #[trigger] head@[slot] == link(
                        last_in(base@, slot as usize, mask, number as nat),
                    ),
                forall|b: int|
                    0 <= b < number ==> #[trigger] next@[b] == link(
                        last_in(base@, slot_of(base@, b as nat, mask), mask, b as nat),
                    ),
            decreases blocks - number,
        {
            let window = slice_subrange(base, number * BLOCK, number * BLOCK + BLOCK);
            assert(window@ == block(base@, number as nat));
            let slot: usize = bucket(block_hash(window), mask);
            next.set(number, head[slot]);
            head.set(slot, number as u32);
            number = number + 1;
        }
        BlockIndex { head, next, mask }
    }

    /// Longest run at or just before `pos` that `base` can supply, if it
    /// reaches [`BLOCK`]; backward extension stops at `pending`, already
    /// emitted.
    ///
    /// `hash` only says where to look: whatever it is, what is found is a run
    /// that the base has byte for byte.
    pub fn best_match(
        &self,
        base: &[u8],
        target: &[u8],
        pos: usize,
        pending: usize,
        hash: u32,
    ) -> (best: Option<Match>)
        requires
            self.indexes(base@),
            base@.len() <= MAX_OBJECT_BYTES,
        ensures
            found(best) == if pending <= pos <= target@.len() {
                run_under(base@, target@, pos as nat, pending as nat, hash)
            } else {
                None
            },
            best matches Some(m) ==> run_is_sound(
                base@,
                target@,
                pos as nat,
                pending as nat,
                m.run(),
            ),
    {
        if pos > target.len() || pending > pos {
            return None;
        }
        proof {
            reveal(run_under);
            lemma_run_under(base@, target@, pos as nat, pending as nat, hash);
        }
        let ghost blocks = base@.len() / BLOCK as nat;
        if self.head.len() == 0 {
            assert(blocks == 0) by {
                if blocks > 0 {
                    lemma_table_len(blocks, 1);
                }
            }
            return None;
        }
        let ahead = slice_subrange(target, pos, target.len());
        assert(ahead@ =~= target@.skip(pos as int));
        let behind = slice_subrange(target, pending, pos);
        let slot: usize = bucket(hash, self.mask);
        let mut candidate: u32 = self.head[slot];
        let mut best: Option<Match> = None;
        let mut steps: usize = MAX_CANDIDATES;
        let ghost mut chain = last_in(base@, slot, self.mask, blocks);
        proof {
            lemma_last_in(base@, slot, self.mask, blocks);
        }
        while steps > 0 && candidate != NONE
            invariant
                self.indexes(base@),
                base@.len() <= MAX_OBJECT_BYTES,
                pending <= pos <= target@.len(),
                blocks == base@.len() / BLOCK as nat,
                blocks > 0,
                ahead@ == target@.skip(pos as int),
                behind@ == target@.subrange(pending as int, pos as int),
                candidate == link(chain),
                chain matches Some(b) ==> b < blocks,
                steps <= MAX_CANDIDATES,
                run_under(base@, target@, pos as nat, pending as nat, hash) == longest(
                    base@,
                    target@,
                    pos as nat,
                    pending as nat,
                    self.mask,
                    chain,
                    steps as nat,
                    found(best),
                ),
            decreases steps,
        {
            let number: usize = candidate as usize;
            let offset: usize = number * BLOCK;
            proof {
                assert(chain == Some(number as nat));
                lemma_last_in(
                    base@,
                    slot_of(base@, number as nat, self.mask),
                    self.mask,
                    number as nat,
                );
                chain = last_in(
                    base@,
                    slot_of(base@, number as nat, self.mask),
                    self.mask,
                    number as nat,
                );
            }
            let from = slice_subrange(base, offset, base.len());
            assert(from@ =~= base@.skip(offset as int));
            let upto = slice_subrange(base, 0, offset);
            assert(upto@ =~= base@.take(offset as int));
            // Extending backwards lets a match absorb literals already scanned
            // past.
            let forward: usize = common_prefix(from, ahead);
            let backward: usize = common_suffix(upto, behind);
            let len: usize = forward + backward;
            let longer_found: bool = match &best {
                None => true,
                Some(b) => len > b.len,
            };
            if forward > 0 && len >= BLOCK && longer_found {
                best =
                Some(Match { start: pos - backward, base_offset: offset - backward, len });
            }
            candidate = self.next[number];
            steps = steps - 1;
        }
        best
    }
}

pub(crate) proof fn lemma_table_len(blocks: nat, from: nat)
    requires
        0 < from,
    ensures
        from <= table_len(blocks, from),
        blocks <= table_len(blocks, from),
        from < blocks ==> table_len(blocks, from) < 2 * blocks,
    decreases
            if from >= blocks {
                0
            } else {
                blocks - from
            },
{
    if from < blocks {
        lemma_table_len(blocks, 2 * from);
    }
}

/// Buckets for that many blocks: the next power of two.
fn table_size(blocks: usize) -> (size: usize)
    requires
        0 < blocks <= MAX_OBJECT_BYTES,
    ensures
        size == table_len(blocks as nat, 1),
        size >= 1,
{
    let mut size: usize = 1;
    while size < blocks
        invariant
            0 < size <= 2 * MAX_OBJECT_BYTES,
            blocks <= MAX_OBJECT_BYTES,
            table_len(blocks as nat, size as nat) == table_len(blocks as nat, 1),
        decreases 2 * MAX_OBJECT_BYTES - size,
    {
        size = size * 2;
    }
    size
}

proof fn lemma_masked(x: usize, mask: usize)
    by (bit_vector)
    ensures
        x & mask <= mask,
{
}

/// Bucket for `hash`, mixing the high bits down first: the low bits of a
/// wrapping polynomial hash depend only on the last few bytes of the window.
fn bucket(hash: u32, mask: usize) -> (slot: usize)
    ensures
        slot == bucket_of(hash, mask),
        slot <= mask,
{
    let mixed: u32 = hash ^ (hash >> 13u32);
    proof {
        lemma_masked(mixed as usize, mask);
    }
    (mixed as usize) & mask
}

/// Polynomial hash of one window, matching what [`roll`] maintains.
pub fn block_hash(window: &[u8]) -> (hash: u32)
    ensures
        hash == window_hash(window@),
{
    let mut hash: u64 = 0;
    let mut i: usize = 0;
    assert(window@.take(0) =~= Seq::<u8>::empty());
    while i < window.len()
        invariant
            i <= window@.len(),
            hash == window_sum(window@.take(i as int)) % 0x1_0000_0000,
        decreases window@.len() - i,
    {
        let ghost before = window_sum(window@.take(i as int));
        let ghost byte = window@[i as int] as int;
        proof {
            assert(window@.take(i + 1).drop_last() =~= window@.take(i as int));
            let q = before / 0x1_0000_0000;
            assert(before * MULT + byte == 0x1_0000_0000 * (q * MULT) + (hash * MULT + byte))
                by (nonlinear_arith)
                requires
                    before == hash + 0x1_0000_0000 * q,
            ;
            lemma_mod_multiples_vanish(q * MULT, hash * MULT + byte, 0x1_0000_0000);
            assert(hash * MULT <= 0xffff_ffff * MULT) by (nonlinear_arith)
                requires
                    hash <= 0xffff_ffff,
            ;
        }
        hash = (hash * MULT + window[i] as u64) % 0x1_0000_0000;
        i = i + 1;
    }
    assert(window@.take(i as int) =~= window@);
    hash as u32
}

/// Advance a window hash by one byte, dropping `outgoing` and taking
/// `incoming`: of a window's own hash this makes the hash of the window moved on
/// by one byte.
pub fn roll(hash: u32, outgoing: u8, incoming: u8) -> (next: u32)
    ensures
        next == rolled(hash, outgoing, incoming),
        forall|window: Seq<u8>|
            window.len() == BLOCK && hash == #[trigger] window_hash(window) && outgoing
                == window[0] ==> next == window_hash(window.skip(1).push(incoming)),
{
    assert(outgoing * OUTGOING <= 255 * 0xffff_ffff) by (nonlinear_arith)
        requires
            outgoing <= 255,
            OUTGOING <= 0xffff_ffff,
    ;
    let out: u64 = outgoing as u64 * OUTGOING;
    let kept: u64 = (hash as u64 + 0x100_0000_0000 - out) % 0x1_0000_0000;
    proof {
        let m = 0x1_0000_0000int;
        let whole = hash + 0x100_0000_0000 - out;
        let q = whole / m;
        assert(kept == whole - m * q);
        let value = kept * MULT + incoming;
        let exact = (hash - outgoing * OUTGOING) * MULT + incoming;
        assert(exact == m * ((q - 0x100) * MULT) + value) by (nonlinear_arith)
            requires
                kept == hash + 0x100_0000_0000 - outgoing * OUTGOING - m * q,
                m == 0x1_0000_0000,
                value == kept * MULT + incoming,
                exact == (hash - outgoing * OUTGOING) * MULT + incoming,
        ;
        lemma_mod_multiples_vanish((q - 0x100) * MULT, value, m);
        assert(kept * MULT <= 0xffff_ffff * MULT) by (nonlinear_arith)
            requires
                kept <= 0xffff_ffff,
        ;
    }
    proof {
        assert forall|window: Seq<u8>|
            window.len() == BLOCK && hash == #[trigger] window_hash(window) && outgoing
                == window[0] implies rolled(hash, outgoing, incoming) == window_hash(
            window.skip(1).push(incoming),
        ) by {
            rolling_is_rehashing(window, incoming);
        }
    }
    ((kept * MULT + incoming as u64) % 0x1_0000_0000) as u32
}

/// Length of the longest run that both start with.
fn common_prefix(a: &[u8], b: &[u8]) -> (n: usize)
    ensures
        n == common_prefix_from(a@, b@, 0),
        n <= a@.len(),
        n <= b@.len(),
{
    let mut i: usize = 0;
    while i < a.len() && i < b.len() && a[i] == b[i]
        invariant
            i <= a@.len(),
            i <= b@.len(),
            common_prefix_from(a@, b@, 0) == common_prefix_from(a@, b@, i as nat),
        decreases a@.len() - i,
    {
        i = i + 1;
    }
    i
}

/// Length of the longest run that both end with.
fn common_suffix(a: &[u8], b: &[u8]) -> (n: usize)
    ensures
        n == common_suffix_from(a@, b@, 0),
        n <= a@.len(),
        n <= b@.len(),
{
    let mut i: usize = 0;
    while i < a.len() && i < b.len() && a[a.len() - 1 - i] == b[b.len() - 1 - i]
        invariant
            i <= a@.len(),
            i <= b@.len(),
            common_suffix_from(a@, b@, 0) == common_suffix_from(a@, b@, i as nat),
        decreases a@.len() - i,
    {
        i = i + 1;
    }
    i
}

/// Emit literal bytes, split across as many insert instructions as the
/// [`MAX_INSERT`] length field requires.
fn push_literal(out: &mut Vec<u8>, data: &[u8])
    ensures
        final(out)@ == old(out)@ + literal(data@),
{
    let mut i: usize = 0;
    assert(data@.skip(0) =~= data@);
    while data.len() - i > MAX_INSERT
        invariant
            i <= data@.len(),
            out@ + literal(data@.skip(i as int)) == old(out)@ + literal(data@),
        decreases data@.len() - i,
    {
        let ghost before = out@;
        let ghost rest = data@.skip(i as int);
        out.push(MAX_INSERT as u8);
        append(out, slice_subrange(data, i, i + MAX_INSERT));
        i = i + MAX_INSERT;
        proof {
            let n = MAX_INSERT as int;
            assert(rest.take(n) =~= data@.subrange(i - n, i as int));
            assert(rest.skip(n) =~= data@.skip(i as int));
            assert(out@ + literal(data@.skip(i as int)) =~= before + (seq![n as u8] + rest.take(n)
                + literal(rest.skip(n))));
        }
    }
    let ghost rest = data@.skip(i as int);
    if i < data.len() {
        let ghost before = out@;
        let left: usize = data.len() - i;
        out.push(left as u8);
        append(out, slice_subrange(data, i, data.len()));
        proof {
            assert(data@.subrange(i as int, data@.len() as int) =~= rest);
            assert(out@ =~= before + (seq![left as u8] + rest));
        }
    } else {
        assert(out@ + literal(rest) =~= out@);
    }
}

/// Emit a copy, split across as many instructions as [`MAX_COPY`] requires.
fn push_copy(out: &mut Vec<u8>, base_offset: usize, len: usize)
    requires
        base_offset + len <= u32::MAX,
    ensures
        final(out)@ == old(out)@ + copies(base_offset as nat, len as nat),
{
    let mut done: usize = 0;
    while done < len
        invariant
            done <= len,
            base_offset + len <= u32::MAX,
            out@ + copies((base_offset + done) as nat, (len - done) as nat) == old(out)@ + copies(
                base_offset as nat,
                len as nat,
            ),
        decreases len - done,
    {
        let ghost before = out@;
        let left: usize = len - done;
        let take: usize = if left < MAX_COPY {
            left
        } else {
            MAX_COPY
        };
        push_copy_instruction(out, (base_offset + done) as u32, take as u32);
        proof {
            let at = (base_offset + done) as nat;
            let one = copy_instruction(at, take as nat);
            let rest = copies(at + take as nat, (left - take) as nat);
            assert(copies(at, left as nat) =~= one + rest);
            assert(before + (one + rest) =~= out@ + rest);
        }
        done = done + take;
    }
    assert(out@ + Seq::<u8>::empty() =~= out@);
}

/// Append an operand byte unless it is zero.
fn push_nonzero(out: &mut Vec<u8>, byte: u32)
    requires
        byte <= 255,
    ensures
        final(out)@ == old(out)@ + nonzero(byte as nat),
{
    if byte != 0 {
        out.push(byte as u8);
    }
    assert(out@ =~= old(out)@ + nonzero(byte as nat));
}

fn flag_bit(byte: u32) -> (bit: u32)
    ensures
        bit == flag(byte as nat),
        bit <= 1,
{
    if byte == 0 {
        0
    } else {
        1
    }
}

/// Emit one copy instruction, omitting zero bytes as real packs do.
fn push_copy_instruction(out: &mut Vec<u8>, offset: u32, size: u32)
    ensures
        final(out)@ == old(out)@ + copy_instruction(offset as nat, size as nat),
{
    let o0: u32 = offset % 256;
    let o1: u32 = offset / 0x100 % 256;
    let o2: u32 = offset / 0x1_0000 % 256;
    let o3: u32 = offset / 0x100_0000 % 256;
    let s0: u32 = size % 256;
    let s1: u32 = size / 0x100 % 256;
    let s2: u32 = size / 0x1_0000 % 256;
    let cmd: u32 = 0x80 + flag_bit(o0) + 2 * flag_bit(o1) + 4 * flag_bit(o2) + 8 * flag_bit(o3)
        + 0x10 * flag_bit(s0) + 0x20 * flag_bit(s1) + 0x40 * flag_bit(s2);
    out.push(cmd as u8);
    push_nonzero(out, o0);
    push_nonzero(out, o1);
    push_nonzero(out, o2);
    push_nonzero(out, o3);
    push_nonzero(out, s0);
    push_nonzero(out, s1);
    push_nonzero(out, s2);
    proof {
        reveal(copy_command);
        reveal(copy_instruction);
        assert(cmd as u8 == copy_command(offset as nat, size as nat));
        assert(out@ =~= old(out)@ + copy_instruction(offset as nat, size as nat));
    }
}

/// Encode `target` as a git delta against `base`, the inverse of
/// [`apply_delta`](crate::packfile::delta::apply::apply_delta).
///
/// Always well-formed, even when larger than `target` itself. Fails if either
/// side exceeds [`MAX_OBJECT_BYTES`], which is also the largest result a delta
/// may reconstruct.
pub fn encode_delta(base: &[u8], target: &[u8]) -> (r: Result<Vec<u8>, Error>)
    ensures
        match r {
            Ok(delta) => {
                &&& base@.len() <= MAX_OBJECT_BYTES
                &&& target@.len() <= MAX_OBJECT_BYTES
                &&& delta@ == delta_of(base@, target@)
                &&& applied(base@, delta@) == Ok::<Seq<u8>, Error>(target@)
            },
            Err(e) => {
                &&& e == Error::DeltaInputTooLarge
                &&& base@.len() > MAX_OBJECT_BYTES || target@.len() > MAX_OBJECT_BYTES
            },
        },
{
    if base.len() as u64 > MAX_OBJECT_BYTES || target.len() as u64 > MAX_OBJECT_BYTES {
        return Err(Error::DeltaInputTooLarge);
    }
    let mut out: Vec<u8> = Vec::new();
    write_varint(&mut out, base.len() as u64);
    write_varint(&mut out, target.len() as u64);
    let ghost header = out@;
    let index = BlockIndex::build(base);
    // Start of the literal run not yet emitted; a match may extend backwards
    // into it, which is why it is tracked separately from `pos`.
    let mut pending: usize = 0;
    let mut pos: usize = 0;
    let mut hash: u32 = window_at(target, 0);
    while pos < target.len()
        invariant
            pending <= pos <= target@.len(),
            base@.len() <= MAX_OBJECT_BYTES,
            target@.len() <= MAX_OBJECT_BYTES,
            index.indexes(base@),
            pos + BLOCK <= target@.len() ==> hash == window_hash(
                target@.subrange(pos as int, pos + BLOCK),
            ),
            out@ + instructions(base@, target@, pos as nat, pending as nat) == header
                + instructions(base@, target@, 0, 0),
        decreases target@.len() - pos,
    {
        let m: Option<Match> = if BLOCK <= target.len() - pos {
            index.best_match(base, target, pos, pending, hash)
        } else {
            None
        };
        proof {
            assert(found(m) == best_run(base@, target@, pos as nat, pending as nat)) by {
                reveal(best_run);
            }
            lemma_best_run(base@, target@, pos as nat, pending as nat);
        }
        if let Some(m) = m {
            let ghost before = out@;
            let ghost run = m.run();
            push_literal(&mut out, slice_subrange(target, pending, m.start));
            push_copy(&mut out, m.base_offset, m.len);
            proof {
                let end = run.start + run.len;
                assert(before + (literal(target@.subrange(pending as int, run.start as int))
                    + copies(run.base_offset, run.len) + instructions(base@, target@, end, end))
                    =~= out@ + instructions(base@, target@, end, end));
            }
            pos = m.start + m.len;
            pending = pos;
            hash = window_at(target, pos);
        } else {
            if BLOCK < target.len() - pos {
                proof {
                    let window = target@.subrange(pos as int, pos + BLOCK);
                    let incoming = target@[pos + BLOCK];
                    rolling_is_rehashing(window, incoming);
                    assert(window.skip(1).push(incoming) =~= target@.subrange(
                        pos + 1,
                        pos + 1 + BLOCK,
                    ));
                }
                hash = roll(hash, target[pos], target[pos + BLOCK]);
            }
            pos = pos + 1;
        }
    }
    let ghost before = out@;
    let tail = slice_subrange(target, pending, target.len());
    push_literal(&mut out, tail);
    proof {
        assert(tail@ =~= target@.skip(pending as int));
        assert(out@ =~= before + instructions(base@, target@, pos as nat, pending as nat));
        assert(header =~= varint_bytes(base@.len()) + varint_bytes(target@.len()));
        assert(out@ =~= delta_of(base@, target@));
        delta_round_trips(base@, target@);
    }
    Ok(out)
}

/// Hash of the window of `target` at `pos`, or zero where it does not fit.
fn window_at(target: &[u8], pos: usize) -> (hash: u32)
    requires
        pos <= target@.len(),
    ensures
        hash == (if pos + BLOCK <= target@.len() {
            window_hash(target@.subrange(pos as int, pos + BLOCK))
        } else {
            0
        }),
{
    if BLOCK <= target.len() - pos {
        block_hash(slice_subrange(target, pos, pos + BLOCK))
    } else {
        0
    }
}

} // verus!
