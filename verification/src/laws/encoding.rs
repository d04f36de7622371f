//! What an encoder finds of a base in a target.

use vstd::prelude::*;

use crate::packfile::delta::scheme::{
    best_run, bucket_of, common_prefix_from, common_suffix_from, copies, instructions, last_in,
    literal, longer, longest, run_at, run_under, slot_of, table_len, window_hash, Run, BLOCK,
    MAX_CANDIDATES,
};

verus! {

/// What two texts share at their fronts goes as far as they are the same.
pub proof fn a_shared_front_ends_at_a_difference(a: Seq<u8>, b: Seq<u8>, i: nat)
    requires
        i <= a.len() && i <= b.len(),
    ensures
        ({
            let n = common_prefix_from(a, b, i);
            &&& i <= n <= a.len() && n <= b.len()
            &&& forall|k: int| i <= k < n ==> #[trigger] a[k] == b[k]
            &&& n < a.len() && n < b.len() ==> a[n as int] != b[n as int]
        }),
    decreases a.len() - i,
{
    if i < a.len() && i < b.len() && a[i as int] == b[i as int] {
        a_shared_front_ends_at_a_difference(a, b, i + 1);
    }
}

/// What two texts share at their ends goes as far back as they are the same.
pub proof fn a_shared_end_begins_at_a_difference(a: Seq<u8>, b: Seq<u8>, i: nat)
    requires
        i <= a.len() && i <= b.len(),
    ensures
        ({
            let n = common_suffix_from(a, b, i);
            &&& i <= n <= a.len() && n <= b.len()
            &&& forall|k: int|
                i <= k < n ==> #[trigger] a[a.len() - 1 - k] == b[b.len() - 1 - k]
            &&& n < a.len() && n < b.len() ==> a[a.len() - 1 - n] != b[b.len() - 1 - n]
        }),
    decreases a.len() - i,
{
    if i < a.len() && i < b.len() && a[a.len() - 1 - i] == b[b.len() - 1 - i] {
        a_shared_end_begins_at_a_difference(a, b, i + 1);
    }
}

/// Whether a run is there and as long as another at least.
pub open spec fn reaches_len(run: Option<Run>, len: nat) -> bool {
    run matches Some(run) && run.len >= len
}

proof fn lemma_best_stays(
    base: Seq<u8>,
    target: Seq<u8>,
    pos: nat,
    pending: nat,
    mask: usize,
    candidate: Option<nat>,
    steps: nat,
    best: Option<Run>,
    len: nat,
)
    requires
        reaches_len(best, len),
    ensures
        reaches_len(longest(base, target, pos, pending, mask, candidate, steps, best), len),
    decreases steps,
{
    if let Some(b) = candidate {
        if steps > 0 {
            let next = longer(best, run_at(base, target, pos, pending, b));
            lemma_best_stays(
                base,
                target,
                pos,
                pending,
                mask,
                last_in(base, slot_of(base, b, mask), mask, b),
                (steps - 1) as nat,
                next,
                len,
            );
        }
    }
}

proof fn lemma_candidate_tried(
    base: Seq<u8>,
    target: Seq<u8>,
    pos: nat,
    pending: nat,
    mask: usize,
    upto: nat,
    steps: nat,
    best: Option<Run>,
    b: nat,
    len: nat,
)
    requires
        b < upto <= steps,
        reaches_len(run_at(base, target, pos, pending, b), len),
    ensures
        reaches_len(
            longest(
                base,
                target,
                pos,
                pending,
                mask,
                last_in(base, slot_of(base, b, mask), mask, upto),
                steps,
                best,
            ),
            len,
        ),
    decreases upto,
{
    let slot = slot_of(base, b, mask);
    let c = (upto - 1) as nat;
    if slot_of(base, c, mask) == slot {
        let next = longer(best, run_at(base, target, pos, pending, c));
        if c == b {
            assert(reaches_len(next, len));
            lemma_best_stays(
                base,
                target,
                pos,
                pending,
                mask,
                last_in(base, slot, mask, c),
                (steps - 1) as nat,
                next,
                len,
            );
        } else {
            lemma_candidate_tried(
                base,
                target,
                pos,
                pending,
                mask,
                c,
                (steps - 1) as nat,
                next,
                b,
                len,
            );
        }
    } else {
        lemma_candidate_tried(base, target, pos, pending, mask, c, steps, best, b, len);
    }
}

proof fn lemma_found(
    base: Seq<u8>,
    target: Seq<u8>,
    pos: nat,
    pending: nat,
    b: nat,
)
    requires
        pending <= pos,
        pos + BLOCK <= target.len(),
        b < base.len() / BLOCK as nat <= MAX_CANDIDATES,
        target.subrange(pos as int, pos + BLOCK) == base.subrange(BLOCK * b, BLOCK * b + BLOCK),
    ensures
        ({
            let same = common_prefix_from(base.skip(BLOCK * b), target.skip(pos as int), 0);
            same >= BLOCK && reaches_len(best_run(base, target, pos, pending), same)
        }),
{
    reveal(best_run);
    reveal(run_under);
    let blocks = base.len() / BLOCK as nat;
    let ahead = base.skip(BLOCK * b);
    let there = target.skip(pos as int);
    let same = common_prefix_from(ahead, there, 0);
    let window = target.subrange(pos as int, pos + BLOCK);
    let found = base.subrange(BLOCK * b, BLOCK * b + BLOCK);
    a_shared_front_ends_at_a_difference(ahead, there, 0);
    if same < BLOCK {
        assert(ahead[same as int] == found[same as int]);
        assert(there[same as int] == window[same as int]);
    }
    let mask = (table_len(blocks, 1) - 1) as usize;
    assert(reaches_len(run_at(base, target, pos, pending, b), same));
    assert(slot_of(base, b, mask) == bucket_of(window_hash(window), mask));
    lemma_candidate_tried(
        base,
        target,
        pos,
        pending,
        mask,
        blocks,
        MAX_CANDIDATES as nat,
        None,
        b,
        same,
    );
}

/// A block of a short base is found wherever it stands in the target, and with
/// it all that follows it in both: the run that is copied there is as long at
/// least.
pub proof fn a_block_of_the_base_is_found(
    base: Seq<u8>,
    target: Seq<u8>,
    pos: nat,
    pending: nat,
    b: nat,
    len: nat,
)
    requires
        pending <= pos,
        BLOCK <= len,
        pos + len <= target.len(),
        BLOCK * b + len <= base.len(),
        base.len() / BLOCK as nat <= MAX_CANDIDATES,
        target.subrange(pos as int, (pos + len) as int) == base.subrange(
            BLOCK * b,
            BLOCK * b + len,
        ),
    ensures
        best_run(base, target, pos, pending) matches Some(run) && run.len >= len,
{
    let ahead = base.skip(BLOCK * b);
    let there = target.skip(pos as int);
    let same = common_prefix_from(ahead, there, 0);
    let long = target.subrange(pos as int, (pos + len) as int);
    assert(target.subrange(pos as int, pos + BLOCK) =~= long.take(BLOCK as int));
    assert(base.subrange(BLOCK * b, BLOCK * b + BLOCK) =~= long.take(BLOCK as int));
    lemma_found(base, target, pos, pending, b);
    a_shared_front_ends_at_a_difference(ahead, there, 0);
    if same < len {
        assert(ahead[same as int] == base.subrange(BLOCK * b, BLOCK * b + len)[same as int]);
        assert(there[same as int] == long[same as int]);
    }
}

/// A short text against itself is copied whole.
pub proof fn a_text_against_itself_is_one_copy(text: Seq<u8>)
    requires
        BLOCK <= text.len(),
        text.len() / BLOCK as nat <= MAX_CANDIDATES,
    ensures
        instructions(text, text, 0, 0) == copies(0, text.len()),
{
    a_block_of_the_base_is_found(text, text, 0, 0, 0, text.len());
    let run = best_run(text, text, 0, 0)->0;
    crate::packfile::delta::scheme::lemma_best_run(text, text, 0, 0);
    assert(run.start == 0 && run.len == text.len() && run.base_offset == 0);
    reveal_with_fuel(instructions, 2);
    assert(text.subrange(0, 0) =~= Seq::empty());
    assert(text.skip(text.len() as int) =~= Seq::empty());
    assert(literal(Seq::empty()) =~= Seq::empty());
    assert(Seq::<u8>::empty() + copies(0, text.len()) + Seq::<u8>::empty() =~= copies(
        0,
        text.len(),
    ));
}

/// What is inserted takes one byte more for each insert, and an insert takes all
/// that it can.
pub proof fn inserts_are_as_long_as_can_be(data: Seq<u8>)
    ensures
        literal(data).len() == data.len() + (data.len() + 126) / 127,
    decreases data.len(),
{
    if data.len() > 127 {
        let rest = data.skip(127);
        inserts_are_as_long_as_can_be(rest);
        assert((data.len() + 126) / 127 == 1 + (rest.len() + 126) / 127);
    } else if data.len() > 0 {
        assert((data.len() + 126) / 127 == 1);
    }
}

} // verus!
