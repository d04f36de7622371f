//! What staging and the cache give back of what was put in.

use vstd::prelude::*;

use crate::deps::cache::{all_but, cached_under, is_cached};
use crate::ingest::cache::{
    asked_for, key_of, put_in, trimmed, weight, Held, CACHE_BYTES, MAX_CACHED_BYTES,
};
use crate::ingest::staging::buffer::{
    bytes_of, is_complete, is_staged, is_there, Staged, Whereabouts,
};
use crate::ingest::staging::encodings::StagedItem;
use crate::ingest::staging::sessions::{digit_in, id_of, number_in};
use crate::object::ObjectId;

verus! {

/// What staging says of an encoding is what it was given: its kind and what it
/// inflates to, under the object and the base that it was given for.
pub proof fn an_encoding_is_staged_as_it_was_given(
    state: Staged,
    item: StagedItem,
    compressed: Seq<u8>,
)
    requires
        state.current.len() + compressed.len() <= usize::MAX,
    ensures
        ({
            let placed = state.placed(item, compressed);
            &&& placed.index.contains_key(item.sha)
            &&& placed.index[item.sha].contains_key(item.base)
            &&& placed.index[item.sha][item.base].kind == item.kind
            &&& placed.index[item.sha][item.base].decompressed_len == item.decompressed_len
            &&& placed.index[item.sha][item.base].compressed_len == compressed.len()
            &&& placed.index[item.sha][item.base].offset == state.current.len()
            &&& placed.index[item.sha][item.base].chunk_id == state.chunk_id
            &&& placed.current == state.current + compressed
        }),
{
}

/// Where a whole encoding is located its bytes are: in what is yet to be
/// written, or in the chunk that was written with them. It is located exactly
/// where staging holds it.
pub proof fn an_encoding_is_where_it_is_located(
    state: Staged,
    chunks: Map<u32, Seq<u8>>,
    sha: ObjectId,
    there: Option<Whereabouts>,
)
    requires
        is_complete(state, chunks),
        is_there(state, sha, there),
    ensures
        match there {
            None => bytes_of(state, chunks, sha, None) is None,
            Some(Whereabouts::Here { kind, compressed, decompressed_len }) => {
                &&& bytes_of(state, chunks, sha, None) == Some(compressed@)
                &&& kind == state.index[sha][None].kind
                &&& decompressed_len == state.index[sha][None].decompressed_len
            },
            Some(Whereabouts::Chunk { kind, chunk_id, start, end, decompressed_len }) => {
                &&& chunks.contains_key(chunk_id)
                &&& start <= end <= chunks[chunk_id].len()
                &&& bytes_of(state, chunks, sha, None) == Some(
                    chunks[chunk_id].subrange(start as int, end as int),
                )
                &&& kind == state.index[sha][None].kind
                &&& decompressed_len == state.index[sha][None].decompressed_len
            },
        },
{
    if state.of(sha).contains_key(None) {
        assert(crate::ingest::staging::buffer::is_held(state, chunks, state.of(sha)[None]));
    }
}

/// Flushing hands out all that was not written yet, under the number that it was
/// staged under, and nothing where there is nothing.
pub proof fn flushing_hands_out_what_is_not_written(state: Staged)
    requires
        state.chunk_id < u32::MAX,
    ensures
        state.current.len() == 0 ==> state.chunk() is None && state.flushed() == state,
        state.current.len() > 0 ==> {
            &&& state.chunk() is Some
            &&& state.chunk()->0.data == state.current
            &&& state.chunk()->0.chunk_id == state.chunk_id
            &&& state.flushed().current.len() == 0
            &&& state.flushed().chunk_id == state.chunk_id + 1
            &&& state.flushed().index == state.index
        },
{
}

/// What the budget leaves is as much as fits of what was used last.
pub proof fn the_budget_leaves_as_much_as_fits(held: Held)
    ensures
        trimmed(held).len() <= held.len(),
        forall|i: int| 0 <= i < trimmed(held).len() ==> #[trigger] trimmed(held)[i] == held[i],
        trimmed(held).len() < held.len() ==> weight(held.take(trimmed(held).len() as int + 1))
            > CACHE_BYTES,
    decreases held.len(),
{
    if held.len() > 0 && weight(held) > CACHE_BYTES {
        let rest = held.drop_last();
        the_budget_leaves_as_much_as_fits(rest);
        if trimmed(rest).len() < rest.len() {
            assert(rest.take(trimmed(rest).len() as int + 1) =~= held.take(
                trimmed(rest).len() as int + 1,
            ));
        } else {
            assert(held.take(held.len() as int) =~= held);
        }
        assert forall|i: int| 0 <= i < trimmed(held).len() implies #[trigger] trimmed(held)[i]
            == held[i] by {
            assert(trimmed(rest)[i] == rest[i]);
        }
    }
}

/// What was asked for is what was used last, and nothing else is touched.
pub proof fn what_is_asked_for_comes_first(held: Held, oid: ObjectId)
    ensures
        is_cached(held, key_of(oid)) ==> asked_for(held, oid).len() > 0 && asked_for(held, oid)[0]
            == (key_of(oid), cached_under(held, key_of(oid))) && asked_for(held, oid).skip(1)
            == all_but(held, key_of(oid)),
        !is_cached(held, key_of(oid)) ==> asked_for(held, oid) == held,
{
    if is_cached(held, key_of(oid)) {
        assert(asked_for(held, oid).skip(1) =~= all_but(held, key_of(oid)));
    }
}

/// The id of an object is the key that it is cached under, and no two objects
/// share one.
pub proof fn each_object_has_its_own_key(a: ObjectId, b: ObjectId)
    ensures
        key_of(a) == key_of(b) ==> a == b,
{
}

/// A digit is read the same in either case, a sign before a number changes
/// nothing, and nothing is read of no digits.
pub proof fn a_number_reads_the_same_in_either_case(text: Seq<char>)
    ensures
        digit_in('a') == digit_in('A') && digit_in('b') == digit_in('B') && digit_in('c')
            == digit_in('C') && digit_in('d') == digit_in('D') && digit_in('e') == digit_in('E')
            && digit_in('f') == digit_in('F'),
        text.len() > 0 && text[0] != '+' ==> number_in(seq!['+'] + text) == number_in(text),
        text.len() == 0 ==> number_in(text) is None,
{
    assert((seq!['+'] + text).skip(1) =~= text);
}

/// An encoding is staged where it can be located.
pub proof fn what_is_staged_can_be_located(
    state: Staged,
    sha: ObjectId,
    there: Option<Whereabouts>,
)
    requires
        is_there(state, sha, there),
    ensures
        is_staged(state, sha) <==> there is Some,
{
}

/// A session's id is the time that it began at and what was drawn for it: either
/// can be told from it.
pub proof fn a_session_id_tells_its_time(secs: u64, random: u64)
    ensures
        id_of(secs, random) / 0x1_0000_0000_0000_0000 == secs,
        id_of(secs, random) % 0x1_0000_0000_0000_0000 == random,
{
}

/// What is too long to be kept is not, and leaves what is held as it is; what is
/// kept replaces what was held of the same object, and of the rest only what was
/// used longest ago makes way.
pub proof fn putting_in_drops_what_was_used_longest_ago(
    held: Held,
    oid: ObjectId,
    content: Seq<u8>,
)
    ensures
        content.len() > MAX_CACHED_BYTES ==> put_in(held, oid, content) == held,
        content.len() <= MAX_CACHED_BYTES ==> {
            let all = seq![(key_of(oid), content)] + all_but(held, key_of(oid));
            let kept = put_in(held, oid, content);
            &&& kept.len() <= all.len()
            &&& forall|i: int| 0 <= i < kept.len() ==> #[trigger] kept[i] == all[i]
            &&& kept.len() < all.len() ==> weight(all.take(kept.len() as int + 1)) > CACHE_BYTES
        },
{
    the_budget_leaves_as_much_as_fits(
        seq![(key_of(oid), content)] + all_but(held, key_of(oid)),
    );
}

} // verus!
