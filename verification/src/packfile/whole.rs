//! Whole packs, and what reading one keeps.

use vstd::prelude::*;

use crate::deps::digest::sha1_of;
use crate::deps::zlib::{ends_at, nothing_shorter_is_whole, zlib_whole};
use crate::error::Error;
use crate::packfile::format::EntryHeader;
use crate::packfile::parse::{
    a_stream_has_one_end, parse_entry_header, parse_pack_header, reading_is_local,
    reading_is_stable, Parsed,
};
use crate::packfile::reader::{keeping, ReaderState};

verus! {

/// Whether `data` start with an entry's body that ends at `end` and inflates to
/// `size` bytes.
pub open spec fn body_ends(data: Seq<u8>, size: u64, end: int) -> bool {
    ends_at(data, end) && zlib_whole(data.take(end)) == Some(size as nat)
}

/// How long the entry at the front of `data` is: its header, and a body of the
/// size that the header promises.
pub open spec fn entry_len(data: Seq<u8>) -> Option<nat> {
    match parse_entry_header(data) {
        Parsed::Read { value, len } => {
            let rest = data.skip(len as int);
            if exists|end: int| body_ends(rest, value.1, end) {
                Some(len + (choose|end: int| body_ends(rest, value.1, end)) as nat)
            } else {
                None
            }
        },
        _ => None,
    }
}

/// How long the first `count` entries of `data` are together.
pub open spec fn entries_len(data: Seq<u8>, count: nat) -> Option<nat>
    decreases count,
{
    if count == 0 {
        Some(0)
    } else {
        match entry_len(data) {
            None => None,
            Some(n) => match entries_len(data.skip(n as int), (count - 1) as nat) {
                None => None,
                Some(m) => Some(n + m),
            },
        }
    }
}

/// Whether `pack` is a whole pack: a header, as many entries as it promises, and
/// the digest of both.
pub open spec fn is_pack(pack: Seq<u8>) -> bool {
    &&& parse_pack_header(pack) matches Parsed::Read { value: count, len }
    &&& entries_len(pack.skip(len as int), count as nat) matches Some(n)
    &&& pack.len() == len + n + 20
    &&& pack.skip((len + n) as int) == sha1_of(pack.take((len + n) as int))
}

/// How a reader gets from one entry to the next: `PackReader::read_entry_header`
/// hands out a header and leads to `inside`, and `PackReader::skip_entry_body`
/// reads the body that it promises.
pub open spec fn reads_entry(before: ReaderState, inside: ReaderState, after: ReaderState) -> bool {
    let n = (inside.unread.len() - after.unread.len()) as nat;
    let body = inside.unread.take(n as int);
    &&& parse_entry_header(before.unread) matches Parsed::Read { value, len: _ }
    &&& before.reads(
        parse_entry_header(before.unread),
        Ok::<Option<(EntryHeader, u64)>, Error>(Some(value)),
        inside,
    )
    &&& after.unread.len() <= inside.unread.len()
    &&& after == (ReaderState { body: None, ..inside.accepting(n) })
    &&& zlib_whole(body) == Some(value.1 as nat)
    &&& nothing_shorter_is_whole(body)
}

/// What a reader that has `pack` and `behind` before it has read, once it has
/// read the first `n` bytes of `pack`.
spec fn has_read(
    before: ReaderState,
    after: ReaderState,
    pack: Seq<u8>,
    behind: Seq<u8>,
    n: nat,
) -> bool {
    &&& n <= pack.len()
    &&& after.unread == pack.skip(n as int) + behind
    &&& after.kept == keeping(before.kept, pack.take(n as int))
    &&& after.hashed == before.hashed + pack.take(n as int)
    &&& after.body is None
}

proof fn lemma_accepting(state: ReaderState, pack: Seq<u8>, behind: Seq<u8>, n: nat)
    requires
        state.unread == pack + behind,
        state.body is None,
        n <= pack.len(),
    ensures
        has_read(state, state.accepting(n), pack, behind, n),
{
    assert((pack + behind).take(n as int) =~= pack.take(n as int));
    assert((pack + behind).skip(n as int) =~= pack.skip(n as int) + behind);
}

proof fn lemma_read_on(
    first: ReaderState,
    second: ReaderState,
    third: ReaderState,
    pack: Seq<u8>,
    behind: Seq<u8>,
    n: nat,
    m: nat,
)
    requires
        has_read(first, second, pack, behind, n),
        has_read(second, third, pack.skip(n as int), behind, m),
    ensures
        has_read(first, third, pack, behind, n + m),
{
    let front = pack.take(n as int);
    let next = pack.skip(n as int).take(m as int);
    assert(pack.skip(n as int).skip(m as int) =~= pack.skip((n + m) as int));
    assert(front + next =~= pack.take((n + m) as int));
    assert((first.hashed + front) + next =~= first.hashed + (front + next));
    assert(first.kept matches Some(kept) ==> (kept + front) + next =~= kept + (front + next));
}

proof fn lemma_entry_read(
    before: ReaderState,
    inside: ReaderState,
    after: ReaderState,
    pack: Seq<u8>,
    behind: Seq<u8>,
    n: nat,
)
    requires
        before.unread == pack + behind,
        before.body is None,
        entry_len(pack) == Some(n),
        reads_entry(before, inside, after),
    ensures
        has_read(before, after, pack, behind, n),
{
    reading_is_stable(pack, behind);
    reading_is_local(pack, pack);
    let parsed = parse_entry_header(pack);
    let size = parsed->value.1;
    let len = parsed->len;
    lemma_accepting(before, pack, behind, len);
    let rest = pack.skip(len as int);
    let end = choose|end: int| body_ends(rest, size, end);
    assert(body_ends(rest, size, end));
    let took = (inside.unread.len() - after.unread.len()) as nat;
    assert((rest + behind).take(end) =~= rest.take(end));
    a_stream_has_one_end(inside.unread, end as nat, took);
    lemma_accepting(inside, rest, behind, took);
    lemma_read_on(before, inside, after, pack, behind, len, took);
}

proof fn lemma_entries_read(
    at: Seq<ReaderState>,
    inside: Seq<ReaderState>,
    pack: Seq<u8>,
    behind: Seq<u8>,
    n: nat,
)
    requires
        at.len() == inside.len() + 1,
        at[0].unread == pack + behind,
        at[0].body is None,
        entries_len(pack, inside.len()) == Some(n),
        forall|i: int|
            0 <= i < inside.len() ==> reads_entry(at[i], #[trigger] inside[i], at[i + 1]),
    ensures
        has_read(at[0], at.last(), pack, behind, n),
    decreases inside.len(),
{
    if inside.len() == 0 {
        lemma_accepting(at[0], pack, behind, 0);
        assert(pack.take(0) =~= Seq::<u8>::empty());
        assert(at[0].kept matches Some(kept) ==> kept + Seq::<u8>::empty() =~= kept);
        assert(at[0].hashed + Seq::<u8>::empty() =~= at[0].hashed);
        assert(pack.skip(0) =~= pack);
    } else {
        let first = entry_len(pack)->0;
        let later = at.skip(1);
        let bodies = inside.skip(1);
        assert(reads_entry(at[0], inside[0], at[1]));
        lemma_entry_read(at[0], inside[0], at[1], pack, behind, first);
        assert forall|i: int| 0 <= i < bodies.len() implies reads_entry(
            later[i],
            #[trigger] bodies[i],
            later[i + 1],
        ) by {
            assert(reads_entry(at[i + 1], inside[i + 1], at[i + 1 + 1]));
        }
        lemma_entries_read(later, bodies, pack.skip(first as int), behind, (n - first) as nat);
        lemma_read_on(at[0], at[1], at.last(), pack, behind, first, (n - first) as nat);
    }
}

/// Reading a whole pack with whatever behind it, by a reader that keeps what it
/// reads, comes to the pack's end: the trailer is good, the copy is the pack
/// with its trailer, and what is behind it is still to be read.
///
/// `start` is the reader that the pack was fed to, `at` where it stands behind
/// the header and behind each entry, `inside` where it stands between an entry's
/// header and its body, and `done` behind the trailer.
pub proof fn a_whole_pack_is_kept(
    pack: Seq<u8>,
    behind: Seq<u8>,
    start: ReaderState,
    count: u32,
    at: Seq<ReaderState>,
    inside: Seq<ReaderState>,
    done: ReaderState,
)
    requires
        is_pack(pack),
        start.unread == pack + behind,
        start.kept == Some(Seq::<u8>::empty()),
        start.hashed == Seq::<u8>::empty(),
        start.body is None,
        inside.len() == count,
        at.len() == inside.len() + 1,
        start.reads(
            parse_pack_header(start.unread),
            Ok::<Option<u32>, Error>(Some(count)),
            at[0],
        ),
        forall|i: int|
            0 <= i < inside.len() ==> reads_entry(at[i], #[trigger] inside[i], at[i + 1]),
        done == (ReaderState {
            unread: at.last().unread.skip(20),
            kept: keeping(at.last().kept, at.last().unread.take(20)),
            hashed: Seq::empty(),
            ..at.last()
        }),
    ensures
        at.last().unread.len() >= 20,
        at.last().unread.take(20) == sha1_of(at.last().hashed),
        done.kept == Some(pack),
        done.unread == behind,
{
    reading_is_stable(pack, behind);
    let len = parse_pack_header(pack)->len;
    let n = entries_len(pack.skip(len as int), count as nat)->0;
    lemma_accepting(start, pack, behind, len);
    lemma_entries_read(at, inside, pack.skip(len as int), behind, n);
    lemma_read_on(start, at[0], at.last(), pack, behind, len, n);
    let read = pack.take((len + n) as int);
    let trailer = pack.skip((len + n) as int);
    assert(at.last().unread.take(20) =~= trailer);
    assert(at.last().unread.skip(20) =~= behind);
    assert(Seq::<u8>::empty() + read =~= read);
    assert(read + trailer =~= pack);
}

} // verus!
