//! What the writer writes, the scan reads.

use vstd::prelude::*;

use crate::deps::digest::sha1_of;
use crate::deps::zlib::{nothing_shorter_is_whole, zlib_compressed, zlib_whole};
use crate::error::Error;
use crate::ingest::pack::{EntryBase, RawSpan, ScannedEntry};
use crate::ingest::scan::{
    heads, is_pack, lemma_stand_push, next_start, stand_in, stands_next, verdict,
};
use crate::object::Kind;
use crate::packfile::format::{
    entry_header_bytes, EntryHeader, MAX_OBJECT_BYTES, MAX_PACK_OBJECTS,
};
use crate::packfile::parse::{entry_header_round_trips, pack_header_round_trips};
use crate::packfile::writer::{pack_entry_bytes, pack_header_bytes};

verus! {

/// Whole entries, one behind the other.
pub open spec fn entries_bytes(objects: Seq<(Kind, Seq<u8>)>) -> Seq<u8>
    decreases objects.len(),
{
    if objects.len() == 0 {
        Seq::empty()
    } else {
        entries_bytes(objects.drop_last()) + pack_entry_bytes(objects.last().0, objects.last().1)
    }
}

/// A pack but for its trailer.
pub open spec fn untrailed(objects: Seq<(Kind, Seq<u8>)>) -> Seq<u8> {
    pack_header_bytes(objects.len() as u32) + entries_bytes(objects)
}

/// How long the header of a whole entry is.
pub open spec fn head_len(kind: Kind, content: Seq<u8>) -> nat {
    entry_header_bytes(EntryHeader::Full(kind), content.len()).len()
}

/// Where a pack's entries stand.
pub open spec fn places(objects: Seq<(Kind, Seq<u8>)>) -> Seq<ScannedEntry>
    decreases objects.len(),
{
    if objects.len() == 0 {
        Seq::empty()
    } else {
        let (kind, content) = objects.last();
        places(objects.drop_last()).push(
            ScannedEntry {
                base: EntryBase::Whole(kind),
                decompressed_size: content.len() as u64,
                entry: RawSpan {
                    offset: (12 + entries_bytes(objects.drop_last()).len()) as u64,
                    len: pack_entry_bytes(kind, content).len() as usize,
                },
                header_len: head_len(kind, content) as usize,
            },
        )
    }
}

/// Whether content is within the limit, and compresses to one stream that is
/// read to its end and not before.
pub open spec fn is_writable(content: Seq<u8>) -> bool {
    &&& content.len() <= MAX_OBJECT_BYTES
    &&& zlib_whole(zlib_compressed(content)) == Some(content.len())
    &&& nothing_shorter_is_whole(zlib_compressed(content))
}

/// A pack that is written entry by entry, each whole, behind a header that
/// counts them and before the digest of all that, is found whole with these
/// entries in their places.
pub proof fn a_written_pack_scans(
    objects: Seq<(Kind, Seq<u8>)>,
    trailer: Seq<u8>,
)
    requires
        objects.len() <= MAX_PACK_OBJECTS,
        forall|i: int| 0 <= i < objects.len() ==> is_writable((#[trigger] objects[i]).1),
        untrailed(objects).len() <= usize::MAX,
        trailer == sha1_of(untrailed(objects)),
        trailer.len() == 20,
    ensures
        is_pack(untrailed(objects) + trailer, places(objects)),
        verdict(untrailed(objects) + trailer, places(objects)) == Some(Ok::<(), Error>(())),
{
    let pack = untrailed(objects) + trailer;
    lemma_stand(objects, pack, objects.len() as int);
    assert(objects.take(objects.len() as int) =~= objects);
    pack_header_round_trips(objects.len() as u32, entries_bytes(objects) + trailer);
    assert(pack =~= pack_header_bytes(objects.len() as u32) + (entries_bytes(objects) + trailer));
    let end = next_start(places(objects));
    assert(pack.skip(end) =~= trailer);
    assert(pack.subrange(end, end + 20) =~= trailer);
    assert(pack.take(end) =~= untrailed(objects));
}

/// What stands before an entry does not hang on what stands behind it.
proof fn lemma_front(objects: Seq<(Kind, Seq<u8>)>, k: int)
    requires
        0 <= k <= objects.len(),
    ensures
        entries_bytes(objects.take(k)).len() <= entries_bytes(objects).len(),
        entries_bytes(objects).take(entries_bytes(objects.take(k)).len() as int) == entries_bytes(
            objects.take(k),
        ),
    decreases objects.len(),
{
    let front = entries_bytes(objects.take(k));
    if k == objects.len() {
        assert(objects.take(k) =~= objects);
        assert(front.take(front.len() as int) =~= front);
    } else {
        let rest = objects.drop_last();
        assert(rest.take(k) =~= objects.take(k));
        lemma_front(rest, k);
        assert(entries_bytes(objects).take(front.len() as int) =~= entries_bytes(rest).take(
            front.len() as int,
        ));
    }
}

#[verifier::spinoff_prover]
#[verifier::rlimit(40)]
proof fn lemma_stand(objects: Seq<(Kind, Seq<u8>)>, pack: Seq<u8>, k: int)
    requires
        0 <= k <= objects.len(),
        forall|i: int| 0 <= i < objects.len() ==> is_writable((#[trigger] objects[i]).1),
        untrailed(objects).len() <= usize::MAX,
        untrailed(objects).is_prefix_of(pack),
    ensures
        stand_in(pack, places(objects.take(k))),
        next_start(places(objects.take(k))) == 12 + entries_bytes(objects.take(k)).len(),
        places(objects.take(k)).len() == k,
    decreases k,
{
    pack_header_round_trips(objects.len() as u32, Seq::empty());
    if k > 0 {
        let so_far = objects.take(k);
        let earlier = objects.take(k - 1);
        assert(so_far.drop_last() =~= earlier);
        lemma_stand(objects, pack, k - 1);
        lemma_front(objects, k);
        let (kind, content) = objects[k - 1];
        assert(is_writable(objects[k - 1].1));
        let entry = places(so_far).last();
        let head = entry_header_bytes(EntryHeader::Full(kind), content.len());
        let body = zlib_compressed(content);
        let start = (12 + entries_bytes(earlier).len()) as int;
        let end = (start + head.len() + body.len()) as int;
        let all = untrailed(objects);
        assert(all.take(end).skip(start) =~= head + body) by {
            let front = entries_bytes(so_far);
            assert(front == entries_bytes(earlier) + pack_entry_bytes(kind, content));
            assert(all.take(end) =~= pack_header_bytes(objects.len() as u32) + front);
        }
        assert(pack.take(end) =~= all.take(end));
        let rest = pack.skip(end);
        assert(pack.skip(start) =~= head + (body + rest)) by {
            assert(pack =~= pack.take(end) + rest);
            assert(pack.skip(start) =~= pack.take(end).skip(start) + rest);
        }
        entry_header_round_trips(EntryHeader::Full(kind), content.len() as u64, body + rest);
        assert(pack.subrange(start + head.len(), end) =~= body) by {
            assert(pack.subrange(start + head.len(), end) =~= pack.take(end).skip(start).skip(
                head.len() as int,
            ));
        }
        assert(heads(
            pack,
            places(earlier),
            entry.entry.offset,
            entry.header_len,
            entry.base,
            entry.decompressed_size,
        ));
        assert(stands_next(pack, places(earlier), entry)) by {
            reveal(stands_next);
        }
        lemma_stand_push(pack, places(earlier), entry);
    }
}

} // verus!
