//! How the encodings of a push are asked for, batched and written.

use vstd::prelude::*;

use crate::ingest::chains::has_entry;
use crate::ingest::graph::ObjectRefs;
use crate::ingest::materialise::{
    cuts, cutting, is_cost, needed, topped, total, Want, BATCH, BATCH_BYTES,
};
use crate::ingest::plan::{DeltaEntry, EntrySource};
use crate::ingest::resolve::capped;
use crate::ingest::upload::choice::Body;
use crate::ingest::upload::layout::ImageView;
use crate::ingest::upload::pump::{
    fetched, first_failure, front, landed_at, landed_in_order, pumped, Fetch, Outcome, Written,
};
use crate::ingest::upload::segment::{landed_as, told, LandedView, Stand, Todo};
use crate::ingest::lists::lemma_push_contains;
use crate::ingest::upload::layout::EntryView;
use crate::ingest::upload::STREAM_THRESHOLD_BYTES;
use crate::ingest::wants::{is_delta, is_foreign, is_wanted, with_wants};
use crate::model::ObjectMeta;
use crate::object::ObjectId;
use crate::objects::location::Ulid;

verus! {

/// Whether a batch could not have taken the item that follows it.
pub open spec fn is_closed(costs: Seq<u64>, from: int, to: int) -> bool {
    to - from >= BATCH || total(costs, from, to) + costs[to] > BATCH_BYTES
}

proof fn lemma_closed(costs: Seq<u64>, n: int)
    requires
        0 <= n <= costs.len(),
    ensures
        ({
            let all = cutting(costs, n);
            &&& 0 <= all.start <= n
            &&& n > 0 ==> all.start < n
            &&& all.bytes <= total(costs, all.start, n)
            &&& forall|i: int|
                0 <= i < all.done.len() ==> is_closed(
                    costs,
                    (#[trigger] all.done[i]).0,
                    all.done[i].1,
                )
        }),
    decreases n,
{
    if n > 0 {
        lemma_closed(costs, n - 1);
        let before = cutting(costs, n - 1);
        let all = cutting(costs, n);
        let cost = costs[n - 1];
        if before.is_full(n - 1, cost) {
            reveal_with_fuel(total, 2);
            assert(total(costs, n - 1, n) == cost);
            assert(is_closed(costs, before.start, n - 1));
        }
        assert forall|i: int| 0 <= i < all.done.len() implies is_closed(
            costs,
            (#[trigger] all.done[i]).0,
            all.done[i].1,
        ) by {
            if i < before.done.len() {
                assert(all.done[i] == before.done[i]);
            }
        }
    }
}

/// A batch ends only where it is full: it holds all that it may, or the next
/// item would take it past its bytes.
pub proof fn a_batch_takes_all_that_it_may(costs: Seq<u64>, i: int)
    requires
        0 <= i < cuts(costs).len() - 1,
    ensures
        is_closed(costs, cuts(costs)[i].0, cuts(costs)[i].1),
{
    lemma_closed(costs, costs.len() as int);
    let all = cutting(costs, costs.len() as int);
    assert(cuts(costs)[i] == all.done[i]);
}

/// What a batch needs is every object that it encodes and every base that it
/// encodes one against.
pub proof fn a_batch_needs_its_objects_and_their_bases(wants: Seq<Want>, oid: ObjectId)
    ensures
        needed(wants).contains(oid) <==> exists|i: int|
            0 <= i < wants.len() && ((#[trigger] wants[i]).oid == oid || wants[i].base == Some(
                oid,
            )),
    decreases wants.len(),
{
    if wants.len() > 0 {
        let rest = wants.drop_last();
        let last = wants.last();
        a_batch_needs_its_objects_and_their_bases(rest, oid);
        assert(wants[wants.len() - 1] == last);
        lemma_push_contains(needed(rest), last.oid, oid);
        if let Some(base) = last.base {
            lemma_push_contains(needed(rest).push(last.oid), base, oid);
        }
        if exists|i: int|
            0 <= i < rest.len() && ((#[trigger] rest[i]).oid == oid || rest[i].base == Some(oid)) {
            let i = choose|i: int|
                0 <= i < rest.len() && ((#[trigger] rest[i]).oid == oid || rest[i].base == Some(
                    oid,
                ));
            assert(wants[i] == rest[i]);
        }
        if exists|i: int|
            0 <= i < wants.len() && ((#[trigger] wants[i]).oid == oid || wants[i].base == Some(
                oid,
            )) {
            let i = choose|i: int|
                0 <= i < wants.len() && ((#[trigger] wants[i]).oid == oid || wants[i].base == Some(
                    oid,
                ));
            if i < rest.len() {
                assert(rest[i] == wants[i]);
            }
        }
    }
}

/// Whether a commit's pack has an entry to encode here as `want` says: one that
/// did not arrive, and that is a delta or is brought by the push.
pub open spec fn is_to_encode(
    packs: Map<ObjectId, Seq<DeltaEntry>>,
    push: Map<ObjectId, ObjectRefs>,
    want: Want,
) -> bool {
    exists|commit: ObjectId, i: int|
        packs.contains_key(commit) && 0 <= i < packs[commit].len() && {
            let entry = #[trigger] packs[commit][i];
            &&& entry.source is Encoded
            &&& entry.oid == want.oid && entry.kind == want.kind && entry.base == want.base
            &&& want.base is Some || push.contains_key(want.oid)
        }
}

/// What is encoded here is each commit of the push that did not arrive whole,
/// each of its tags, and each entry of a pack that did not arrive and that is a
/// delta or is brought by the push.
pub proof fn what_did_not_arrive_is_encoded(
    commits: Map<ObjectId, EntrySource>,
    packs: Map<ObjectId, Seq<DeltaEntry>>,
    push: Map<ObjectId, ObjectRefs>,
    want: Want,
)
    ensures
        is_wanted(commits, packs, push, want) <==> {
            ||| {
                &&& push.contains_key(want.oid) && push[want.oid] is Commit
                &&& want.kind is Commit && want.base is None
                &&& !(commits.contains_key(want.oid) && commits[want.oid] is Wire)
            }
            ||| {
                &&& push.contains_key(want.oid) && push[want.oid] is Tag
                &&& want.kind is Tag && want.base is None
            }
            ||| is_to_encode(packs, push, want)
        },
{
    if exists|entry: DeltaEntry| #[trigger]
        has_entry(packs, entry) && crate::ingest::wants::entry_want(entry, push) == Some(want) {
        let entry = choose|entry: DeltaEntry| #[trigger]
            has_entry(packs, entry) && crate::ingest::wants::entry_want(entry, push) == Some(want);
        let commit = choose|commit: ObjectId| #[trigger]
            packs.contains_key(commit) && packs[commit].contains(entry);
        let i = choose|i: int| 0 <= i < packs[commit].len() && packs[commit][i] == entry;
        assert(packs[commit][i].oid == want.oid);
    }
    if is_to_encode(packs, push, want) {
        let (commit, i) = choose|commit: ObjectId, i: int|
            packs.contains_key(commit) && 0 <= i < packs[commit].len() && {
                let entry = #[trigger] packs[commit][i];
                &&& entry.source is Encoded
                &&& entry.oid == want.oid && entry.kind == want.kind && entry.base == want.base
                &&& want.base is Some || push.contains_key(want.oid)
            };
        let entry = packs[commit][i];
        assert(packs.contains_key(commit) && packs[commit].contains(entry));
        assert(has_entry(packs, entry));
    }
}

/// The objects to look up are those that an entry stores, that did not arrive
/// and that the push does not bring.
pub proof fn what_the_push_does_not_bring_is_looked_up(
    packs: Map<ObjectId, Seq<DeltaEntry>>,
    push: Map<ObjectId, ObjectRefs>,
    oid: ObjectId,
)
    ensures
        is_foreign(packs, push, oid) <==> !push.contains_key(oid) && exists|
            commit: ObjectId,
            i: int,
        |
            packs.contains_key(commit) && 0 <= i < packs[commit].len() && (
            #[trigger] packs[commit][i]).oid == oid && packs[commit][i].source is Encoded,
{
    if is_foreign(packs, push, oid) {
        let entry = choose|entry: DeltaEntry| #[trigger]
            has_entry(packs, entry) && !(entry.source is Wire) && entry.oid == oid;
        let commit = choose|commit: ObjectId| #[trigger]
            packs.contains_key(commit) && packs[commit].contains(entry);
        let i = choose|i: int| 0 <= i < packs[commit].len() && packs[commit][i] == entry;
        assert(packs[commit][i].oid == oid);
    }
    if !push.contains_key(oid) && exists|commit: ObjectId, i: int|
        packs.contains_key(commit) && 0 <= i < packs[commit].len() && (
        #[trigger] packs[commit][i]).oid == oid && packs[commit][i].source is Encoded {
        let (commit, i) = choose|commit: ObjectId, i: int|
            packs.contains_key(commit) && 0 <= i < packs[commit].len() && (
            #[trigger] packs[commit][i]).oid == oid && packs[commit][i].source is Encoded;
        let entry = packs[commit][i];
        assert(packs.contains_key(commit) && packs[commit].contains(entry));
        assert(has_entry(packs, entry));
    }
}

/// A body is fetched from where it lies, unless it is in memory or is long
/// enough to be streamed; and what is streamed is the same bytes.
pub proof fn a_body_is_written_from_where_it_lies(body: Body)
    requires
        body matches Body::Staged { from, to, .. } ==> from <= to,
    ensures
        match body {
            Body::Wire { at, length, .. } => {
                &&& fetched(body) is Resident
                &&& forall|buffered: bool|
                    (#[trigger] pumped(body, buffered)).written == Written::Wire(at) && pumped(
                        body,
                        buffered,
                    ).with_header && pumped(body, buffered).length == Some(length)
            },
            Body::Staged { chunk_id, from, to, length } => {
                &&& to - from < STREAM_THRESHOLD_BYTES ==> fetched(body) == (Fetch::Chunk {
                    chunk_id,
                    from,
                    to,
                })
                &&& to - from >= STREAM_THRESHOLD_BYTES ==> fetched(body) is Inline
                &&& pumped(body, true).written is Payload
                &&& pumped(body, false).written == (Written::ChunkStream { chunk_id, from, to })
                &&& pumped(body, true).with_header && pumped(body, false).with_header
                &&& pumped(body, true).length == Some(length) && pumped(body, false).length
                    == Some(length)
            },
            Body::Indexed { segment, start, entry_len } => {
                &&& entry_len < STREAM_THRESHOLD_BYTES ==> fetched(body) == (Fetch::Slice {
                    segment,
                    start,
                    len: entry_len,
                })
                &&& entry_len >= STREAM_THRESHOLD_BYTES ==> fetched(body) is Inline
                &&& pumped(body, true).written is Payload
                &&& pumped(body, false).written == (Written::SegmentStream {
                    segment,
                    start,
                    len: entry_len,
                })
                &&& !pumped(body, true).with_header && !pumped(body, false).with_header
                &&& pumped(body, true).length is None && pumped(body, false).length is None
            },
        },
{
}

/// A failure that is told is one that a segment met, and the first.
pub proof fn the_first_failure_is_told<T, E>(outcomes: Seq<Outcome<T, E>>)
    ensures
        match first_failure(outcomes) {
            Some(error) => exists|i: int|
                0 <= i < outcomes.len() && #[trigger] outcomes[i] == Outcome::<T, E>::Failed(error)
                    && forall|j: int| 0 <= j < i ==> !(#[trigger] outcomes[j] is Failed),
            None => forall|i: int| 0 <= i < outcomes.len() ==> !(#[trigger] outcomes[i] is Failed),
        },
    decreases outcomes.len(),
{
    if outcomes.len() > 0 {
        let rest = outcomes.drop_last();
        the_first_failure_is_told(rest);
        assert(outcomes[outcomes.len() - 1] == outcomes.last());
        match first_failure(rest) {
            Some(error) => {
                let i = choose|i: int|
                    0 <= i < rest.len() && #[trigger] rest[i] == Outcome::<T, E>::Failed(error)
                        && forall|j: int| 0 <= j < i ==> !(#[trigger] rest[j] is Failed);
                assert(outcomes[i] == rest[i]);
                assert forall|j: int| 0 <= j < i implies !(#[trigger] outcomes[j] is Failed) by {
                    assert(rest[j] == outcomes[j]);
                }
            },
            None => {
                assert forall|j: int| 0 <= j < rest.len() implies !(
                #[trigger] outcomes[j] is Failed) by {
                    assert(rest[j] == outcomes[j]);
                }
            },
        }
    }
}

/// Whether a segment landed, and with what.
pub open spec fn has_landed_with<T, E>(
    outcomes: Seq<Outcome<T, E>>,
    index: int,
    images: Seq<T>,
) -> bool {
    exists|i: int|
        0 <= i < outcomes.len() && (#[trigger] outcomes[i] matches Outcome::Landed(at, own) && at
            == index && own@ == images)
}

proof fn lemma_landed<T, E>(outcomes: Seq<Outcome<T, E>>, index: int)
    ensures
        landed_at(outcomes, index) matches Some(images) ==> has_landed_with(
            outcomes,
            index,
            images,
        ),
        landed_at(outcomes, index) is None ==> forall|i: int|
            0 <= i < outcomes.len() ==> !(#[trigger] outcomes[i] matches Outcome::Landed(at, _) && at
                == index),
    decreases outcomes.len(),
{
    if outcomes.len() > 0 {
        let rest = outcomes.drop_last();
        lemma_landed(rest, index);
        assert(outcomes[outcomes.len() - 1] == outcomes.last());
        if let Some(images) = landed_at(rest, index) {
            let i = choose|i: int|
                0 <= i < rest.len() && (#[trigger] rest[i] matches Outcome::Landed(at, own) && at
                    == index && own@ == images);
            assert(outcomes[i] == rest[i]);
        }
        if landed_at(outcomes, index) is None {
            assert forall|i: int| 0 <= i < outcomes.len() implies !(
            #[trigger] outcomes[i] matches Outcome::Landed(at, _) && at == index) by {
                if i < rest.len() {
                    assert(rest[i] == outcomes[i]);
                }
            }
        }
    }
}

/// The images that landed are those of every segment, whatever order the
/// segments finished in, and in the order of the segments; where a segment has
/// none, there is no answer.
pub proof fn images_come_in_the_order_of_their_segments<T, E>(
    outcomes: Seq<Outcome<T, E>>,
    n: int,
    i: int,
)
    requires
        0 <= i < n,
    ensures
        landed_in_order(outcomes, n) matches Some(all) ==> exists|before: Seq<T>, own: Seq<T>|
            {
                &&& #[trigger] has_landed_with(outcomes, i, own)
                &&& landed_in_order(outcomes, i) == Some(before)
                &&& #[trigger] (before + own).is_prefix_of(all)
                &&& i == n - 1 ==> all == before + own
            },
        landed_in_order(outcomes, n) is None ==> exists|k: int|
            0 <= k < n && #[trigger] landed_at(outcomes, k) is None,
    decreases n,
{
    lemma_landed(outcomes, n - 1);
    if let Some(all) = landed_in_order(outcomes, n) {
        let shorter = landed_in_order(outcomes, n - 1)->0;
        let last = landed_at(outcomes, n - 1)->0;
        if i < n - 1 {
            images_come_in_the_order_of_their_segments(outcomes, n - 1, i);
            let (before, own) = choose|before: Seq<T>, own: Seq<T>|
                {
                    &&& #[trigger] has_landed_with(outcomes, i, own)
                    &&& landed_in_order(outcomes, i) == Some(before)
                    &&& #[trigger] (before + own).is_prefix_of(shorter)
                    &&& i == n - 1 - 1 ==> shorter == before + own
                };
            assert((before + own).is_prefix_of(all)) by {
                assert(shorter.is_prefix_of(all));
                assert(shorter.subrange(0, (before + own).len() as int) =~= all.subrange(
                    0,
                    (before + own).len() as int,
                ));
            }
        } else {
            assert((shorter + last).is_prefix_of(all));
            assert(has_landed_with(outcomes, i, last));
        }
    } else if landed_at(outcomes, n - 1) is Some {
        if n - 1 > 0 {
            images_come_in_the_order_of_their_segments(outcomes, n - 1, 0);
            let k = choose|k: int| 0 <= k < n - 1 && #[trigger] landed_at(outcomes, k) is None;
            assert(landed_at(outcomes, k) is None);
        }
    }
}

/// What a trailer says of an entry is what the entry is and where it lies, with
/// the length that it inflates to.
pub proof fn a_trailer_says_where_an_entry_lies(entry: EntryView, length: u64)
    ensures
        told(entry, length).sha == entry.oid,
        told(entry, length).kind == entry.kind,
        told(entry, length).length == length,
        told(entry, length).offset == entry.offset,
        told(entry, length).entry_len == entry.entry_len,
{
}

/// An image that landed is that of its commit, where it was planned, and its
/// trailer tells of each of its entries.
pub proof fn an_image_lands_where_it_was_planned(landed: LandedView, image: ImageView, id: Ulid)
    requires
        landed_as(landed, image, id),
    ensures
        landed.commit_oid == image.commit_oid,
        landed.segment.id == id,
        landed.segment.base_offset == image.base_offset,
        landed.segment.image_len == image.image_len,
        landed.trailer.len() == image.entries.len(),
        forall|j: int|
            0 <= j < image.entries.len() ==> {
                &&& (#[trigger] landed.trailer[j]).sha == image.entries[j].oid
                &&& landed.trailer[j].kind == image.entries[j].kind
                &&& landed.trailer[j].offset == image.entries[j].offset
                &&& landed.trailer[j].entry_len == image.entries[j].entry_len
            },
{
}

/// A segment is written image by image: a header that counts the image's
/// entries, each of them in turn, and the trailer; it stands down between two
/// images and never inside one.
pub proof fn a_segment_is_written_image_by_image(stand: Stand, cancelled: bool)
    requires
        stand.is_sound(),
    ensures
        ({
            let image = stand.images[stand.landed.len() as int];
            &&& stand.due(cancelled) is Finish <==> stand.landed.len() == stand.images.len()
            &&& stand.landed.len() < stand.images.len() && !stand.begun && cancelled ==> stand.due(
                cancelled,
            ) is StandDown
            &&& stand.landed.len() < stand.images.len() && !stand.begun && !cancelled ==> stand.due(
                cancelled,
            ) == Todo::Header(image.entry_count)
            &&& stand.begun ==> (stand.due(cancelled) is Entry <==> stand.trailer.len()
                < image.entries.len())
            &&& stand.begun ==> (stand.due(cancelled) is Trailer <==> stand.trailer.len()
                == image.entries.len())
        }),
{
}

/// An image that is closed has landed with everything that was told of its
/// entries and where its blobs begin, behind those that landed before; nothing
/// of the next one is begun.
pub proof fn closing_an_image_lands_it(stand: Stand, blob_offset: u64)
    requires
        stand.landed.len() < stand.images.len(),
    ensures
        ({
            let next = stand.close(blob_offset);
            let image = stand.images[stand.landed.len() as int];
            let landed = next.landed[stand.landed.len() as int];
            &&& next.landed.len() == stand.landed.len() + 1
            &&& forall|k: int|
                0 <= k < stand.landed.len() ==> #[trigger] next.landed[k] == stand.landed[k]
            &&& landed.commit_oid == image.commit_oid
            &&& landed.trailer == stand.trailer
            &&& landed.blob_offset == blob_offset
            &&& landed.segment.id == stand.id
            &&& landed.segment.base_offset == image.base_offset
            &&& landed.segment.image_len == image.image_len
            &&& !next.begun && next.trailer.len() == 0
            &&& next.images == stand.images && next.id == stand.id
        }),
{
}

/// An entry that is written is told of last, with the length that it inflates
/// to; everything else stays as it is.
pub proof fn an_entry_that_is_written_is_told_of(stand: Stand, length: u64)
    requires
        stand.landed.len() < stand.images.len(),
        stand.trailer.len() < stand.images[stand.landed.len() as int].entries.len(),
    ensures
        ({
            let next = stand.advance(length);
            let entry = stand.images[stand.landed.len() as int].entries[stand.trailer.len() as int];
            &&& next.trailer.len() == stand.trailer.len() + 1
            &&& next.trailer.drop_last() == stand.trailer
            &&& next.trailer.last().sha == entry.oid
            &&& next.trailer.last().kind == entry.kind
            &&& next.trailer.last().length == length
            &&& next.trailer.last().offset == entry.offset
            &&& next.trailer.last().entry_len == entry.entry_len
            &&& next.landed == stand.landed && next.images == stand.images && next.id == stand.id
            &&& next.begun == stand.begun
            &&& stand.begin().begun && stand.begin().landed == stand.landed
                && stand.begin().images == stand.images && stand.begin().id == stand.id
                && stand.begin().trailer == stand.trailer
        }),
{
    assert(stand.advance(length).trailer.drop_last() =~= stand.trailer);
}

/// What is watched of a header is its front: all of it where it is short, and as
/// much as is asked for where it is not.
pub proof fn a_header_is_watched_from_its_front(run: Seq<u8>, max: usize)
    ensures
        front(run, max).len() == (if run.len() <= max {
            run.len()
        } else {
            max as nat
        }),
        forall|i: int| 0 <= i < front(run, max).len() ==> #[trigger] front(run, max)[i] == run[i],
{
}

/// Two sizes together are their sum, or the most there is where that is more.
pub proof fn sizes_add_up(a: u64, b: u64)
    ensures
        a + b <= u64::MAX ==> topped(a, b) == a + b,
        a + b > u64::MAX ==> topped(a, b) == u64::MAX,
        a + b <= usize::MAX ==> capped(a as nat, b as nat) == a + b,
        a + b > usize::MAX ==> capped(a as nat, b as nat) == usize::MAX,
{
}

/// Whether an object is asked for against a base, or whole, among `wants`.
pub open spec fn is_asked_for(wants: Seq<Want>, oid: ObjectId, base: Option<ObjectId>) -> bool {
    exists|i: int|
        0 <= i < wants.len() && (#[trigger] wants[i]).oid == oid && wants[i].base == base
}

/// Every encoding that is wanted is asked for: an object is asked for against
/// each of the bases that it is wanted against, and against no other.
pub proof fn each_encoding_wanted_is_asked_for(
    list: Seq<Want>,
    more: Seq<Want>,
    oid: ObjectId,
    base: Option<ObjectId>,
)
    ensures
        is_asked_for(with_wants(list, more), oid, base) <==> is_asked_for(list, oid, base)
            || is_asked_for(more, oid, base),
        list.is_prefix_of(with_wants(list, more)),
    decreases more.len(),
{
    if more.len() > 0 {
        let rest = more.drop_last();
        let last = more.last();
        let before = with_wants(list, rest);
        let after = with_wants(list, more);
        each_encoding_wanted_is_asked_for(list, rest, oid, base);
        assert(more[more.len() - 1] == last);
        if is_asked_for(rest, oid, base) {
            let i = choose|i: int|
                0 <= i < rest.len() && (#[trigger] rest[i]).oid == oid && rest[i].base == base;
            assert(more[i] == rest[i]);
        }
        if is_asked_for(more, oid, base) && !(last.oid == oid && last.base == base) {
            let i = choose|i: int|
                0 <= i < more.len() && (#[trigger] more[i]).oid == oid && more[i].base == base;
            assert(rest[i] == more[i]);
        }
        if is_asked_for(before, oid, base) {
            let i = choose|i: int|
                0 <= i < before.len() && (#[trigger] before[i]).oid == oid && before[i].base
                    == base;
            assert(after[i] == before[i]);
        }
        if is_asked_for(after, oid, base) {
            let i = choose|i: int|
                0 <= i < after.len() && (#[trigger] after[i]).oid == oid && after[i].base == base;
            if i < before.len() {
                assert(before[i] == after[i]);
            }
        }
        if last.oid == oid && last.base == base {
            if after.len() > before.len() {
                assert(after[before.len() as int] == last);
            } else {
                let i = choose|i: int|
                    0 <= i < before.len() && crate::ingest::wants::pair_of(#[trigger] before[i])
                        == crate::ingest::wants::pair_of(last);
                assert(before[i].oid == oid && before[i].base == base);
            }
        }
        assert(before.is_prefix_of(after));
        assert(list.is_prefix_of(after)) by {
            assert forall|i: int| 0 <= i < list.len() implies list[i] == after[i] by {
                assert(list[i] == before[i]);
                assert(before[i] == after[i]);
            }
            assert(list =~= after.subrange(0, list.len() as int));
        }
    }
}

/// What is stored as a delta is what lies in a pack against a base.
pub proof fn a_stored_delta_lies_against_a_base(meta: ObjectMeta)
    ensures
        is_delta(meta) <==> meta.location is Some && meta.location->0.image.base is Some,
{
}

/// An encoding costs what its object is in size, and its base with it where it
/// is encoded against one.
pub proof fn an_encoding_costs_its_object_and_its_base<F: Fn(ObjectId) -> u64>(
    size_of: F,
    sizes: Map<ObjectId, u64>,
    want: Want,
    cost: u64,
)
    requires
        is_cost(size_of, want, cost),
        forall|oid: ObjectId, n: u64| #[trigger]
            call_ensures(size_of, (oid,), n) ==> n == sizes[oid],
    ensures
        want.base is None ==> cost == sizes[want.oid],
        want.base matches Some(base) ==> sizes[want.oid] + sizes[base] <= u64::MAX ==> cost
            == sizes[want.oid] + sizes[base],
{
}

} // verus!
