//! Where the bytes of each entry come from, where they go, and what is recorded
//! of them once they are written.

use vstd::prelude::*;

use crate::error::Error;
use crate::ingest::append::model::NewCommit;
use crate::ingest::graph::ObjectRefs;
use crate::ingest::pack::WirePack;
use crate::ingest::plan::{DeltaEntry, EntrySource};
use crate::ingest::staging::encodings::StagedObjectLocation;
use crate::ingest::upload::choice::{
    all_to_look_up, choice, choices, image_entries, is_planned, to_look_up, Body, Chosen,
    PlannedCommit,
};
use crate::ingest::upload::layout::{
    body_len, framed_len, header_fields, image_laid, images_laid, EntryView, FramedCommit,
    PlannedImage,
};
use crate::ingest::upload::promote::{
    connected_in, entry_bases, folded, image_bases, is_commit_for, place_in, tags_of, with_entries,
    with_entry, ObjectView, PromotedCommit, PromotedImage,
};
use crate::ingest::upload::pump::TrailerEntry;
use crate::ingest::lists::lemma_filtered;
use crate::model::{ObjectMeta, PackImageLocation};
use crate::object::ObjectId;

verus! {

/// Whether staging holds an object as encoded against a base, or whole.
pub open spec fn is_staged_as(
    index: Map<ObjectId, Map<Option<ObjectId>, StagedObjectLocation>>,
    oid: ObjectId,
    base: Option<ObjectId>,
) -> bool {
    index.contains_key(oid) && index[oid].contains_key(base)
}

/// Whether a body is the bytes at a place in staging.
pub open spec fn is_bytes_at(body: Body, at: StagedObjectLocation) -> bool {
    body matches Body::Staged { chunk_id, from, to, length } && {
        &&& chunk_id == at.chunk_id
        &&& from == at.offset
        &&& to == at.offset + at.compressed_len
        &&& length == at.decompressed_len
    }
}

/// An entry that arrived is written from the client's own bytes, against what it
/// arrived against and with the length that it inflates to.
pub proof fn an_entry_that_arrived_is_copied(
    entry: DeltaEntry,
    at: crate::ingest::plan::WireRef,
    packs: Seq<WirePack>,
    index: Map<ObjectId, Map<Option<ObjectId>, StagedObjectLocation>>,
    metas: Map<ObjectId, ObjectMeta>,
)
    requires
        entry.source == EntrySource::Wire(at),
    ensures
        choice(entry, packs, index, metas) matches Ok(chosen) ==> {
            let pack = packs[at.pack as int];
            &&& at.pack < packs.len() && at.at < pack.scanned().len()
            &&& chosen.oid == entry.oid && chosen.kind == entry.kind && chosen.base == entry.base
            &&& chosen.body matches Body::Wire { at: from, length, compressed_len }
            &&& from == at
            &&& length == pack.scanned()[at.at as int].decompressed_size
            &&& pack.body_of(at.at) matches Ok(body) && (body.len() <= u64::MAX ==> compressed_len
                == body.len())
        },
        choice(entry, packs, index, metas) is Ok <==> at.pack < packs.len()
            && packs[at.pack as int].body_of(at.at) is Ok,
{
}

/// An entry that was encoded here is written from staging against the base that
/// was planned; where that is not there, it is written whole, from staging and
/// else from where it is stored whole.
pub proof fn an_encoded_entry_is_written_from_staging(
    entry: DeltaEntry,
    packs: Seq<WirePack>,
    index: Map<ObjectId, Map<Option<ObjectId>, StagedObjectLocation>>,
    metas: Map<ObjectId, ObjectMeta>,
)
    requires
        entry.source is Encoded,
        forall|oid: ObjectId, base: Option<ObjectId>| #[trigger]
            is_staged_as(index, oid, base) ==> index[oid][base].offset
                + index[oid][base].compressed_len <= usize::MAX,
    ensures
        ({
            let chosen = choice(entry, packs, index, metas);
            let planned = is_staged_as(index, entry.oid, entry.base);
            let whole = is_staged_as(index, entry.oid, None);
            &&& chosen is Ok ==> chosen->Ok_0.oid == entry.oid && chosen->Ok_0.kind == entry.kind
            &&& planned ==> chosen is Ok && chosen->Ok_0.base == entry.base && is_bytes_at(
                chosen->Ok_0.body,
                index[entry.oid][entry.base],
            )
            &&& !planned && whole ==> chosen is Ok && chosen->Ok_0.base is None && is_bytes_at(
                chosen->Ok_0.body,
                index[entry.oid][None],
            )
            &&& !planned && !whole && chosen is Ok ==> {
                &&& chosen->Ok_0.base is None
                &&& metas.contains_key(entry.oid)
                &&& metas[entry.oid].location matches Some(at)
                &&& at.image.base is None
                &&& chosen->Ok_0.body matches Body::Indexed { segment, start, entry_len }
                &&& segment == at.segment.id
                &&& start == at.segment.base_offset + at.image.offset
                &&& entry_len == at.image.entry_len
            }
            &&& !planned && !whole ==> (chosen is Ok <==> metas.contains_key(entry.oid)
                && metas[entry.oid].location is Some
                && metas[entry.oid].location->0.image.base is None
                && metas[entry.oid].location->0.segment.base_offset
                + metas[entry.oid].location->0.image.offset <= u64::MAX)
        }),
{
    assert(is_staged_as(index, entry.oid, entry.base) ==> index[entry.oid][entry.base].offset
        + index[entry.oid][entry.base].compressed_len <= usize::MAX);
    assert(is_staged_as(index, entry.oid, None) ==> index[entry.oid][None].offset
        + index[entry.oid][None].compressed_len <= usize::MAX);
}

/// The entries of an image are chosen one for one, in their order.
pub proof fn each_entry_is_chosen(
    entries: Seq<DeltaEntry>,
    packs: Seq<WirePack>,
    index: Map<ObjectId, Map<Option<ObjectId>, StagedObjectLocation>>,
    metas: Map<ObjectId, ObjectMeta>,
)
    ensures
        match choices(entries, packs, index, metas) {
            Ok(chosen) => {
                &&& chosen.len() == entries.len()
                &&& forall|i: int|
                    0 <= i < entries.len() ==> choice(entries[i], packs, index, metas) == Ok::<
                        Chosen,
                        Error,
                    >(#[trigger] chosen[i]) && chosen[i].oid == entries[i].oid
            },
            Err(error) => exists|i: int|
                0 <= i < entries.len() && choice(#[trigger] entries[i], packs, index, metas)
                    == Err::<Chosen, Error>(error),
        },
    decreases entries.len(),
{
    if entries.len() > 0 {
        let rest = entries.drop_last();
        each_entry_is_chosen(rest, packs, index, metas);
        assert(entries[entries.len() - 1] == entries.last());
        match choices(entries, packs, index, metas) {
            Ok(chosen) => {
                let earlier = choices(rest, packs, index, metas)->Ok_0;
                assert forall|i: int| 0 <= i < entries.len() implies choice(
                    entries[i],
                    packs,
                    index,
                    metas,
                ) == Ok::<Chosen, Error>(#[trigger] chosen[i]) && chosen[i].oid
                    == entries[i].oid by {
                    if i < rest.len() {
                        assert(chosen[i] == earlier[i]);
                        assert(rest[i] == entries[i]);
                    }
                }
            },
            Err(error) => {
                if choices(rest, packs, index, metas) is Err {
                    let i = choose|i: int|
                        0 <= i < rest.len() && choice(#[trigger] rest[i], packs, index, metas)
                            == Err::<Chosen, Error>(error);
                    assert(entries[i] == rest[i]);
                }
            },
        }
    }
}

/// An image holds its commit first, whole, and then what was planned of it.
pub proof fn an_image_begins_with_its_commit(commit: PlannedCommit<'_>)
    ensures
        image_entries(commit).len() == commit.entries@.len() + 1,
        image_entries(commit)[0].oid == commit.commit_oid,
        image_entries(commit)[0].kind is Commit,
        image_entries(commit)[0].base is None,
        image_entries(commit)[0].source == commit.source,
        forall|i: int|
            0 <= i < commit.entries@.len() ==> #[trigger] image_entries(commit)[i + 1]
                == commit.entries@[i],
{
}

/// Whether an entry of a commit is not in hand: it did not arrive, and staging
/// does not hold it against the base that was planned.
pub open spec fn is_not_in_hand(
    commits: Seq<PlannedCommit<'_>>,
    index: Map<ObjectId, Map<Option<ObjectId>, StagedObjectLocation>>,
    oid: ObjectId,
) -> bool {
    exists|c: int, i: int|
        0 <= c < commits.len() && 0 <= i < commits[c].entries@.len() && is_lacking(
            #[trigger] commits[c].entries@[i],
            index,
            oid,
        )
}

/// Whether an entry is of an object and is not in hand.
pub open spec fn is_lacking(
    entry: DeltaEntry,
    index: Map<ObjectId, Map<Option<ObjectId>, StagedObjectLocation>>,
    oid: ObjectId,
) -> bool {
    entry.oid == oid && entry.source is Encoded && !is_staged_as(index, entry.oid, entry.base)
}

proof fn lemma_to_look_up(
    entries: Seq<DeltaEntry>,
    index: Map<ObjectId, Map<Option<ObjectId>, StagedObjectLocation>>,
    oid: ObjectId,
)
    ensures
        to_look_up(entries, index).contains(oid) <==> exists|i: int|
            0 <= i < entries.len() && is_lacking(#[trigger] entries[i], index, oid),
{
    let open = |entry: DeltaEntry| crate::ingest::upload::choice::may_be_stored(entry, index);
    let id = |entry: DeltaEntry| entry.oid;
    let kept = entries.filter(open);
    let oids = to_look_up(entries, index);
    assert(oids =~= kept.map_values(id));
    lemma_filtered(entries, open);
    if oids.contains(oid) {
        let k = choose|k: int| 0 <= k < oids.len() && oids[k] == oid;
        assert(kept.contains(kept[k]));
        let i = choose|i: int| 0 <= i < entries.len() && entries[i] == kept[k];
        assert(is_lacking(entries[i], index, oid));
    }
    if exists|i: int| 0 <= i < entries.len() && is_lacking(#[trigger] entries[i], index, oid) {
        let i = choose|i: int|
            0 <= i < entries.len() && is_lacking(#[trigger] entries[i], index, oid);
        assert(entries.contains(entries[i]) && open(entries[i]));
        assert(kept.contains(entries[i]));
        let k = choose|k: int| 0 <= k < kept.len() && kept[k] == entries[i];
        assert(oids[k] == oid);
    }
}

/// What is looked up in the store is every object that is not in hand, and
/// nothing else.
pub proof fn what_is_not_in_hand_is_looked_up(
    commits: Seq<PlannedCommit<'_>>,
    index: Map<ObjectId, Map<Option<ObjectId>, StagedObjectLocation>>,
    oid: ObjectId,
)
    ensures
        all_to_look_up(commits, index).contains(oid) <==> is_not_in_hand(commits, index, oid),
    decreases commits.len(),
{
    if commits.len() > 0 {
        let rest = commits.drop_last();
        let last = commits.last();
        let earlier = all_to_look_up(rest, index);
        let own = to_look_up(last.entries@, index);
        let all = all_to_look_up(commits, index);
        what_is_not_in_hand_is_looked_up(rest, index, oid);
        lemma_to_look_up(last.entries@, index, oid);
        assert(commits[commits.len() - 1] == last);
        if all.contains(oid) {
            let k = choose|k: int| 0 <= k < all.len() && all[k] == oid;
            if k < earlier.len() {
                assert(earlier[k] == oid);
                let (c, i) = choose|c: int, i: int|
                    0 <= c < rest.len() && 0 <= i < rest[c].entries@.len() && is_lacking(
                        #[trigger] rest[c].entries@[i],
                        index,
                        oid,
                    );
                assert(commits[c] == rest[c]);
                assert(is_lacking(commits[c].entries@[i], index, oid));
            } else {
                assert(own[k - earlier.len()] == oid);
                let i = choose|i: int|
                    0 <= i < last.entries@.len() && is_lacking(
                        #[trigger] last.entries@[i],
                        index,
                        oid,
                    );
                assert(is_lacking(commits[commits.len() - 1].entries@[i], index, oid));
            }
        }
        if is_not_in_hand(commits, index, oid) {
            let (c, i) = choose|c: int, i: int|
                0 <= c < commits.len() && 0 <= i < commits[c].entries@.len() && is_lacking(
                    #[trigger] commits[c].entries@[i],
                    index,
                    oid,
                );
            if c < rest.len() {
                assert(rest[c] == commits[c]);
                assert(is_lacking(rest[c].entries@[i], index, oid));
                let k = choose|k: int| 0 <= k < earlier.len() && earlier[k] == oid;
                assert(all[k] == oid);
            } else {
                assert(is_lacking(last.entries@[i], index, oid));
                let k = choose|k: int| 0 <= k < own.len() && own[k] == oid;
                assert(all[earlier.len() + k] == oid);
            }
        }
    }
}

/// The header of an entry says what the entry is, and how long it is on either
/// side of compression; what is copied with its header has none made.
pub proof fn a_header_says_what_its_entry_is(chosen: Chosen)
    requires
        chosen.body matches Body::Staged { from, to, .. } ==> from <= to,
    ensures
        chosen.body is Indexed <==> header_fields(chosen) is None,
        header_fields(chosen) matches Some(fields) ==> {
            &&& fields.oid == chosen.oid
            &&& fields.kind == chosen.kind
            &&& fields.base == chosen.base
            &&& match chosen.body {
                Body::Wire { length, compressed_len, .. } => fields.length == length
                    && fields.compressed_len == compressed_len && body_len(chosen.body)
                    == compressed_len,
                Body::Staged { from, to, length, .. } => fields.length == length
                    && fields.compressed_len == to - from && body_len(chosen.body) == to - from,
                Body::Indexed { entry_len, .. } => true,
            }
        },
        chosen.body matches Body::Indexed { entry_len, .. } ==> body_len(chosen.body) == entry_len,
{
}

/// An image holds the entries that were chosen, in their order: each as the
/// object that it is, against the same base, with its header and its bytes, and
/// as long as the two are.
pub proof fn an_image_holds_its_entries(
    commit: FramedCommit,
    header_size: u64,
    base_offset: u64,
    i: int,
)
    requires
        image_laid(commit, header_size, base_offset) is Ok,
        0 <= i < commit.entries@.len(),
    ensures
        ({
            let image = image_laid(commit, header_size, base_offset)->Ok_0;
            let framed = commit.entries@[i];
            let entry = image.entries[i];
            &&& image.commit_oid == commit.commit_oid
            &&& image.base_offset == base_offset
            &&& image.entry_count == commit.entries@.len()
            &&& image.entries.len() == commit.entries@.len()
            &&& entry.oid == framed.chosen.oid
            &&& entry.kind == framed.chosen.kind
            &&& entry.base == framed.chosen.base
            &&& entry.body == framed.chosen.body
            &&& entry.header == framed.header@
            &&& entry.entry_len == framed.header@.len() + body_len(framed.chosen.body)
        }),
{
    lemma_framed(commit.entries@, i);
}

proof fn lemma_framed(entries: Seq<crate::ingest::upload::layout::Framed>, i: int)
    requires
        0 <= i < entries.len(),
    ensures
        framed_len(entries[i]) <= crate::ingest::upload::layout::framed_lens(entries),
    decreases entries.len(),
{
    if i < entries.len() - 1 {
        lemma_framed(entries.drop_last(), i);
        assert(entries.drop_last()[i] == entries[i]);
    }
}

/// Each image of a plan is that of its own commit.
pub proof fn each_commit_has_its_image(
    commits: Seq<FramedCommit>,
    header_size: u64,
    target: u64,
    i: int,
)
    requires
        images_laid(commits, header_size, target) is Ok,
        0 <= i < commits.len(),
    ensures
        ({
            let images = images_laid(commits, header_size, target)->Ok_0.images;
            &&& images.len() == commits.len()
            &&& images[i].commit_oid == commits[i].commit_oid
            &&& images[i].entry_count == commits[i].entries@.len()
            &&& images[i].entries.len() == commits[i].entries@.len()
            &&& image_laid(commits[i], header_size, images[i].base_offset) == Ok::<
                crate::ingest::upload::layout::ImageView,
                Error,
            >(images[i])
        }),
    decreases commits.len(),
{
    reveal_with_fuel(images_laid, 2);
    let rest = commits.drop_last();
    let before = images_laid(rest, header_size, target)->Ok_0;
    let images = images_laid(commits, header_size, target)->Ok_0.images;
    assert(before.images.len() == rest.len()) by {
        if rest.len() > 0 {
            each_commit_has_its_image(rest, header_size, target, 0);
        }
    }
    if i < rest.len() {
        each_commit_has_its_image(rest, header_size, target, i);
        assert(rest[i] == commits[i]);
        assert(images[i] == before.images[i]);
    } else {
        assert(commits.last() == commits[i]);
        assert(images[i] == images.last());
    }
}

/// Each entry of an image has the base that was planned for it.
pub proof fn each_entry_has_its_base(entries: Seq<EntryView>)
    requires
        forall|i: int, j: int|
            0 <= i < j < entries.len() ==> (#[trigger] entries[i]).oid != (
            #[trigger] entries[j]).oid,
    ensures
        forall|i: int|
            0 <= i < entries.len() ==> {
                &&& entry_bases(entries).contains_key((#[trigger] entries[i]).oid)
                &&& entry_bases(entries)[entries[i].oid] == entries[i].base
            },
        forall|oid: ObjectId| #[trigger]
            entry_bases(entries).contains_key(oid) ==> exists|i: int|
                0 <= i < entries.len() && (#[trigger] entries[i]).oid == oid,
    decreases entries.len(),
{
    if entries.len() > 0 {
        let rest = entries.drop_last();
        let last = entries.last();
        assert forall|i: int, j: int| 0 <= i < j < rest.len() implies (#[trigger] rest[i]).oid != (
        #[trigger] rest[j]).oid by {
            assert(entries[i].oid != entries[j].oid);
        }
        each_entry_has_its_base(rest);
        assert(entries[entries.len() - 1] == last);
        assert forall|i: int| 0 <= i < entries.len() implies {
            &&& entry_bases(entries).contains_key((#[trigger] entries[i]).oid)
            &&& entry_bases(entries)[entries[i].oid] == entries[i].base
        } by {
            if i < rest.len() {
                assert(rest[i] == entries[i]);
                assert(entries[i].oid != entries[entries.len() - 1].oid);
            }
        }
        assert forall|oid: ObjectId| #[trigger]
            entry_bases(entries).contains_key(oid) implies exists|i: int|
            0 <= i < entries.len() && (#[trigger] entries[i]).oid == oid by {
            if oid != last.oid {
                assert(entry_bases(rest).contains_key(oid));
                let k = choose|i: int| 0 <= i < rest.len() && (#[trigger] rest[i]).oid == oid;
                assert(entries[k].oid == oid);
            }
        }
    }
}

/// Each image of a plan has the bases of its own entries.
pub proof fn each_image_has_its_bases(images: Seq<PlannedImage>)
    requires
        forall|i: int, j: int|
            0 <= i < j < images.len() ==> (#[trigger] images[i]).commit_oid != (
            #[trigger] images[j]).commit_oid,
    ensures
        forall|i: int|
            0 <= i < images.len() ==> {
                &&& image_bases(images).contains_key((#[trigger] images[i]).commit_oid)
                &&& image_bases(images)[images[i].commit_oid] == entry_bases(images[i]@.entries)
            },
    decreases images.len(),
{
    if images.len() > 0 {
        let rest = images.drop_last();
        assert forall|i: int, j: int| 0 <= i < j < rest.len() implies (
        #[trigger] rest[i]).commit_oid != (#[trigger] rest[j]).commit_oid by {
            assert(images[i].commit_oid != images[j].commit_oid);
        }
        each_image_has_its_bases(rest);
        assert forall|i: int| 0 <= i < images.len() implies {
            &&& image_bases(images).contains_key((#[trigger] images[i]).commit_oid)
            &&& image_bases(images)[images[i].commit_oid] == entry_bases(images[i]@.entries)
        } by {
            if i < rest.len() {
                assert(rest[i] == images[i]);
                assert(images[i].commit_oid != images[images.len() - 1].commit_oid);
            }
        }
    }
}

/// Whether a place is that of an entry in a pack.
pub open spec fn is_place_of(
    place: PackImageLocation,
    entry: TrailerEntry,
    pack: ObjectId,
    bases: Map<ObjectId, Map<ObjectId, Option<ObjectId>>>,
) -> bool {
    &&& place.pack_sha == pack
    &&& place.offset == entry.offset
    &&& place.entry_len == entry.entry_len
    &&& if bases.contains_key(pack) && bases[pack].contains_key(entry.sha) {
        place.base == bases[pack][entry.sha]
    } else {
        place.base is None
    }
}

/// Whether an object has a place among its own.
pub open spec fn has_place_of(
    objects: Map<ObjectId, ObjectView>,
    entry: TrailerEntry,
    pack: ObjectId,
    bases: Map<ObjectId, Map<ObjectId, Option<ObjectId>>>,
) -> bool {
    &&& objects.contains_key(entry.sha)
    &&& exists|k: int|
        0 <= k < objects[entry.sha].locations.len() && is_place_of(
            #[trigger] objects[entry.sha].locations[k],
            entry,
            pack,
            bases,
        )
}

proof fn lemma_places_stay(
    objects: Map<ObjectId, ObjectView>,
    entries: Seq<TrailerEntry>,
    pack_sha: ObjectId,
    bases: Option<Map<ObjectId, Option<ObjectId>>>,
    refs: Map<ObjectId, ObjectRefs>,
    oid: ObjectId,
)
    requires
        objects.contains_key(oid),
    ensures
        with_entries(objects, entries, pack_sha, bases, refs).contains_key(oid),
        objects[oid].locations.is_prefix_of(
            with_entries(objects, entries, pack_sha, bases, refs)[oid].locations,
        ),
    decreases entries.len(),
{
    if entries.len() > 0 {
        lemma_places_stay(objects, entries.drop_last(), pack_sha, bases, refs, oid);
    }
}

proof fn lemma_entries_placed(
    objects: Map<ObjectId, ObjectView>,
    entries: Seq<TrailerEntry>,
    pack: ObjectId,
    bases: Map<ObjectId, Map<ObjectId, Option<ObjectId>>>,
    refs: Map<ObjectId, ObjectRefs>,
    i: int,
)
    requires
        0 <= i < entries.len(),
    ensures
        has_place_of(
            with_entries(
                objects,
                entries,
                pack,
                crate::ingest::upload::promote::bases_for(bases, pack),
                refs,
            ),
            entries[i],
            pack,
            bases,
        ),
    decreases entries.len(),
{
    let own = crate::ingest::upload::promote::bases_for(bases, pack);
    let rest = entries.drop_last();
    let before = with_entries(objects, rest, pack, own, refs);
    let after = with_entries(objects, entries, pack, own, refs);
    if i < rest.len() {
        lemma_entries_placed(objects, rest, pack, bases, refs, i);
        assert(rest[i] == entries[i]);
        let sha = entries[i].sha;
        let k = choose|k: int|
            0 <= k < before[sha].locations.len() && is_place_of(
                #[trigger] before[sha].locations[k],
                entries[i],
                pack,
                bases,
            );
        assert(after[sha].locations[k] == before[sha].locations[k]);
    } else {
        let sha = entries[i].sha;
        let k = after[sha].locations.len() - 1;
        assert(after[sha].locations[k] == place_in(entries[i], pack, own));
    }
}

/// Every entry of an image but its commit's own is recorded as a place of its
/// object: in the image's pack, where it lies, as long as it is, and against the
/// base that it was written against.
pub proof fn each_entry_of_an_image_is_recorded(
    images: Seq<PromotedImage>,
    bases: Map<ObjectId, Map<ObjectId, Option<ObjectId>>>,
    refs: Map<ObjectId, ObjectRefs>,
    i: int,
    k: int,
)
    requires
        folded(images, bases, refs) is Ok,
        0 <= i < images.len(),
        1 <= k < images[i].trailer@.len(),
    ensures
        has_place_of(
            folded(images, bases, refs)->Ok_0.objects,
            images[i].trailer@[k],
            images[i].commit_oid,
            bases,
        ),
    decreases images.len(),
{
    let rest = images.drop_last();
    let last = images.last();
    let before = folded(rest, bases, refs)->Ok_0;
    let after = folded(images, bases, refs)->Ok_0;
    let own = crate::ingest::upload::promote::bases_for(bases, last.commit_oid);
    if i < rest.len() {
        assert(rest[i] == images[i]);
        each_entry_of_an_image_is_recorded(rest, bases, refs, i, k);
        let entry = images[i].trailer@[k];
        let at = choose|at: int|
            0 <= at < before.objects[entry.sha].locations.len() && is_place_of(
                #[trigger] before.objects[entry.sha].locations[at],
                entry,
                images[i].commit_oid,
                bases,
            );
        lemma_places_stay(
            before.objects,
            last.trailer@.skip(1),
            last.commit_oid,
            own,
            refs,
            entry.sha,
        );
        assert(after.objects[entry.sha].locations[at] == before.objects[entry.sha].locations[at]);
    } else {
        assert(last.trailer@.skip(1)[k - 1] == images[i].trailer@[k]);
        lemma_entries_placed(
            before.objects,
            last.trailer@.skip(1),
            last.commit_oid,
            bases,
            refs,
            k - 1,
        );
    }
}

/// Each image gives its commit: as long as its own entry, which is the first,
/// and where the image was written. It fails exactly where an image is empty.
pub proof fn each_image_gives_its_commit(
    images: Seq<PromotedImage>,
    bases: Map<ObjectId, Map<ObjectId, Option<ObjectId>>>,
    refs: Map<ObjectId, ObjectRefs>,
)
    requires
        forall|i: int, j: int|
            0 <= i < j < images.len() ==> (#[trigger] images[i]).commit_oid != (
            #[trigger] images[j]).commit_oid,
    ensures
        folded(images, bases, refs) is Err <==> exists|i: int|
            0 <= i < images.len() && (#[trigger] images[i]).trailer@.len() == 0,
        folded(images, bases, refs) matches Ok(promoted) ==> forall|i: int|
            0 <= i < images.len() ==> {
                let image = #[trigger] images[i];
                &&& promoted.commits.contains_key(image.commit_oid)
                &&& promoted.commits[image.commit_oid].entry_len == image.trailer@[0].entry_len
                &&& promoted.commits[image.commit_oid].blob_offset == image.blob_offset
                &&& promoted.commits[image.commit_oid].segment == image.segment
            },
    decreases images.len(),
{
    if images.len() > 0 {
        let rest = images.drop_last();
        let last = images.last();
        assert forall|i: int, j: int| 0 <= i < j < rest.len() implies (
        #[trigger] rest[i]).commit_oid != (#[trigger] rest[j]).commit_oid by {
            assert(images[i].commit_oid != images[j].commit_oid);
        }
        each_image_gives_its_commit(rest, bases, refs);
        assert(images[images.len() - 1] == last);
        if folded(rest, bases, refs) is Err {
            let i = choose|i: int|
                0 <= i < rest.len() && (#[trigger] rest[i]).trailer@.len() == 0;
            assert(images[i] == rest[i]);
        }
        if exists|i: int| 0 <= i < images.len() && (#[trigger] images[i]).trailer@.len() == 0 {
            let i = choose|i: int|
                0 <= i < images.len() && (#[trigger] images[i]).trailer@.len() == 0;
            if i < rest.len() {
                assert(rest[i] == images[i]);
            }
        }
        if let Ok(promoted) = folded(images, bases, refs) {
            assert forall|i: int| 0 <= i < images.len() implies {
                let image = #[trigger] images[i];
                &&& promoted.commits.contains_key(image.commit_oid)
                &&& promoted.commits[image.commit_oid].entry_len == image.trailer@[0].entry_len
                &&& promoted.commits[image.commit_oid].blob_offset == image.blob_offset
                &&& promoted.commits[image.commit_oid].segment == image.segment
            } by {
                if i < rest.len() {
                    assert(rest[i] == images[i]);
                    assert(images[i].commit_oid != images[images.len() - 1].commit_oid);
                }
            }
        }
    }
}

/// An object that an entry brings is what the entry says, and a tree comes with
/// all of its own entries.
pub proof fn an_entry_brings_its_object(
    objects: Map<ObjectId, ObjectView>,
    entry: TrailerEntry,
    pack_sha: ObjectId,
    bases: Option<Map<ObjectId, Option<ObjectId>>>,
    refs: Map<ObjectId, ObjectRefs>,
)
    requires
        !objects.contains_key(entry.sha),
    ensures
        ({
            let brought = with_entry(objects, entry, pack_sha, bases, refs)[entry.sha];
            &&& brought.oid == entry.sha
            &&& brought.kind == entry.kind
            &&& brought.locations.len() == 1
            &&& brought.locations[0].pack_sha == pack_sha
            &&& brought.locations[0].offset == entry.offset
            &&& brought.locations[0].entry_len == entry.entry_len
            &&& entry.kind is Tree && refs.contains_key(entry.sha) ==> (
            refs[entry.sha] matches ObjectRefs::Tree(children) ==> forall|k: int|
                0 <= k < children@.len() && !(#[trigger] children@[k]).is_commit
                    ==> brought.children.contains(children@[k].oid))
            &&& !(entry.kind is Tree) ==> brought.children.len() == 0
        }),
{
    if entry.kind is Tree && refs.contains_key(entry.sha) {
        if let ObjectRefs::Tree(children) = refs[entry.sha] {
            let brought = with_entry(objects, entry, pack_sha, bases, refs)[entry.sha];
            assert forall|k: int|
                0 <= k < children@.len() && !(
                #[trigger] children@[k]).is_commit implies brought.children.contains(
                children@[k].oid,
            ) by {
                crate::laws::connectivity::a_tree_needs_its_own_entries(
                    children@,
                    children@[k].oid,
                );
            }
        }
    }
}

/// What is recorded of a commit is what was read of it, with all of its parents,
/// and where it was written.
pub proof fn a_commit_is_what_was_read_of_it(
    commit: NewCommit,
    refs: ObjectRefs,
    promoted: PromotedCommit,
)
    requires
        is_commit_for(commit, refs, promoted),
    ensures
        refs is Commit,
        commit.root_tree == refs->root_tree,
        commit.parents@.len() == refs->parents@.len(),
        forall|k: int|
            0 <= k < refs->parents@.len() ==> #[trigger] commit.parents@[k] == refs->parents@[k],
        commit.committer_date == refs->committer_date,
        commit.entry_len == promoted.entry_len,
        commit.blob_offset == promoted.blob_offset,
        commit.segment == promoted.segment,
{
}

/// The commits that a push records are its own that are whole, each with all of
/// its parents.
pub proof fn each_connected_commit_has_its_parents(
    refs: Map<ObjectId, ObjectRefs>,
    connected: Set<ObjectId>,
    oid: ObjectId,
)
    ensures
        connected_in(refs, connected).contains_key(oid) <==> connected.contains(oid)
            && refs.contains_key(oid) && refs[oid] is Commit,
        connected_in(refs, connected).contains_key(oid) ==> connected_in(refs, connected)[oid]
            == refs[oid]->parents@,
{
}

/// The tags to store are those that the push brings and staging holds whole,
/// each where it is held.
pub proof fn each_staged_tag_is_stored(
    entries: Seq<(ObjectId, ObjectRefs)>,
    index: Map<ObjectId, Map<Option<ObjectId>, StagedObjectLocation>>,
    oid: ObjectId,
    at: StagedObjectLocation,
)
    ensures
        tags_of(entries, index).contains((oid, at)) <==> is_staged_as(index, oid, None)
            && index[oid][None] == at && exists|i: int|
            0 <= i < entries.len() && (#[trigger] entries[i]).0 == oid && entries[i].1 is Tag,
{
    let open = |entry: (ObjectId, ObjectRefs)|
        entry.1 is Tag && crate::ingest::upload::choice::staged_of(index, entry.0).contains_key(
            None,
        );
    let pair = |entry: (ObjectId, ObjectRefs)|
        (entry.0, crate::ingest::upload::choice::staged_of(index, entry.0)[None]);
    let kept = entries.filter(open);
    let tags = tags_of(entries, index);
    assert(tags =~= kept.map_values(pair));
    lemma_filtered(entries, open);
    if tags.contains((oid, at)) {
        let k = choose|k: int| 0 <= k < tags.len() && tags[k] == (oid, at);
        assert(tags[k] == pair(kept[k]));
        assert(kept.contains(kept[k]));
        let i = choose|i: int| 0 <= i < entries.len() && entries[i] == kept[k];
        assert(entries[i].0 == oid);
    }
    if is_staged_as(index, oid, None) && index[oid][None] == at && exists|i: int|
        0 <= i < entries.len() && (#[trigger] entries[i]).0 == oid && entries[i].1 is Tag {
        let i = choose|i: int|
            0 <= i < entries.len() && (#[trigger] entries[i]).0 == oid && entries[i].1 is Tag;
        assert(entries.contains(entries[i]) && open(entries[i]));
        assert(kept.contains(entries[i]));
        let k = choose|k: int| 0 <= k < kept.len() && kept[k] == entries[i];
        assert(tags[k] == pair(kept[k]));
    }
}

/// A commit is planned with what was decided of its own entry, or else encoded,
/// and with the entries of its own pack, or none.
pub proof fn a_commit_is_planned_with_its_entries(
    commits: Map<ObjectId, EntrySource>,
    packs: Map<ObjectId, Vec<DeltaEntry>>,
    oid: ObjectId,
    planned: PlannedCommit<'_>,
)
    requires
        is_planned(commits, packs, oid, planned),
    ensures
        planned.commit_oid == oid,
        commits.contains_key(oid) ==> planned.source == commits[oid],
        !commits.contains_key(oid) ==> planned.source is Encoded,
        packs.contains_key(oid) ==> planned.entries@ == packs[oid]@,
        !packs.contains_key(oid) ==> planned.entries@.len() == 0,
{
}

} // verus!
