//! What walking the index reaches, and what joining two indexes keeps.

use vstd::prelude::*;

use crate::ingest::append::assemble::all_parents;
use crate::ingest::append::attempt::{brings_nothing, trusted};
use crate::ingest::append::model::{NewCommit, NewObject, RecordedCommit};
use crate::ingest::append::objects::{all_placed, asked_as, Relevant};
use crate::ingest::connectivity::is_recorded;
use crate::laws::indexing::covers;
use crate::laws::recording::bare;
use crate::model::{Identity, ObjectMeta, ObjectSeq};
use crate::object::ObjectId;
use crate::objects::format::ObjectView;
use crate::objects::index::{all_reduced, index_join, joined};
use crate::objects::location::{one_per_pack, with_locations, Location};
use crate::objects::read::introducing_of;
use crate::objects::walk::{as_hop, blobs_below, chain_from, lacks_at, trees_below, TreeWalkState};

verus! {

/// Whether a tree of the index has a tree among its entries.
pub open spec fn has_subtree(index: Map<u64, ObjectView>, tree: u64, seq: u64) -> bool {
    index.contains_key(tree) && index[tree].children.trees.contains(seq)
}

/// Whether a tree of the index has a blob among its entries.
pub open spec fn has_file(index: Map<u64, ObjectView>, tree: u64, seq: u64) -> bool {
    index.contains_key(tree) && index[tree].children.blobs.contains(seq)
}

/// A step from a set of trees meets the entries of every one of them and nothing
/// else: all of them are seen after it, and the trees among them that were not
/// seen before are where the next step starts.
pub proof fn a_step_meets_every_entry(state: TreeWalkState, index: Map<u64, ObjectView>, seq: u64)
    ensures
        ({
            let next = state.stepped(index);
            let met = exists|tree: u64|
                state.frontier.contains(tree) && #[trigger] has_subtree(index, tree, seq);
            let found = exists|tree: u64|
                state.frontier.contains(tree) && #[trigger] has_file(index, tree, seq);
            &&& next.seen.trees.contains(seq) <==> state.seen.trees.contains(seq) || met
            &&& next.seen.blobs.contains(seq) <==> state.seen.blobs.contains(seq) || found
            &&& next.frontier.contains(seq) <==> met && !state.seen.trees.contains(seq)
        }),
{
    if exists|tree: u64| state.frontier.contains(tree) && #[trigger] has_subtree(index, tree, seq) {
        let tree = choose|tree: u64|
            state.frontier.contains(tree) && #[trigger] has_subtree(index, tree, seq);
        assert(crate::objects::read::children_in(index, tree).trees.contains(seq));
    }
    if trees_below(index, state.frontier).contains(seq) {
        let tree = choose|tree: u64|
            state.frontier.contains(tree) && (#[trigger] crate::objects::read::children_in(
                index,
                tree,
            )).trees.contains(seq);
        assert(has_subtree(index, tree, seq));
    }
    if exists|tree: u64| state.frontier.contains(tree) && #[trigger] has_file(index, tree, seq) {
        let tree = choose|tree: u64|
            state.frontier.contains(tree) && #[trigger] has_file(index, tree, seq);
        assert(crate::objects::read::children_in(index, tree).blobs.contains(seq));
    }
    if blobs_below(index, state.frontier).contains(seq) {
        let tree = choose|tree: u64|
            state.frontier.contains(tree) && (#[trigger] crate::objects::read::children_in(
                index,
                tree,
            )).blobs.contains(seq);
        assert(has_file(index, tree, seq));
    }
}

/// A chain begins with where its object was first stored and goes on with what
/// that is stored against, as far as it may; it is over where an object is whole
/// or has no place.
pub proof fn a_chain_goes_from_an_object_to_its_base(
    index: Map<u64, ObjectView>,
    seq: u64,
    left: nat,
)
    ensures
        ({
            let chain = chain_from(index, Some(seq), left);
            &&& chain.len() <= left
            &&& chain.len() > 0 <==> left > 0 && introducing_of(index, seq) is Some
            &&& chain.len() > 0 ==> {
                &&& chain[0] == introducing_of(index, seq)->0
                &&& chain.skip(1) == chain_from(index, chain[0].base_seq, (left - 1) as nat)
                &&& chain[0].base_seq is None ==> chain.len() == 1
            }
            &&& left > 0 && !index.contains_key(seq) ==> lacks_at(index, Some(seq), left)
                == Some(seq)
        }),
    decreases left,
{
    let chain = chain_from(index, Some(seq), left);
    if left > 0 {
        if let Some(location) = introducing_of(index, seq) {
            let rest = chain_from(index, location.base_seq, (left - 1) as nat);
            if let Some(base) = location.base_seq {
                a_chain_goes_from_an_object_to_its_base(index, base, (left - 1) as nat);
            }
            assert(chain.skip(1) =~= rest);
        }
    }
}

/// A step of a chain is where its entry lies.
pub proof fn a_hop_is_where_its_entry_lies(l: Location)
    ensures
        as_hop(l).image.pack_sha == l.pack_oid,
        as_hop(l).image.offset == l.offset,
        as_hop(l).image.entry_len == l.entry_len,
        as_hop(l).image.base is None,
        as_hop(l).segment == l.segment,
{
}

proof fn lemma_gathered(places: Seq<Location>, place: Location)
    ensures
        one_per_pack(with_locations(Seq::empty(), places)),
        places.contains(place) ==> covers(with_locations(Seq::empty(), places), place),
        with_locations(Seq::empty(), places).contains(place) ==> places.contains(place),
{
    crate::laws::indexing::lemma_covers_many(Seq::empty(), places, place);
}

/// Taking in what another index knows of an object keeps what either knows: a
/// place in each pack that either has one in, unless a later one replaced it,
/// and the entries of both, and nothing that neither has.
pub proof fn absorbing_keeps_both(a: ObjectView, b: ObjectView, place: Location, n: u64)
    requires
        one_per_pack(a.locations),
        one_per_pack(b.locations),
    ensures
        ({
            let both = a.absorbing(b);
            &&& one_per_pack(both.locations)
            &&& a.locations.contains(place) || b.locations.contains(place) ==> covers(
                both.locations,
                place,
            )
            &&& both.locations.contains(place) ==> a.locations.contains(place)
                || b.locations.contains(place)
            &&& both.children.trees.contains(n) <==> a.children.trees.contains(n)
                || b.children.trees.contains(n)
            &&& both.children.blobs.contains(n) <==> a.children.blobs.contains(n)
                || b.children.blobs.contains(n)
        }),
{
    let all = a.locations + b.locations;
    lemma_gathered(all, place);
    if a.locations.contains(place) {
        let k = choose|k: int| 0 <= k < a.locations.len() && a.locations[k] == place;
        assert(all[k] == place);
        assert(!place.precedes(place));
        assert(covers(a.locations, place));
    }
    if b.locations.contains(place) {
        let k = choose|k: int| 0 <= k < b.locations.len() && b.locations[k] == place;
        assert(all[a.locations.len() + k] == place);
    }
    if all.contains(place) {
        let k = choose|k: int| 0 <= k < all.len() && all[k] == place;
        if k < a.locations.len() {
            assert(a.locations[k] == place);
        } else {
            assert(b.locations[k - a.locations.len()] == place);
        }
    }
}

/// Joining two indexes keeps every object of either, with what either knows of
/// it, and no other.
pub proof fn joining_keeps_both(
    a: Map<u64, ObjectView>,
    b: Map<u64, ObjectView>,
    seq: u64,
    place: Location,
    n: u64,
)
    requires
        all_reduced(a),
        all_reduced(b),
    ensures
        ({
            let both = index_join(a, b);
            &&& both.contains_key(seq) <==> a.contains_key(seq) || b.contains_key(seq)
            &&& a.contains_key(seq) && a[seq].locations.contains(place) ==> covers(
                both[seq].locations,
                place,
            )
            &&& b.contains_key(seq) && b[seq].locations.contains(place) ==> covers(
                both[seq].locations,
                place,
            )
            &&& both.contains_key(seq) ==> (both[seq].children.trees.contains(n)
                <==> a.contains_key(seq) && a[seq].children.trees.contains(n) || b.contains_key(seq)
                && b[seq].children.trees.contains(n))
            &&& both.contains_key(seq) ==> (both[seq].children.blobs.contains(n)
                <==> a.contains_key(seq) && a[seq].children.blobs.contains(n) || b.contains_key(seq)
                && b[seq].children.blobs.contains(n))
        }),
{
    let none = ObjectView::empty();
    assert(one_per_pack(none.locations));
    if a.contains_key(seq) {
        assert(a[seq].is_reduced());
        if a[seq].locations.contains(place) {
            lemma_own_cover(a[seq].locations, place);
        }
    }
    if b.contains_key(seq) {
        assert(b[seq].is_reduced());
        if b[seq].locations.contains(place) {
            lemma_own_cover(b[seq].locations, place);
        }
        absorbing_keeps_both(none, b[seq], place, n);
        if a.contains_key(seq) {
            absorbing_keeps_both(a[seq], b[seq], place, n);
        }
    }
    assert(!none.children.trees.contains(n) && !none.children.blobs.contains(n));
    if b != Map::<u64, ObjectView>::empty() && a != Map::<u64, ObjectView>::empty() {
        assert(index_join(a, b) == joined(a, b));
    }
}

proof fn lemma_own_cover(locations: Seq<Location>, place: Location)
    requires
        locations.contains(place),
    ensures
        covers(locations, place),
{
    let k = choose|k: int| 0 <= k < locations.len() && locations[k] == place;
    assert(!locations[k].precedes(place));
    assert(locations[k].pack_seq == place.pack_seq);
}

/// An object is recorded where it is in a pack, and a tag wherever it is known.
pub proof fn what_is_recorded_is_placed_or_a_tag(found: Map<ObjectId, ObjectMeta>, oid: ObjectId)
    ensures
        is_recorded(found, oid) <==> found.contains_key(oid) && (found[oid].location is Some
            || found[oid].kind is Tag),
{
}

/// The places of a push are good where each is in a pack that the push brings.
pub proof fn each_place_is_in_a_pack_of_the_push(
    objects: Seq<NewObject>,
    commits: Map<ObjectId, NewCommit>,
)
    ensures
        all_placed(objects, commits) <==> forall|i: int, k: int|
            0 <= i < objects.len() && 0 <= k < objects[i].locations@.len() ==> commits.contains_key(
                (#[trigger] objects[i].locations@[k]).pack_sha,
            ),
{
    if all_placed(objects, commits) {
        assert forall|i: int, k: int|
            0 <= i < objects.len() && 0 <= k < objects[i].locations@.len() implies commits.contains_key(
            (#[trigger] objects[i].locations@[k]).pack_sha,
        ) by {
            assert(crate::ingest::append::objects::is_placed(objects[i], commits));
        }
    }
    if forall|i: int, k: int|
        0 <= i < objects.len() && 0 <= k < objects[i].locations@.len() ==> commits.contains_key(
            (#[trigger] objects[i].locations@[k]).pack_sha,
        ) {
        assert forall|i: int| 0 <= i < objects.len() implies crate::ingest::append::objects::is_placed(
            #[trigger] objects[i],
            commits,
        ) by {
            assert forall|k: int| 0 <= k < objects[i].locations@.len() implies commits.contains_key(
                (#[trigger] objects[i].locations@[k]).pack_sha,
            ) by {
                assert(commits.contains_key(objects[i].locations@[k].pack_sha));
            }
        }
    }
}

/// The first attempt goes by what was read before it, and no later one does.
pub proof fn only_the_first_attempt_trusts_what_was_read(
    known: Map<ObjectId, Option<Identity>>,
    tried: u32,
    oid: ObjectId,
)
    ensures
        tried == 0 ==> trusted(known, tried) == known,
        tried > 0 ==> !trusted(known, tried).contains_key(oid),
{
}

/// A push brings nothing where it brings no commit and no object.
pub proof fn nothing_is_neither_commits_nor_objects(
    commits: Map<ObjectId, NewCommit>,
    objects: Seq<NewObject>,
)
    ensures
        brings_nothing(commits, objects) <==> objects.len() == 0 && forall|oid: ObjectId|
            !#[trigger] commits.contains_key(oid),
{
    if objects.len() == 0 && forall|oid: ObjectId| !#[trigger] commits.contains_key(oid) {
        assert(commits =~= Map::<ObjectId, NewCommit>::empty());
    }
}

/// An object with work is asked about under its own number and as its own kind,
/// where it has one that a row holds.
pub proof fn an_object_is_asked_about_by_its_number(
    work: Relevant,
    objects: Seq<NewObject>,
    seq_of: Map<ObjectId, ObjectSeq>,
)
    ensures
        ({
            let object = objects[work.at as int];
            match asked_as(work, objects, seq_of) {
                Some((oid, identity)) => {
                    &&& oid == object.oid
                    &&& seq_of.contains_key(oid)
                    &&& identity.seq == bare(seq_of[oid])
                    &&& identity.kind == object.kind
                },
                None => !seq_of.contains_key(object.oid) || bare(seq_of[object.oid]) > i64::MAX,
            }
        }),
{
}

/// The parents that are ranked are all those of the commits that are recorded.
pub proof fn every_parent_is_ranked(commits: Seq<RecordedCommit>, seq: i64)
    ensures
        all_parents(commits).contains(seq) <==> exists|i: int, k: int|
            0 <= i < commits.len() && 0 <= k < commits[i].parents@.len()
                && #[trigger] commits[i].parents@[k] == seq,
    decreases commits.len(),
{
    if commits.len() > 0 {
        let rest = commits.drop_last();
        let last = commits.last();
        let earlier = all_parents(rest);
        let all = all_parents(commits);
        every_parent_is_ranked(rest, seq);
        assert(commits[commits.len() - 1] == last);
        if all.contains(seq) {
            let k = choose|k: int| 0 <= k < all.len() && all[k] == seq;
            if k < earlier.len() {
                assert(earlier[k] == seq);
                let (i, j) = choose|i: int, j: int|
                    0 <= i < rest.len() && 0 <= j < rest[i].parents@.len()
                        && #[trigger] rest[i].parents@[j] == seq;
                assert(commits[i] == rest[i]);
                assert(commits[i].parents@[j] == seq);
            } else {
                assert(commits[commits.len() - 1].parents@[k - earlier.len()] == seq);
            }
        }
        if exists|i: int, k: int|
            0 <= i < commits.len() && 0 <= k < commits[i].parents@.len()
                && #[trigger] commits[i].parents@[k] == seq {
            let (i, k) = choose|i: int, k: int|
                0 <= i < commits.len() && 0 <= k < commits[i].parents@.len()
                    && #[trigger] commits[i].parents@[k] == seq;
            if i < rest.len() {
                assert(rest[i] == commits[i]);
                assert(rest[i].parents@[k] == seq);
                let j = choose|j: int| 0 <= j < earlier.len() && earlier[j] == seq;
                assert(all[j] == seq);
            } else {
                assert(all[earlier.len() + k] == seq);
            }
        }
    }
}

} // verus!
