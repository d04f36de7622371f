//! How the commits and objects of a push come by their numbers.

use vstd::prelude::*;

use crate::error::Error;
use crate::ingest::append::assemble::{
    assembled, commit_names, object_names, object_writes, AppendPlan, AssemblyView, RecordedView,
};
use crate::ingest::append::attempt::{
    all_counted, all_given_out, commits_at_hand, commits_to_number, counts, is_planned,
    objects_at_hand, Answers, Starts,
};
use crate::ingest::append::commits::numbered_from;
use crate::ingest::append::model::{NewCommit, NewObject};
use crate::ingest::append::objects::{
    as_seq, fresh_places, given_out, has_to_ask, is_kind, is_relevant, is_work, lacking, nth_seq,
    of_kind, work_places, Relevant,
};
use crate::ingest::append::records::{places_gained, CommitView};
use crate::ingest::lists::{lemma_filtered, lemma_push_contains};
use crate::laws::recording::{
    a_commit_is_recorded_whole, bare, counts_kind, each_commit_is_recorded, each_object_is_written,
    each_segment_is_named_once, gains, is_new_object, some_gains,
};
use crate::model::{Identity, ObjectMeta, ObjectSeq, PackImageLocation};
use crate::object::{Kind, ObjectId};
use crate::objects::location::Location;

verus! {

/// An identity is a number of its own kind exactly where it is not below zero
/// and no commit's, and then it is the same number.
pub proof fn a_number_keeps_its_kind(identity: Identity)
    ensures
        as_seq(identity) is Some <==> identity.seq >= 0 && identity.kind != Kind::Commit,
        as_seq(identity) is Some ==> {
            &&& counts_kind(as_seq(identity)->0, identity.kind)
            &&& bare(as_seq(identity)->0) == identity.seq
        },
{
}

/// Whether the graph holds an object, as its row says: in a pack, or as a tag.
pub open spec fn has_row(metas: Map<ObjectId, ObjectMeta>, oid: ObjectId) -> bool {
    metas.contains_key(oid) && (metas[oid].location is Some || metas[oid].kind is Tag)
}

/// Whether a place lies in a pack that is recorded now.
pub open spec fn is_now(place: PackImageLocation, recording: Seq<ObjectId>) -> bool {
    recording.contains(place.pack_sha)
}

/// Whether an object has a place in a pack that is recorded now.
pub open spec fn has_place_now(object: NewObject, recording: Seq<ObjectId>) -> bool {
    exists|k: int|
        0 <= k < object.locations@.len() && is_now(#[trigger] object.locations@[k], recording)
}

/// The places that an object gains are its own that lie in packs recorded now,
/// and all of them where each of them does.
pub proof fn an_object_gains_its_places_in_new_packs(object: NewObject, recording: Seq<ObjectId>)
    ensures
        forall|place: PackImageLocation| #[trigger]
            fresh_places(object, recording).contains(place) <==> object.locations@.contains(place)
                && is_now(place, recording),
        (forall|k: int|
            0 <= k < object.locations@.len() ==> is_now(
                #[trigger] object.locations@[k],
                recording,
            )) ==> fresh_places(object, recording) == object.locations@,
        fresh_places(object, recording).len() > 0 <==> has_place_now(object, recording),
{
    let keep = |place: PackImageLocation| recording.contains(place.pack_sha);
    let gained = fresh_places(object, recording);
    assert(gained == object.locations@.filter(keep));
    lemma_filtered(object.locations@, keep);
    if gained.len() > 0 {
        assert(gained.contains(gained[0]));
        let k = choose|k: int|
            0 <= k < object.locations@.len() && object.locations@[k] == gained[0];
        assert(is_now(object.locations@[k], recording));
    }
    if has_place_now(object, recording) {
        let k = choose|k: int|
            0 <= k < object.locations@.len() && is_now(#[trigger] object.locations@[k], recording);
        assert(object.locations@.contains(object.locations@[k]));
        assert(gained.contains(object.locations@[k]));
    }
    if forall|k: int|
        0 <= k < object.locations@.len() ==> is_now(#[trigger] object.locations@[k], recording) {
        assert forall|k: int| 0 <= k < object.locations@.len() implies keep(
            #[trigger] object.locations@[k],
        ) by {
            assert(is_now(object.locations@[k], recording));
        }
        lemma_filter_all(object.locations@, keep);
    }
}

/// What passes whole stays whole.
proof fn lemma_filter_all<A>(s: Seq<A>, keep: spec_fn(A) -> bool)
    requires
        forall|k: int| 0 <= k < s.len() ==> keep(#[trigger] s[k]),
    ensures
        s.filter(keep) == s,
    decreases s.len(),
{
    reveal(Seq::filter);
    if s.len() > 0 {
        let rest = s.drop_last();
        assert forall|k: int| 0 <= k < rest.len() implies keep(#[trigger] rest[k]) by {
            assert(rest[k] == s[k]);
        }
        lemma_filter_all(rest, keep);
        assert(keep(s[s.len() - 1]));
        assert(s.filter(keep) =~= s);
    } else {
        assert(s.filter(keep) =~= s);
    }
}

proof fn lemma_work_places(objects: Seq<NewObject>, recording: Seq<ObjectId>)
    ensures
        ({
            let places = work_places(objects, recording);
            &&& forall|i: int, j: int|
                0 <= i < j < places.len() ==> #[trigger] places[i] < #[trigger] places[j]
            &&& forall|i: int| #[trigger]
                places.contains(i) <==> 0 <= i < objects.len() && (objects[i].locations@.len() == 0
                    || has_place_now(objects[i], recording))
        }),
    decreases objects.len(),
{
    if objects.len() > 0 {
        let rest = objects.drop_last();
        let last = objects.last();
        let earlier = work_places(rest, recording);
        let places = work_places(objects, recording);
        lemma_work_places(rest, recording);
        an_object_gains_its_places_in_new_packs(last, recording);
        assert(is_work(last, recording) <==> last.locations@.len() == 0 || has_place_now(
            last,
            recording,
        ));
        assert forall|i: int| #[trigger]
            places.contains(i) <==> 0 <= i < objects.len() && (objects[i].locations@.len() == 0
                || has_place_now(objects[i], recording)) by {
            lemma_push_contains(earlier, objects.len() - 1, i);
            assert(earlier.contains(i) <==> 0 <= i < rest.len() && (rest[i].locations@.len() == 0
                || has_place_now(rest[i], recording)));
            if 0 <= i < rest.len() {
                assert(rest[i] == objects[i]);
            }
        }
        assert forall|i: int, j: int| 0 <= i < j < places.len() implies #[trigger] places[i]
            < #[trigger] places[j] by {
            assert(places[i] == earlier[i]);
            assert(earlier.contains(earlier[i]));
            if j < earlier.len() {
                assert(places[j] == earlier[j]);
            }
        }
    }
}

/// Whether the object at `at` has work.
pub open spec fn is_at_work(work: Seq<Relevant>, at: int) -> bool {
    exists|w: int| 0 <= w < work.len() && (#[trigger] work[w]).at == at
}

/// The objects with work are those with a place in a pack that is recorded now
/// and those with no place at all, each once and in their order, and each with
/// its places in the packs that are recorded now.
pub proof fn an_object_has_work_for_its_new_places(
    work: Seq<Relevant>,
    objects: Seq<NewObject>,
    recording: Seq<ObjectId>,
)
    requires
        is_relevant(work, objects, recording),
    ensures
        forall|i: int, j: int|
            0 <= i < j < work.len() ==> (#[trigger] work[i]).at < (#[trigger] work[j]).at,
        forall|at: int|
            0 <= at < objects.len() ==> (#[trigger] is_at_work(work, at) <==> (
            objects[at].locations@.len() == 0 || has_place_now(objects[at], recording))),
        forall|w: int, place: PackImageLocation|
            0 <= w < work.len() ==> (#[trigger] (#[trigger] work[w]).fresh@.contains(place) <==> (
            objects[work[w].at as int].locations@.contains(place) && is_now(place, recording))),
{
    let places = work_places(objects, recording);
    lemma_work_places(objects, recording);
    assert forall|i: int, j: int| 0 <= i < j < work.len() implies (#[trigger] work[i]).at < (
    #[trigger] work[j]).at by {
        assert(places[i] < places[j]);
    }
    assert forall|at: int| 0 <= at < objects.len() implies (#[trigger] is_at_work(work, at) <==> (
    objects[at].locations@.len() == 0 || has_place_now(objects[at], recording))) by {
        if is_at_work(work, at) {
            let w = choose|w: int| 0 <= w < work.len() && (#[trigger] work[w]).at == at;
            assert(places[w] == at);
            assert(places.contains(at));
        }
        if places.contains(at) {
            let w = choose|w: int| 0 <= w < places.len() && places[w] == at;
            assert(work[w].at == at);
        }
    }
    assert forall|w: int, place: PackImageLocation| 0 <= w < work.len() implies (
    #[trigger] (#[trigger] work[w]).fresh@.contains(place) <==> (
    objects[work[w].at as int].locations@.contains(place) && is_now(place, recording))) by {
        an_object_gains_its_places_in_new_packs(objects[work[w].at as int], recording);
    }
}

/// The commits to number are those of the push, in its order, that the graph
/// does not hold and that have no number.
pub proof fn only_new_commits_are_numbered(
    order: Seq<ObjectId>,
    metas: Map<ObjectId, ObjectMeta>,
    at_hand: Map<ObjectId, i64>,
)
    ensures
        forall|oid: ObjectId| #[trigger]
            commits_to_number(order, metas, at_hand).contains(oid) <==> order.contains(oid)
                && !has_row(metas, oid) && !at_hand.contains_key(oid),
{
    let open = |oid: ObjectId| !crate::ingest::append::commits::is_in_graph(metas, oid);
    let bare = |oid: ObjectId| !at_hand.contains_key(oid);
    lemma_filtered(order, open);
    lemma_filtered(order.filter(open), bare);
    assert forall|oid: ObjectId| #[trigger]
        commits_to_number(order, metas, at_hand).contains(oid) <==> order.contains(oid) && !has_row(
            metas,
            oid,
        ) && !at_hand.contains_key(oid) by {
        assert(order.filter(open).contains(oid) <==> order.contains(oid) && open(oid));
    }
}

/// Whether a push names a commit: it brings it, or a commit that it brings has
/// it as a parent.
pub open spec fn is_named(
    order: Seq<ObjectId>,
    commits: Map<ObjectId, NewCommit>,
    oid: ObjectId,
) -> bool {
    ||| order.contains(oid)
    ||| exists|child: ObjectId, k: int|
        commits.contains_key(child) && 0 <= k < commits[child].parents@.len()
            && #[trigger] commits[child].parents@[k] == oid
}

/// The number of a commit that is at hand is the one that was found, and else
/// the one that was read of it before as a commit; where there is neither, there
/// is none.
pub proof fn the_number_at_hand_is_the_one_found(
    order: Seq<ObjectId>,
    commits: Map<ObjectId, NewCommit>,
    known: Map<ObjectId, Option<Identity>>,
    found: Map<ObjectId, i64>,
    oid: ObjectId,
)
    ensures
        ({
            let at_hand = commits_at_hand(order, commits, known, found);
            let read = known.contains_key(oid) && known[oid] is Some && known[oid]->0.kind is Commit
                && is_named(order, commits, oid);
            &&& at_hand.contains_key(oid) <==> found.contains_key(oid) || read
            &&& found.contains_key(oid) ==> at_hand[oid] == found[oid]
            &&& !found.contains_key(oid) && read ==> at_hand[oid] == known[oid]->0.seq
        }),
{
    if exists|child: ObjectId, k: int|
        commits.contains_key(child) && 0 <= k < commits[child].parents@.len()
            && #[trigger] commits[child].parents@[k] == oid {
        let (child, k) = choose|child: ObjectId, k: int|
            commits.contains_key(child) && 0 <= k < commits[child].parents@.len()
                && #[trigger] commits[child].parents@[k] == oid;
        assert(commits.contains_key(child) && commits[child].parents@.contains(oid));
    }
    if crate::ingest::append::commits::is_parent(commits, oid) {
        let child = choose|child: ObjectId| #[trigger]
            commits.contains_key(child) && commits[child].parents@.contains(oid);
        let k = choose|k: int|
            0 <= k < commits[child].parents@.len() && commits[child].parents@[k] == oid;
        assert(commits[child].parents@[k] == oid);
    }
}

/// The commits that take numbers take the range that begins at `start`, one
/// each and in their order; every other commit keeps the number that it has.
pub proof fn commits_are_numbered_in_order(
    at_hand: Map<ObjectId, i64>,
    taking: Seq<ObjectId>,
    start: i64,
)
    requires
        taking.no_duplicates(),
        start + taking.len() <= i64::MAX + 1,
    ensures
        forall|k: int|
            0 <= k < taking.len() ==> {
                &&& numbered_from(at_hand, taking, start).contains_key(#[trigger] taking[k])
                &&& numbered_from(at_hand, taking, start)[taking[k]] == start + k
            },
        forall|oid: ObjectId|
            !taking.contains(oid) ==> {
                &&& (#[trigger] numbered_from(at_hand, taking, start).contains_key(oid)
                    <==> at_hand.contains_key(oid))
                &&& numbered_from(at_hand, taking, start)[oid] == at_hand[oid]
            },
    decreases taking.len(),
{
    if taking.len() > 0 {
        let rest = taking.drop_last();
        let last = taking.last();
        commits_are_numbered_in_order(at_hand, rest, start);
        assert(taking[taking.len() - 1] == last);
        assert(rest.push(last) =~= taking);
        assert forall|k: int| 0 <= k < taking.len() implies {
            &&& numbered_from(at_hand, taking, start).contains_key(#[trigger] taking[k])
            &&& numbered_from(at_hand, taking, start)[taking[k]] == start + k
        } by {
            if k < rest.len() {
                assert(rest[k] == taking[k]);
            }
        }
        assert forall|oid: ObjectId| !taking.contains(oid) implies {
            &&& (#[trigger] numbered_from(at_hand, taking, start).contains_key(oid)
                <==> at_hand.contains_key(oid))
            &&& numbered_from(at_hand, taking, start)[oid] == at_hand[oid]
        } by {
            lemma_push_contains(rest, last, oid);
            assert(numbered_from(at_hand, rest, start).contains_key(oid) <==> at_hand.contains_key(
                oid,
            ));
        }
    }
}

/// The objects that take numbers of a kind take the range that begins at
/// `start`, one each and in their order, as numbers of that kind; every other
/// object keeps what it has.
pub proof fn objects_are_numbered_in_order(
    at_hand: Map<ObjectId, ObjectSeq>,
    taking: Seq<ObjectId>,
    kind: Kind,
    start: i64,
)
    requires
        taking.no_duplicates(),
        kind != Kind::Commit,
        start >= 0,
        start + taking.len() <= i64::MAX + 1,
    ensures
        forall|k: int|
            0 <= k < taking.len() ==> {
                &&& given_out(at_hand, taking, kind, start).contains_key(#[trigger] taking[k])
                &&& counts_kind(given_out(at_hand, taking, kind, start)[taking[k]], kind)
                &&& bare(given_out(at_hand, taking, kind, start)[taking[k]]) == start + k
            },
        forall|oid: ObjectId|
            !taking.contains(oid) ==> (#[trigger] given_out(
                at_hand,
                taking,
                kind,
                start,
            ).contains_key(oid) <==> at_hand.contains_key(oid)),
        forall|oid: ObjectId|
            !taking.contains(oid) ==> #[trigger] given_out(at_hand, taking, kind, start)[oid]
                == at_hand[oid],
    decreases taking.len(),
{
    if taking.len() > 0 {
        let rest = taking.drop_last();
        let last = taking.last();
        objects_are_numbered_in_order(at_hand, rest, kind, start);
        assert(taking[taking.len() - 1] == last);
        assert(rest.push(last) =~= taking);
        assert forall|k: int| 0 <= k < taking.len() implies {
            &&& given_out(at_hand, taking, kind, start).contains_key(#[trigger] taking[k])
            &&& counts_kind(given_out(at_hand, taking, kind, start)[taking[k]], kind)
            &&& bare(given_out(at_hand, taking, kind, start)[taking[k]]) == start + k
        } by {
            if k < rest.len() {
                assert(rest[k] == taking[k]);
            }
        }
        assert forall|oid: ObjectId| !taking.contains(oid) implies (#[trigger] given_out(
            at_hand,
            taking,
            kind,
            start,
        ).contains_key(oid) <==> at_hand.contains_key(oid)) by {
            lemma_push_contains(rest, last, oid);
            assert(given_out(at_hand, rest, kind, start).contains_key(oid) <==> at_hand.contains_key(
                oid,
            ));
        }
        assert forall|oid: ObjectId| !taking.contains(oid) implies #[trigger] given_out(
            at_hand,
            taking,
            kind,
            start,
        )[oid] == at_hand[oid] by {
            lemma_push_contains(rest, last, oid);
            assert(given_out(at_hand, rest, kind, start)[oid] == at_hand[oid]);
        }
    }
}

/// Whether an object of a kind has work and no number.
pub open spec fn is_bare(
    work: Seq<Relevant>,
    objects: Seq<NewObject>,
    at_hand: Map<ObjectId, ObjectSeq>,
    oid: ObjectId,
    kind: Kind,
) -> bool {
    &&& !at_hand.contains_key(oid)
    &&& exists|w: int|
        0 <= w < work.len() && objects[(#[trigger] work[w]).at as int].oid == oid
            && objects[work[w].at as int].kind == kind
}

/// The objects that take numbers of a kind are those of that kind with work that
/// have none.
pub proof fn only_bare_objects_take_numbers(
    work: Seq<Relevant>,
    objects: Seq<NewObject>,
    at_hand: Map<ObjectId, ObjectSeq>,
    oid: ObjectId,
    kind: Kind,
)
    ensures
        lacking(work, objects, at_hand).contains((oid, kind)) <==> is_bare(
            work,
            objects,
            at_hand,
            oid,
            kind,
        ),
        of_kind(lacking(work, objects, at_hand), kind).contains(oid) <==> is_bare(
            work,
            objects,
            at_hand,
            oid,
            kind,
        ),
{
    let open = |one: Relevant| !at_hand.contains_key(objects[one.at as int].oid);
    let pair = |one: Relevant| (objects[one.at as int].oid, objects[one.at as int].kind);
    let kept = work.filter(open);
    let pairs = lacking(work, objects, at_hand);
    assert(pairs =~= kept.map_values(pair));
    let picked = pairs.filter(is_kind(kind));
    let oids = of_kind(pairs, kind);
    lemma_filtered(work, open);
    lemma_filtered(pairs, is_kind(kind));
    if pairs.contains((oid, kind)) {
        let k = choose|k: int| 0 <= k < pairs.len() && pairs[k] == (oid, kind);
        assert(pairs[k] == pair(kept[k]));
        assert(kept.contains(kept[k]));
        let w = choose|w: int| 0 <= w < work.len() && work[w] == kept[k];
        assert(objects[work[w].at as int].oid == oid);
        assert(picked.contains((oid, kind)));
        let i = choose|i: int| 0 <= i < picked.len() && picked[i] == (oid, kind);
        assert(oids[i] == oid);
    }
    if oids.contains(oid) {
        let i = choose|i: int| 0 <= i < oids.len() && oids[i] == oid;
        assert(picked[i].0 == oid);
        assert(picked.contains(picked[i]));
        assert(picked[i] == (oid, kind));
    }
    if is_bare(work, objects, at_hand, oid, kind) {
        let w = choose|w: int|
            0 <= w < work.len() && objects[(#[trigger] work[w]).at as int].oid == oid
                && objects[work[w].at as int].kind == kind;
        assert(work.contains(work[w]) && open(work[w]));
        assert(kept.contains(work[w]));
        let k = choose|k: int| 0 <= k < kept.len() && kept[k] == work[w];
        assert(pairs[k] == pair(kept[k]));
    }
}

proof fn lemma_kept_distinct<A>(s: Seq<A>, keep: spec_fn(A) -> bool)
    requires
        s.no_duplicates(),
    ensures
        s.filter(keep).no_duplicates(),
    decreases s.len(),
{
    reveal(Seq::filter);
    if s.len() > 0 {
        let rest = s.drop_last();
        let kept = rest.filter(keep);
        lemma_kept_distinct(rest, keep);
        lemma_filtered(rest, keep);
        if kept.contains(s.last()) {
            let i = choose|i: int| 0 <= i < rest.len() && rest[i] == s.last();
            assert(s[i] == s[s.len() - 1]);
        }
    }
}

/// Whether no object has work twice.
pub open spec fn is_distinct_work(work: Seq<Relevant>, objects: Seq<NewObject>) -> bool {
    forall|i: int, j: int|
        0 <= i < j < work.len() ==> objects[(#[trigger] work[i]).at as int].oid != objects[(
        #[trigger] work[j]).at as int].oid
}

proof fn lemma_of_kind_distinct(
    work: Seq<Relevant>,
    objects: Seq<NewObject>,
    at_hand: Map<ObjectId, ObjectSeq>,
    kind: Kind,
)
    requires
        is_distinct_work(work, objects),
    ensures
        of_kind(lacking(work, objects, at_hand), kind).no_duplicates(),
{
    let open = |one: Relevant| !at_hand.contains_key(objects[one.at as int].oid);
    let pair = |one: Relevant| (objects[one.at as int].oid, objects[one.at as int].kind);
    let kept = work.filter(open);
    let pairs = lacking(work, objects, at_hand);
    assert(pairs =~= kept.map_values(pair));
    lemma_filtered(work, open);
    assert forall|i: int, j: int| 0 <= i < j < work.len() implies work[i] != work[j] by {
        assert(objects[work[i].at as int].oid != objects[work[j].at as int].oid);
    }
    assert(work.no_duplicates());
    lemma_kept_distinct(work, open);
    assert forall|i: int, j: int| 0 <= i < j < pairs.len() implies pairs[i].0 != pairs[j].0 by {
        assert(kept.contains(kept[i]) && kept.contains(kept[j]));
        let a = choose|a: int| 0 <= a < work.len() && work[a] == kept[i];
        let b = choose|b: int| 0 <= b < work.len() && work[b] == kept[j];
        assert(kept[i] != kept[j]);
        assert(a != b);
        if a < b {
            assert(objects[work[a].at as int].oid != objects[work[b].at as int].oid);
        } else {
            assert(objects[work[b].at as int].oid != objects[work[a].at as int].oid);
        }
    }
    assert(pairs.no_duplicates());
    lemma_kept_distinct(pairs, is_kind(kind));
    let picked = pairs.filter(is_kind(kind));
    lemma_filtered(pairs, is_kind(kind));
    let oids = of_kind(pairs, kind);
    assert forall|i: int, j: int| 0 <= i < j < oids.len() implies oids[i] != oids[j] by {
        assert(picked.contains(picked[i]) && picked.contains(picked[j]));
        assert(picked[i] != picked[j]);
    }
}

/// The objects without a number take the ranges of their kinds: the trees theirs,
/// the blobs theirs and the tags theirs, one number each and in their order.
/// What has a number keeps it.
pub proof fn each_kind_takes_its_own_range(
    work: Seq<Relevant>,
    objects: Seq<NewObject>,
    at_hand: Map<ObjectId, ObjectSeq>,
    starts: Starts,
    k: int,
)
    requires
        is_distinct_work(work, objects),
        starts.trees >= 0 && starts.blobs >= 0 && starts.tags >= 0,
        starts.trees + of_kind(lacking(work, objects, at_hand), Kind::Tree).len() <= i64::MAX + 1,
        starts.blobs + of_kind(lacking(work, objects, at_hand), Kind::Blob).len() <= i64::MAX + 1,
        starts.tags + of_kind(lacking(work, objects, at_hand), Kind::Tag).len() <= i64::MAX + 1,
    ensures
        ({
            let lacked = lacking(work, objects, at_hand);
            let given = all_given_out(at_hand, lacked, starts);
            let trees = of_kind(lacked, Kind::Tree);
            let blobs = of_kind(lacked, Kind::Blob);
            let tags = of_kind(lacked, Kind::Tag);
            &&& 0 <= k < trees.len() ==> given.contains_key(trees[k]) && given[trees[k]]
                == ObjectSeq::Tree((starts.trees + k) as u64)
            &&& 0 <= k < blobs.len() ==> given.contains_key(blobs[k]) && given[blobs[k]]
                == ObjectSeq::Blob((starts.blobs + k) as u64)
            &&& 0 <= k < tags.len() ==> given.contains_key(tags[k]) && given[tags[k]]
                == ObjectSeq::Tag((starts.tags + k) as u64)
            &&& forall|oid: ObjectId|
                at_hand.contains_key(oid) ==> #[trigger] given.contains_key(oid) && given[oid]
                    == at_hand[oid]
        }),
{
    let lacked = lacking(work, objects, at_hand);
    let trees = of_kind(lacked, Kind::Tree);
    let blobs = of_kind(lacked, Kind::Blob);
    let tags = of_kind(lacked, Kind::Tag);
    lemma_of_kind_distinct(work, objects, at_hand, Kind::Tree);
    lemma_of_kind_distinct(work, objects, at_hand, Kind::Blob);
    lemma_of_kind_distinct(work, objects, at_hand, Kind::Tag);
    let first = given_out(at_hand, trees, Kind::Tree, starts.trees);
    let second = given_out(first, blobs, Kind::Blob, starts.blobs);
    objects_are_numbered_in_order(at_hand, trees, Kind::Tree, starts.trees);
    objects_are_numbered_in_order(first, blobs, Kind::Blob, starts.blobs);
    objects_are_numbered_in_order(second, tags, Kind::Tag, starts.tags);
    let given = all_given_out(at_hand, lacked, starts);
    if 0 <= k < trees.len() {
        let oid = trees[k];
        lemma_one_kind(work, objects, at_hand, oid, Kind::Tree, Kind::Blob);
        lemma_one_kind(work, objects, at_hand, oid, Kind::Tree, Kind::Tag);
        assert(first[oid] == ObjectSeq::Tree((starts.trees + k) as u64));
        assert(second.contains_key(oid) && second[oid] == first[oid]);
        assert(given.contains_key(oid) && given[oid] == second[oid]);
    }
    if 0 <= k < blobs.len() {
        let oid = blobs[k];
        lemma_one_kind(work, objects, at_hand, oid, Kind::Blob, Kind::Tag);
        assert(second[oid] == ObjectSeq::Blob((starts.blobs + k) as u64));
        assert(given.contains_key(oid) && given[oid] == second[oid]);
    }
    if 0 <= k < tags.len() {
        assert(given[tags[k]] == ObjectSeq::Tag((starts.tags + k) as u64));
    }
    assert forall|oid: ObjectId| at_hand.contains_key(oid) implies #[trigger] given.contains_key(
        oid,
    ) && given[oid] == at_hand[oid] by {
        only_bare_objects_take_numbers(work, objects, at_hand, oid, Kind::Tree);
        only_bare_objects_take_numbers(work, objects, at_hand, oid, Kind::Blob);
        only_bare_objects_take_numbers(work, objects, at_hand, oid, Kind::Tag);
        assert(first.contains_key(oid) && first[oid] == at_hand[oid]);
        assert(second.contains_key(oid) && second[oid] == first[oid]);
    }
}

/// An object that takes a number of one kind takes none of another.
proof fn lemma_one_kind(
    work: Seq<Relevant>,
    objects: Seq<NewObject>,
    at_hand: Map<ObjectId, ObjectSeq>,
    oid: ObjectId,
    kind: Kind,
    other: Kind,
)
    requires
        is_distinct_work(work, objects),
        kind != other,
        of_kind(lacking(work, objects, at_hand), kind).contains(oid),
    ensures
        !of_kind(lacking(work, objects, at_hand), other).contains(oid),
{
    only_bare_objects_take_numbers(work, objects, at_hand, oid, kind);
    only_bare_objects_take_numbers(work, objects, at_hand, oid, other);
    if is_bare(work, objects, at_hand, oid, other) {
        let i = choose|w: int|
            0 <= w < work.len() && objects[(#[trigger] work[w]).at as int].oid == oid
                && objects[work[w].at as int].kind == kind;
        let j = choose|w: int|
            0 <= w < work.len() && objects[(#[trigger] work[w]).at as int].oid == oid
                && objects[work[w].at as int].kind == other;
        if i < j {
            assert(objects[work[i].at as int].oid != objects[work[j].at as int].oid);
        } else if j < i {
            assert(objects[work[j].at as int].oid != objects[work[i].at as int].oid);
        }
    }
}

/// Whether recording names an object: as one with work, as an entry of one, as
/// the base of one of its new places, or as the root tree of a commit.
pub open spec fn is_recording_named(
    work: Seq<Relevant>,
    objects: Seq<NewObject>,
    to_insert: Seq<ObjectId>,
    commits: Map<ObjectId, NewCommit>,
    oid: ObjectId,
) -> bool {
    ||| exists|w: int| 0 <= w < work.len() && objects[(#[trigger] work[w]).at as int].oid == oid
    ||| exists|w: int|
        0 <= w < work.len() && objects[(#[trigger] work[w]).at as int].children@.contains(oid)
    ||| exists|w: int, k: int|
        0 <= w < work.len() && 0 <= k < work[w].fresh@.len() && (
        #[trigger] work[w].fresh@[k]).base == Some(oid)
    ||| exists|i: int|
        0 <= i < to_insert.len() && commits.contains_key(#[trigger] to_insert[i])
            && commits[to_insert[i]].root_tree == oid
}

/// Whether an identity says the number of a tree, a blob or a tag.
pub open spec fn says_number(identity: Identity) -> bool {
    identity.seq >= 0 && !(identity.kind is Commit)
}

/// The number of an object that is at hand is the one that was found, and else
/// the one that was read before of what recording names; where there is
/// neither, there is none.
pub proof fn the_object_s_number_at_hand_is_the_one_found(
    work: Seq<Relevant>,
    objects: Seq<NewObject>,
    to_insert: Seq<ObjectId>,
    commits: Map<ObjectId, NewCommit>,
    known: Map<ObjectId, Option<Identity>>,
    found: Map<ObjectId, Identity>,
    oid: ObjectId,
)
    ensures
        ({
            let at_hand = objects_at_hand(work, objects, to_insert, commits, known, found);
            let is_found = found.contains_key(oid) && says_number(found[oid]);
            let is_read = known.contains_key(oid) && known[oid] is Some && says_number(
                known[oid]->0,
            ) && is_recording_named(work, objects, to_insert, commits, oid);
            &&& at_hand.contains_key(oid) <==> is_found || is_read
            &&& is_found ==> counts_kind(at_hand[oid], found[oid].kind) && bare(at_hand[oid])
                == found[oid].seq
            &&& !is_found && is_read ==> counts_kind(at_hand[oid], known[oid]->0.kind) && bare(
                at_hand[oid],
            ) == known[oid]->0.seq
        }),
{
    if exists|w: int|
        0 <= w < work.len() && objects[(#[trigger] work[w]).at as int].oid == oid {
        let w = choose|w: int|
            0 <= w < work.len() && objects[(#[trigger] work[w]).at as int].oid == oid;
        assert(crate::ingest::append::objects::one_names(work[w], objects, oid));
    }
    if exists|w: int|
        0 <= w < work.len() && objects[(#[trigger] work[w]).at as int].children@.contains(oid) {
        let w = choose|w: int|
            0 <= w < work.len() && objects[(#[trigger] work[w]).at as int].children@.contains(oid);
        assert(crate::ingest::append::objects::one_names(work[w], objects, oid));
    }
    if exists|w: int, k: int|
        0 <= w < work.len() && 0 <= k < work[w].fresh@.len() && (
        #[trigger] work[w].fresh@[k]).base == Some(oid) {
        let (w, k) = choose|w: int, k: int|
            0 <= w < work.len() && 0 <= k < work[w].fresh@.len() && (
            #[trigger] work[w].fresh@[k]).base == Some(oid);
        assert(crate::ingest::append::objects::one_names(work[w], objects, oid));
    }
    if crate::ingest::append::objects::work_names(work, objects, oid) {
        let w = choose|i: int|
            0 <= i < work.len() && crate::ingest::append::objects::one_names(
                #[trigger] work[i],
                objects,
                oid,
            );
        assert(crate::ingest::append::objects::one_names(work[w], objects, oid));
        if objects[work[w].at as int].oid != oid && !objects[work[w].at as int].children@.contains(
            oid,
        ) {
            let k = choose|k: int|
                0 <= k < work[w].fresh@.len() && (#[trigger] work[w].fresh@[k]).base == Some(oid);
            assert(work[w].fresh@[k].base == Some(oid));
        }
    }
}

/// What is not asked about is known, or is new as far as is known and is to be
/// numbered here.
pub proof fn what_is_not_asked_is_known_or_new(
    known: Map<ObjectId, Option<Identity>>,
    insertable: Seq<ObjectId>,
    oid: ObjectId,
)
    ensures
        !has_to_ask(known, insertable, oid) <==> known.contains_key(oid) && (known[oid] is Some
            || insertable.contains(oid)),
{
}

/// Whether a commit of `commits` was numbered here and its number is `identity`.
pub open spec fn names_a_commit(
    commits: Seq<CommitView>,
    numbered: Seq<ObjectId>,
    oid: ObjectId,
    identity: Identity,
) -> bool {
    exists|i: int|
        0 <= i < commits.len() && (#[trigger] commits[i]).oid == oid && numbered.contains(oid)
            && identity.seq == commits[i].seq && identity.kind is Commit
}

/// Whether an object of `objects` was numbered here and its number is
/// `identity`.
pub open spec fn names_an_object(
    objects: Seq<RecordedView>,
    numbered: Seq<ObjectId>,
    oid: ObjectId,
    identity: Identity,
) -> bool {
    exists|i: int|
        0 <= i < objects.len() && (#[trigger] objects[i]).oid == oid && numbered.contains(oid)
            && identity.seq == objects[i].seq && identity.kind == objects[i].kind
}

/// The numbers that are written for commits are those of the commits that were
/// numbered here.
pub proof fn each_new_commit_is_named(
    commits: Seq<CommitView>,
    numbered: Seq<ObjectId>,
    oid: ObjectId,
    identity: Identity,
)
    ensures
        commit_names(commits, numbered).contains((oid, identity)) <==> names_a_commit(
            commits,
            numbered,
            oid,
            identity,
        ),
{
    let new = |commit: CommitView| numbered.contains(commit.oid);
    let name = |commit: CommitView|
        (commit.oid, Identity { seq: commit.seq, kind: Kind::Commit });
    let kept = commits.filter(new);
    let names = commit_names(commits, numbered);
    assert(names =~= kept.map_values(name));
    lemma_filtered(commits, new);
    if names.contains((oid, identity)) {
        let k = choose|k: int| 0 <= k < names.len() && names[k] == (oid, identity);
        assert(names[k] == name(kept[k]));
        assert(kept.contains(kept[k]));
        let i = choose|i: int| 0 <= i < commits.len() && commits[i] == kept[k];
        assert(commits[i].oid == oid);
    }
    if names_a_commit(commits, numbered, oid, identity) {
        let i = choose|i: int|
            0 <= i < commits.len() && (#[trigger] commits[i]).oid == oid && numbered.contains(oid)
                && identity.seq == commits[i].seq && identity.kind is Commit;
        assert(commits.contains(commits[i]) && new(commits[i]));
        assert(kept.contains(commits[i]));
        let k = choose|k: int| 0 <= k < kept.len() && kept[k] == commits[i];
        assert(names[k] == name(kept[k]));
        assert(names[k] == (oid, identity));
    }
}

/// The numbers that are written for objects are those of the objects that were
/// numbered here. It fails exactly where one of them is past what a row holds.
pub proof fn each_new_object_is_named(
    objects: Seq<RecordedView>,
    numbered: Seq<ObjectId>,
    oid: ObjectId,
    identity: Identity,
)
    ensures
        match object_names(objects, numbered) {
            Ok(names) => names.contains((oid, identity)) <==> names_an_object(
                objects,
                numbered,
                oid,
                identity,
            ),
            Err(_) => exists|i: int|
                0 <= i < objects.len() && numbered.contains((#[trigger] objects[i]).oid)
                    && objects[i].seq > i64::MAX,
        },
    decreases objects.len(),
{
    if objects.len() > 0 {
        let rest = objects.drop_last();
        let last = objects.last();
        each_new_object_is_named(rest, numbered, oid, identity);
        assert(objects[objects.len() - 1] == last);
        if object_names(rest, numbered) is Err {
            let i = choose|i: int|
                0 <= i < rest.len() && numbered.contains((#[trigger] rest[i]).oid) && rest[i].seq
                    > i64::MAX;
            assert(objects[i] == rest[i]);
        } else if object_names(objects, numbered) is Ok {
            let earlier = object_names(rest, numbered)->Ok_0;
            lemma_push_contains(
                earlier,
                (last.oid, Identity { seq: last.seq as i64, kind: last.kind }),
                (oid, identity),
            );
            if names_an_object(rest, numbered, oid, identity) {
                let i = choose|i: int|
                    0 <= i < rest.len() && (#[trigger] rest[i]).oid == oid && numbered.contains(oid)
                        && identity.seq == rest[i].seq && identity.kind == rest[i].kind;
                assert(objects[i] == rest[i]);
            }
            if names_an_object(objects, numbered, oid, identity) && !names_an_object(
                rest,
                numbered,
                oid,
                identity,
            ) {
                let i = choose|i: int|
                    0 <= i < objects.len() && (#[trigger] objects[i]).oid == oid
                        && numbered.contains(oid) && identity.seq == objects[i].seq
                        && identity.kind == objects[i].kind;
                if i < rest.len() {
                    assert(rest[i] == objects[i]);
                }
            }
        }
    }
}

/// A push that is recorded records every commit of its order that the graph
/// does not hold, in that order, with all of its parents under their numbers and
/// its tree under its own, and names the segment that the commit was written to.
pub proof fn a_push_is_recorded(
    plan: AppendPlan,
    order: Seq<ObjectId>,
    commits: Map<ObjectId, NewCommit>,
    objects: Seq<NewObject>,
    known: Map<ObjectId, Option<Identity>>,
    answers: Answers,
    written: AssemblyView,
    oid: ObjectId,
)
    requires
        is_planned(plan, order, commits, objects, known, answers),
        assembled(plan, commits, objects) == Ok::<AssemblyView, Error>(written),
        order.contains(oid),
        !has_row(answers.commit_metas@, oid),
    ensures
        commits.contains_key(oid),
        written.segments.contains(commits[oid].segment.id),
        exists|j: int|
            0 <= j < written.commits.len() && (#[trigger] written.commits[j]).oid == oid && {
                let recorded = written.commits[j];
                &&& recorded.seq == plan.commit_seq_of@[oid]
                &&& recorded.parents.len() == commits[oid].parents@.len()
                &&& forall|k: int|
                    0 <= k < commits[oid].parents@.len() ==> #[trigger] recorded.parents[k]
                        == plan.commit_seq_of@[commits[oid].parents@[k]]
                &&& ObjectSeq::Tree(recorded.root_tree_seq)
                    == plan.seq_of@[commits[oid].root_tree]
                &&& recorded.segment == commits[oid].segment
            },
{
    let open = |oid: ObjectId|
        !crate::ingest::append::commits::is_in_graph(answers.commit_metas@, oid);
    lemma_filtered(order, open);
    let recording = plan.to_insert@;
    assert(recording == order.filter(open));
    assert(open(oid));
    assert(recording.contains(oid));
    let j = choose|j: int| 0 <= j < recording.len() && recording[j] == oid;
    let sets = crate::ingest::append::records::packed(plan.relevant@, objects, plan.seq_of@)->Ok_0;
    each_commit_is_recorded(recording, commits, plan.commit_seq_of@, plan.seq_of@, sets);
    a_commit_is_recorded_whole(
        oid,
        commits,
        plan.commit_seq_of@,
        plan.seq_of@,
        sets,
        written.commits[j],
    );
    each_segment_is_named_once(recording, commits);
    assert(commits[recording[j]].segment.id == commits[oid].segment.id);
    let recorded = written.commits[j];
    assert forall|k: int| 0 <= k < commits[oid].parents@.len() implies
        #[trigger] recorded.parents[k] == plan.commit_seq_of@[commits[oid].parents@[k]] by {
        assert(plan.commit_seq_of@.contains_key(commits[oid].parents@[k]));
    }
    assert(written.commits[j].oid == oid);
}

/// A range holds a number for each object that lacks one exactly where no number
/// that it takes is below zero.
pub proof fn a_range_counts_from_zero_up(lacking: Seq<(ObjectId, Kind)>, starts: Starts)
    ensures
        all_counted(lacking, starts) <==> {
            &&& of_kind(lacking, Kind::Tree).len() > 0 ==> starts.trees >= 0
            &&& of_kind(lacking, Kind::Blob).len() > 0 ==> starts.blobs >= 0
            &&& of_kind(lacking, Kind::Tag).len() > 0 ==> starts.tags >= 0
        },
{
    lemma_counts(Kind::Tree, starts.trees, of_kind(lacking, Kind::Tree).len());
    lemma_counts(Kind::Blob, starts.blobs, of_kind(lacking, Kind::Blob).len());
    lemma_counts(Kind::Tag, starts.tags, of_kind(lacking, Kind::Tag).len());
}

proof fn lemma_counts(kind: Kind, start: i64, n: nat)
    requires
        kind != Kind::Commit,
    ensures
        counts(kind, start, n) <==> (n > 0 ==> start >= 0),
{
    if counts(kind, start, n) && n > 0 {
        assert(nth_seq(kind, start, 0int as nat) is Some);
    }
}

/// A plan records the commits of the push that the graph does not hold, and
/// takes an object with work for new where the index does not hold it; what it
/// numbers is what has no number at hand.
pub proof fn a_plan_takes_for_new_what_is_not_held(
    plan: AppendPlan,
    order: Seq<ObjectId>,
    commits: Map<ObjectId, NewCommit>,
    objects: Seq<NewObject>,
    known: Map<ObjectId, Option<Identity>>,
    answers: Answers,
    oid: ObjectId,
)
    requires
        is_planned(plan, order, commits, objects, known, answers),
    ensures
        plan.to_insert@.contains(oid) <==> order.contains(oid) && !has_row(
            answers.commit_metas@,
            oid,
        ),
        plan.fresh@.contains(oid) <==> !has_row(answers.metas@, oid) && exists|w: int|
            0 <= w < plan.relevant@.len() && objects[(#[trigger] plan.relevant@[w]).at as int].oid
                == oid,
        plan.commits_numbered_here@.contains(oid) <==> order.contains(oid) && !has_row(
            answers.commit_metas@,
            oid,
        ) && !commits_at_hand(order, commits, known, answers.commit_seqs@).contains_key(oid),
        plan.numbered_here@.contains(oid) <==> exists|kind: Kind| #[trigger]
            is_bare(
                plan.relevant@,
                objects,
                objects_at_hand(
                    plan.relevant@,
                    objects,
                    plan.to_insert@,
                    commits,
                    known,
                    answers.identities@,
                ),
                oid,
                kind,
            ),
{
    let open = |oid: ObjectId|
        !crate::ingest::append::commits::is_in_graph(answers.commit_metas@, oid);
    lemma_filtered(order, open);
    assert(plan.to_insert@ == order.filter(open));
    assert(open(oid) <==> !has_row(answers.commit_metas@, oid));
    let at_hand = commits_at_hand(order, commits, known, answers.commit_seqs@);
    only_new_commits_are_numbered(order, answers.commit_metas@, at_hand);
    let work = plan.relevant@;
    let lost = |oid: ObjectId| !crate::ingest::append::commits::is_in_graph(answers.metas@, oid);
    let oids = crate::ingest::append::objects::work_oids(work, objects);
    lemma_filtered(oids, lost);
    assert(plan.fresh@ == oids.filter(lost));
    assert(lost(oid) <==> !has_row(answers.metas@, oid));
    if oids.contains(oid) {
        let w = choose|w: int| 0 <= w < oids.len() && oids[w] == oid;
        assert(objects[work[w].at as int].oid == oid);
    }
    if exists|w: int| 0 <= w < work.len() && objects[(#[trigger] work[w]).at as int].oid == oid {
        let w = choose|w: int|
            0 <= w < work.len() && objects[(#[trigger] work[w]).at as int].oid == oid;
        assert(oids[w] == oid);
    }
    let held = objects_at_hand(
        work,
        objects,
        plan.to_insert@,
        commits,
        known,
        answers.identities@,
    );
    let pairs = lacking(work, objects, held);
    let here = plan.numbered_here@;
    assert(here == pairs.map_values(|pair: (ObjectId, Kind)| pair.0));
    if here.contains(oid) {
        let k = choose|k: int| 0 <= k < here.len() && here[k] == oid;
        let kind = pairs[k].1;
        assert(pairs.contains((oid, kind)));
        only_bare_objects_take_numbers(work, objects, held, oid, kind);
        assert(is_bare(work, objects, held, oid, kind));
    }
    if exists|kind: Kind| #[trigger] is_bare(work, objects, held, oid, kind) {
        let kind = choose|kind: Kind| #[trigger] is_bare(work, objects, held, oid, kind);
        only_bare_objects_take_numbers(work, objects, held, oid, kind);
        let k = choose|k: int| 0 <= k < pairs.len() && pairs[k] == (oid, kind);
        assert(here[k] == oid);
    }
}

/// What a push writes names each commit that it numbered, under the number that
/// the commit is recorded with, and each object that it numbered and records.
pub proof fn a_push_names_what_it_numbered(
    plan: AppendPlan,
    commits: Map<ObjectId, NewCommit>,
    objects: Seq<NewObject>,
    written: AssemblyView,
    oid: ObjectId,
    identity: Identity,
)
    requires
        assembled(plan, commits, objects) == Ok::<AssemblyView, Error>(written),
    ensures
        written.named.contains((oid, identity)) <==> names_a_commit(
            written.commits,
            plan.commits_numbered_here@,
            oid,
            identity,
        ) || names_an_object(written.objects.fresh, plan.numbered_here@, oid, identity),
{
    let first = commit_names(written.commits, plan.commits_numbered_here@);
    let second = object_names(written.objects.fresh, plan.numbered_here@)->Ok_0;
    each_new_commit_is_named(written.commits, plan.commits_numbered_here@, oid, identity);
    each_new_object_is_named(written.objects.fresh, plan.numbered_here@, oid, identity);
    let pair = (oid, identity);
    if written.named.contains(pair) {
        let k = choose|k: int| 0 <= k < written.named.len() && written.named[k] == pair;
        if k < first.len() {
            assert(first[k] == pair);
        } else {
            assert(second[k - first.len()] == pair);
        }
    }
    if first.contains(pair) {
        let k = choose|k: int| 0 <= k < first.len() && first[k] == pair;
        assert(written.named[k] == pair);
    }
    if second.contains(pair) {
        let k = choose|k: int| 0 <= k < second.len() && second[k] == pair;
        assert(written.named[first.len() + k] == pair);
    }
}

/// What a push writes holds a record of every object with work that is new,
/// under the object's number, and every place that an object with work that is
/// known gains.
pub proof fn a_push_writes_its_objects(
    plan: AppendPlan,
    commits: Map<ObjectId, NewCommit>,
    objects: Seq<NewObject>,
    written: AssemblyView,
    w: int,
    place: Location,
)
    requires
        assembled(plan, commits, objects) == Ok::<AssemblyView, Error>(written),
        0 <= w < plan.relevant@.len(),
    ensures
        ({
            let work = plan.relevant@[w];
            let object = objects[work.at as int];
            let places = places_gained(
                work.fresh@,
                object.kind,
                commits,
                plan.commit_seq_of@,
                plan.seq_of@,
            );
            &&& plan.fresh@.contains(object.oid) ==> exists|j: int|
                0 <= j < written.objects.fresh.len() && (
                #[trigger] written.objects.fresh[j]).oid == object.oid
                    && written.objects.fresh[j].kind == object.kind
                    && written.objects.fresh[j].seq == bare(plan.seq_of@[object.oid])
                    && places == Ok::<Seq<Location>, Error>(written.objects.fresh[j].locations)
            &&& !plan.fresh@.contains(object.oid) && places is Ok && places->Ok_0.contains(place)
                ==> written.objects.added.contains(
                (bare(plan.seq_of@[object.oid]), object.kind, place),
            )
        }),
{
    let work = plan.relevant@[w];
    let object = objects[work.at as int];
    let new = is_new_object(objects, plan.fresh@);
    let kept = plan.relevant@.filter(new);
    each_object_is_written(
        plan.relevant@,
        objects,
        plan.fresh@,
        commits,
        plan.commit_seq_of@,
        plan.seq_of@,
    );
    lemma_filtered(plan.relevant@, new);
    assert(plan.relevant@.contains(work));
    lemma_write_numbered(
        plan.relevant@,
        objects,
        plan.fresh@,
        commits,
        plan.commit_seq_of@,
        plan.seq_of@,
        w,
    );
    if plan.fresh@.contains(object.oid) {
        assert(new(work));
        assert(kept.contains(work));
        let j = choose|j: int| 0 <= j < kept.len() && kept[j] == work;
        assert(written.objects.fresh[j].oid == object.oid);
    } else {
        let added = (bare(plan.seq_of@[object.oid]), object.kind, place);
        let places = places_gained(
            work.fresh@,
            object.kind,
            commits,
            plan.commit_seq_of@,
            plan.seq_of@,
        );
        if places is Ok && places->Ok_0.contains(place) {
            assert(gains(
                plan.relevant@[w],
                objects,
                plan.fresh@,
                commits,
                plan.commit_seq_of@,
                plan.seq_of@,
                added,
            ));
            assert(some_gains(
                plan.relevant@,
                objects,
                plan.fresh@,
                commits,
                plan.commit_seq_of@,
                plan.seq_of@,
                added,
            ));
        }
    }
}

/// What is written has its number.
proof fn lemma_write_numbered(
    relevant: Seq<Relevant>,
    objects: Seq<NewObject>,
    fresh: Seq<ObjectId>,
    commits: Map<ObjectId, NewCommit>,
    commit_seq_of: Map<ObjectId, i64>,
    seq_of: Map<ObjectId, ObjectSeq>,
    w: int,
)
    requires
        object_writes(relevant, objects, fresh, commits, commit_seq_of, seq_of) is Ok,
        0 <= w < relevant.len(),
    ensures
        seq_of.contains_key(objects[relevant[w].at as int].oid),
    decreases relevant.len(),
{
    if w < relevant.len() - 1 {
        lemma_write_numbered(
            relevant.drop_last(),
            objects,
            fresh,
            commits,
            commit_seq_of,
            seq_of,
            w,
        );
        assert(relevant.drop_last()[w] == relevant[w]);
    }
}

} // verus!
