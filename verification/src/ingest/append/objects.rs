//! Which trees, blobs and tags of a push are recorded, and under which numbers.
//!
//! Only what is in a pack that this push records is work: a pack whose commit
//! was recorded before has its objects recorded already.

use vstd::prelude::*;

use crate::error::Error;
use crate::ingest::append::commits::{is_in_graph, to_insert};
use crate::ingest::append::model::{NewCommit, NewObject};
use crate::ingest::identities::{found_as, KnownIdentities};
use crate::ingest::lists::{lemma_push_contains, IdList};
use crate::model::{Identity, ObjectMeta, ObjectSeq, PackImageLocation};
use crate::object::{Kind, ObjectId};
use crate::ordmap::{keyed, lemma_keyed_all, lemma_keyed_next, OrdMap};

verus! {

/// An identity as the space it belongs to; none for a commit, and for a number
/// below zero.
pub open spec fn as_seq(identity: Identity) -> Option<ObjectSeq> {
    if identity.seq < 0 {
        None
    } else {
        ObjectSeq::numbered(identity.kind, identity.seq as u64)
    }
}

/// An identity as the space it belongs to.
pub fn numbered(identity: Identity) -> (seq: Option<ObjectSeq>)
    ensures
        seq == as_seq(identity),
{
    if identity.seq < 0 {
        None
    } else {
        ObjectSeq::of(identity.kind, identity.seq as u64)
    }
}

/// An object with work in this push, and its places in packs that the push
/// records.
#[derive(Debug)]
pub struct Relevant {
    /// Which of the push's objects.
    pub at: usize,
    pub fresh: Vec<PackImageLocation>,
}

/// Whether every pack that an object is said to be in is that of a commit of
/// the push.
pub open spec fn is_placed(object: NewObject, commits: Map<ObjectId, NewCommit>) -> bool {
    forall|k: int|
        0 <= k < object.locations@.len() ==> commits.contains_key(
            (#[trigger] object.locations@[k]).pack_sha,
        )
}

/// Whether no object is said to be in a pack that the push does not bring.
pub open spec fn all_placed(objects: Seq<NewObject>, commits: Map<ObjectId, NewCommit>) -> bool {
    forall|i: int| 0 <= i < objects.len() ==> is_placed(#[trigger] objects[i], commits)
}

/// Refuse a push with an object that is said to be in the pack of a commit that
/// the push does not bring.
pub fn check_packs(
    new_objects: &[NewObject],
    new_commits: &OrdMap<ObjectId, NewCommit>,
) -> (checked: Result<(), Error>)
    ensures
        checked == if all_placed(new_objects@, new_commits@) {
            Ok::<(), Error>(())
        } else {
            Err(Error::PackAbsent)
        },
{
    let mut i: usize = 0;
    while i < new_objects.len()
        invariant
            i <= new_objects@.len(),
            forall|j: int| 0 <= j < i ==> is_placed(#[trigger] new_objects@[j], new_commits@),
        decreases new_objects@.len() - i,
    {
        let object = &new_objects[i];
        let mut k: usize = 0;
        while k < object.locations.len()
            invariant
                i < new_objects@.len(),
                object == &new_objects@[i as int],
                k <= object.locations@.len(),
                forall|j: int|
                    0 <= j < k ==> new_commits@.contains_key(
                        (#[trigger] object.locations@[j]).pack_sha,
                    ),
            decreases object.locations@.len() - k,
        {
            if !new_commits.contains_key(&object.locations[k].pack_sha) {
                assert(!is_placed(new_objects@[i as int], new_commits@));
                return Err(Error::PackAbsent);
            }
            k += 1;
        }
        i += 1;
    }
    Ok(())
}

/// The places of an object that are in packs to record.
pub open spec fn fresh_places(object: NewObject, recording: Seq<ObjectId>) -> Seq<
    PackImageLocation,
> {
    object.locations@.filter(|place: PackImageLocation| recording.contains(place.pack_sha))
}

/// Whether an object is work: it is in a pack to record, or in none at all.
pub open spec fn is_work(object: NewObject, recording: Seq<ObjectId>) -> bool {
    fresh_places(object, recording).len() > 0 || object.locations@.len() == 0
}

/// Which objects are work, in their order.
pub open spec fn work_places(objects: Seq<NewObject>, recording: Seq<ObjectId>) -> Seq<int>
    decreases objects.len(),
{
    if objects.len() == 0 {
        Seq::empty()
    } else {
        let earlier = work_places(objects.drop_last(), recording);
        if is_work(objects.last(), recording) {
            earlier.push(objects.len() - 1)
        } else {
            earlier
        }
    }
}

/// Whether `relevant` is all that is work, with its fresh places.
pub open spec fn is_relevant(
    relevant: Seq<Relevant>,
    objects: Seq<NewObject>,
    recording: Seq<ObjectId>,
) -> bool {
    &&& relevant.len() == work_places(objects, recording).len()
    &&& forall|i: int|
        0 <= i < relevant.len() ==> {
            &&& (#[trigger] relevant[i]).at == work_places(objects, recording)[i]
            &&& relevant[i].at < objects.len()
            &&& relevant[i].fresh@ == fresh_places(objects[relevant[i].at as int], recording)
        }
}

/// The objects with work in this push.
///
/// A pack is fresh when this push records its commit; a commit that is recorded
/// again under the number it had counts too.
pub fn relevant(new_objects: &[NewObject], to_insert: &[ObjectId]) -> (relevant: Vec<Relevant>)
    ensures
        is_relevant(relevant@, new_objects@, to_insert@),
{
    let mut recording = IdList::new();
    recording.put_all(to_insert);
    let mut relevant: Vec<Relevant> = Vec::new();
    let mut i: usize = 0;
    assert(new_objects@.take(0) =~= Seq::<NewObject>::empty());
    while i < new_objects.len()
        invariant
            i <= new_objects@.len(),
            forall|oid: ObjectId| #[trigger] recording@.contains(oid) <==> to_insert@.contains(oid),
            relevant@.len() == work_places(new_objects@.take(i as int), to_insert@).len(),
            forall|k: int|
                0 <= k < relevant@.len() ==> {
                    &&& (#[trigger] relevant@[k]).at == work_places(
                        new_objects@.take(i as int),
                        to_insert@,
                    )[k]
                    &&& relevant@[k].at < i
                    &&& relevant@[k].fresh@ == fresh_places(
                        new_objects@[relevant@[k].at as int],
                        to_insert@,
                    )
                },
        decreases new_objects@.len() - i,
    {
        assert(new_objects@.take(i as int + 1).drop_last() =~= new_objects@.take(i as int));
        let object = &new_objects[i];
        let ghost keep = |place: PackImageLocation| to_insert@.contains(place.pack_sha);
        let mut fresh: Vec<PackImageLocation> = Vec::new();
        let mut k: usize = 0;
        assert(fresh@ =~= object.locations@.take(0).filter(keep)) by {
            reveal(Seq::filter);
        }
        while k < object.locations.len()
            invariant
                k <= object.locations@.len(),
                forall|oid: ObjectId| #[trigger]
                    recording@.contains(oid) <==> to_insert@.contains(oid),
                keep == (|place: PackImageLocation| to_insert@.contains(place.pack_sha)),
                fresh@ == object.locations@.take(k as int).filter(keep),
            decreases object.locations@.len() - k,
        {
            proof {
                reveal(Seq::filter);
                assert(object.locations@.take(k as int + 1).drop_last()
                    =~= object.locations@.take(k as int));
            }
            if recording.contains(object.locations[k].pack_sha) {
                fresh.push(object.locations[k]);
            }
            k += 1;
        }
        assert(object.locations@.take(k as int) =~= object.locations@);
        if fresh.len() > 0 || object.locations.len() == 0 {
            relevant.push(Relevant { at: i, fresh });
        }
        i += 1;
    }
    assert(new_objects@.take(i as int) =~= new_objects@);
    relevant
}

/// Whether relevant work names `oid`: the object itself, a child, or a base of
/// one of its entries.
pub open spec fn work_names(
    relevant: Seq<Relevant>,
    objects: Seq<NewObject>,
    oid: ObjectId,
) -> bool {
    exists|i: int| 0 <= i < relevant.len() && one_names(#[trigger] relevant[i], objects, oid)
}

/// Whether one object's work names `oid`.
pub open spec fn one_names(work: Relevant, objects: Seq<NewObject>, oid: ObjectId) -> bool {
    let object = objects[work.at as int];
    ||| object.oid == oid
    ||| object.children@.contains(oid)
    ||| exists|k: int| 0 <= k < work.fresh@.len() && (#[trigger] work.fresh@[k]).base == Some(oid)
}

/// Whether `oid` is the root tree of a commit to record.
pub open spec fn is_root(
    to_insert: Seq<ObjectId>,
    commits: Map<ObjectId, NewCommit>,
    oid: ObjectId,
) -> bool {
    exists|i: int|
        0 <= i < to_insert.len() && commits.contains_key(#[trigger] to_insert[i])
            && commits[to_insert[i]].root_tree == oid
}

/// Every object that recording needs a number for, each once.
pub fn wanted_objects(
    new_objects: &[NewObject],
    relevant: &[Relevant],
    to_insert: &[ObjectId],
    new_commits: &OrdMap<ObjectId, NewCommit>,
) -> (wanted: Vec<ObjectId>)
    requires
        forall|i: int| 0 <= i < relevant@.len() ==> (#[trigger] relevant@[i]).at < new_objects@.len(),
    ensures
        wanted@.no_duplicates(),
        forall|oid: ObjectId| #[trigger]
            wanted@.contains(oid) <==> work_names(relevant@, new_objects@, oid) || is_root(
                to_insert@,
                new_commits@,
                oid,
            ),
{
    let mut wanted = IdList::new();
    let mut i: usize = 0;
    while i < relevant.len()
        invariant
            i <= relevant@.len(),
            forall|k: int|
                0 <= k < relevant@.len() ==> (#[trigger] relevant@[k]).at < new_objects@.len(),
            forall|oid: ObjectId| #[trigger]
                wanted@.contains(oid) <==> work_names(
                    relevant@.take(i as int),
                    new_objects@,
                    oid,
                ),
        decreases relevant@.len() - i,
    {
        let ghost before = wanted@;
        let work = &relevant[i];
        let object = &new_objects[work.at];
        let _ = wanted.put(object.oid);
        wanted.put_all(object.children.as_slice());
        let ghost named = wanted@;
        let mut k: usize = 0;
        while k < work.fresh.len()
            invariant
                k <= work.fresh@.len(),
                forall|oid: ObjectId| #[trigger]
                    wanted@.contains(oid) <==> named.contains(oid) || exists|j: int|
                        0 <= j < k && (#[trigger] work.fresh@[j]).base == Some(oid),
            decreases work.fresh@.len() - k,
        {
            let ghost before = wanted@;
            if let Some(base) = work.fresh[k].base {
                let _ = wanted.put(base);
            }
            proof {
                assert forall|oid: ObjectId| #[trigger]
                    wanted@.contains(oid) <==> named.contains(oid) || exists|j: int|
                        0 <= j < k + 1 && (#[trigger] work.fresh@[j]).base == Some(oid) by {
                    assert(before.contains(oid) <==> named.contains(oid) || exists|j: int|
                        0 <= j < k && (#[trigger] work.fresh@[j]).base == Some(oid));
                    if exists|j: int| 0 <= j < k && (#[trigger] work.fresh@[j]).base == Some(oid) {
                        let j = choose|j: int|
                            0 <= j < k && (#[trigger] work.fresh@[j]).base == Some(oid);
                        assert(work.fresh@[j].base == Some(oid));
                    }
                    if work.fresh@[k as int].base == Some(oid) {
                        assert(work.fresh@[k as int].base == Some(oid));
                    }
                }
            }
            k += 1;
        }
        proof {
            let shorter = relevant@.take(i as int);
            let longer = relevant@.take(i as int + 1);
            assert forall|oid: ObjectId| #[trigger] wanted@.contains(oid) <==> work_names(
                longer,
                new_objects@,
                oid,
            ) by {
                assert(before.contains(oid) <==> work_names(shorter, new_objects@, oid));
                if work_names(shorter, new_objects@, oid) {
                    let j = choose|j: int|
                        0 <= j < shorter.len() && one_names(
                            #[trigger] shorter[j],
                            new_objects@,
                            oid,
                        );
                    assert(one_names(longer[j], new_objects@, oid));
                }
                if one_names(*work, new_objects@, oid) {
                    assert(one_names(longer[i as int], new_objects@, oid));
                }
                if work_names(longer, new_objects@, oid) {
                    let j = choose|j: int|
                        0 <= j < longer.len() && one_names(#[trigger] longer[j], new_objects@, oid);
                    if j < i {
                        assert(one_names(shorter[j], new_objects@, oid));
                    }
                }
            }
        }
        i += 1;
    }
    assert(relevant@.take(i as int) =~= relevant@);
    let ghost named = wanted@;
    let mut i: usize = 0;
    while i < to_insert.len()
        invariant
            i <= to_insert@.len(),
            forall|oid: ObjectId| #[trigger]
                wanted@.contains(oid) <==> named.contains(oid) || is_root(
                    to_insert@.take(i as int),
                    new_commits@,
                    oid,
                ),
        decreases to_insert@.len() - i,
    {
        let ghost before = wanted@;
        if let Some(commit) = new_commits.get(&to_insert[i]) {
            let _ = wanted.put(commit.root_tree);
        }
        proof {
            let shorter = to_insert@.take(i as int);
            let longer = to_insert@.take(i as int + 1);
            assert forall|oid: ObjectId| #[trigger]
                wanted@.contains(oid) <==> named.contains(oid) || is_root(
                    longer,
                    new_commits@,
                    oid,
                ) by {
                assert(before.contains(oid) <==> named.contains(oid) || is_root(
                    shorter,
                    new_commits@,
                    oid,
                ));
                if is_root(shorter, new_commits@, oid) {
                    let j = choose|j: int|
                        0 <= j < shorter.len() && new_commits@.contains_key(#[trigger] shorter[j])
                            && new_commits@[shorter[j]].root_tree == oid;
                    assert(longer[j] == shorter[j]);
                }
                if is_root(longer, new_commits@, oid) {
                    let j = choose|j: int|
                        0 <= j < longer.len() && new_commits@.contains_key(#[trigger] longer[j])
                            && new_commits@[longer[j]].root_tree == oid;
                    if j < i {
                        assert(shorter[j] == longer[j]);
                    }
                }
                if wanted@.contains(oid) && !before.contains(oid) {
                    assert(longer[i as int] == to_insert@[i as int]);
                }
            }
        }
        i += 1;
    }
    assert(to_insert@.take(i as int) =~= to_insert@);
    wanted.into_vec()
}

/// The ids of the objects with work.
pub open spec fn work_oids(relevant: Seq<Relevant>, objects: Seq<NewObject>) -> Seq<ObjectId> {
    relevant.map_values(|work: Relevant| objects[work.at as int].oid)
}

/// The ids of the objects with work.
pub fn insertable(new_objects: &[NewObject], relevant: &[Relevant]) -> (oids: Vec<ObjectId>)
    requires
        forall|i: int| 0 <= i < relevant@.len() ==> (#[trigger] relevant@[i]).at < new_objects@.len(),
    ensures
        oids@ == work_oids(relevant@, new_objects@),
{
    let mut oids: Vec<ObjectId> = Vec::new();
    let mut i: usize = 0;
    while i < relevant.len()
        invariant
            i <= relevant@.len(),
            forall|k: int|
                0 <= k < relevant@.len() ==> (#[trigger] relevant@[k]).at < new_objects@.len(),
            oids@ == work_oids(relevant@, new_objects@).take(i as int),
        decreases relevant@.len() - i,
    {
        oids.push(new_objects[relevant[i].at].oid);
        i += 1;
        assert(oids@ =~= work_oids(relevant@, new_objects@).take(i as int));
    }
    assert(oids@ =~= work_oids(relevant@, new_objects@));
    oids
}

/// What is known of the objects that recording names, and which it has to ask
/// about.
pub struct ObjectQuestions {
    pub seq_of: OrdMap<ObjectId, ObjectSeq>,
    pub unknown: Vec<ObjectId>,
}

/// Whether a number has to be asked for: nothing is known of the object, unless
/// it was asked about before and this push may insert it.
///
/// That it was absent may have gone stale. Where the push would insert the
/// object, losing that race is noticed; where the push only names it, believing
/// it would strand what names it.
pub open spec fn has_to_ask(
    known: Map<ObjectId, Option<Identity>>,
    insertable: Seq<ObjectId>,
    oid: ObjectId,
) -> bool {
    found_as(known, oid) is None && !(known.contains_key(oid) && insertable.contains(oid))
}

/// The number that is known of an object.
pub open spec fn known_seq(known: Map<ObjectId, Option<Identity>>, oid: ObjectId) -> Option<
    ObjectSeq,
> {
    match found_as(known, oid) {
        Some(identity) => as_seq(identity),
        None => None,
    }
}

/// Sort the objects that recording names into those whose number is known and
/// those to ask about.
pub fn object_questions(wanted: &[ObjectId], known: &KnownIdentities, insertable: &[ObjectId]) -> (
questions: ObjectQuestions)
    ensures
        questions.seq_of@ == Map::new(
            |oid: ObjectId| wanted@.contains(oid) && known_seq(known@, oid) is Some,
            |oid: ObjectId| known_seq(known@, oid)->0,
        ),
        questions.unknown@ == wanted@.filter(
            |oid: ObjectId| has_to_ask(known@, insertable@, oid),
        ),
{
    let mut own = IdList::new();
    own.put_all(insertable);
    let ghost ask = |oid: ObjectId| has_to_ask(known@, insertable@, oid);
    let mut seq_of: OrdMap<ObjectId, ObjectSeq> = OrdMap::new();
    let mut unknown: Vec<ObjectId> = Vec::new();
    let mut i: usize = 0;
    assert(unknown@ =~= wanted@.take(0).filter(ask)) by {
        reveal(Seq::filter);
    }
    while i < wanted.len()
        invariant
            i <= wanted@.len(),
            ask == (|oid: ObjectId| has_to_ask(known@, insertable@, oid)),
            forall|oid: ObjectId| #[trigger] own@.contains(oid) <==> insertable@.contains(oid),
            unknown@ == wanted@.take(i as int).filter(ask),
            forall|oid: ObjectId| #[trigger]
                seq_of@.contains_key(oid) <==> wanted@.take(i as int).contains(oid) && known_seq(
                    known@,
                    oid,
                ) is Some,
            forall|oid: ObjectId| #[trigger]
                seq_of@.contains_key(oid) ==> seq_of@[oid] == known_seq(known@, oid)->0,
        decreases wanted@.len() - i,
    {
        let ghost before = seq_of@;
        let oid = wanted[i];
        proof {
            reveal(Seq::filter);
            assert(wanted@.take(i as int + 1).drop_last() =~= wanted@.take(i as int));
        }
        match known.get(&oid) {
            Some(identity) => {
                if let Some(seq) = numbered(identity) {
                    let _ = seq_of.insert(oid, seq);
                }
            },
            None => {
                if !(known.covers(&oid) && own.contains(oid)) {
                    unknown.push(oid);
                }
            },
        }
        proof {
            let shorter = wanted@.take(i as int);
            assert(wanted@.take(i as int + 1) =~= shorter.push(oid));
            assert forall|other: ObjectId| #[trigger]
                seq_of@.contains_key(other) <==> wanted@.take(i as int + 1).contains(other)
                    && known_seq(known@, other) is Some by {
                lemma_push_contains(shorter, oid, other);
                assert(before.contains_key(other) <==> shorter.contains(other) && known_seq(
                    known@,
                    other,
                ) is Some);
            }
        }
        i += 1;
    }
    proof {
        assert(wanted@.take(i as int) =~= wanted@);
        assert(seq_of@ =~= Map::new(
            |oid: ObjectId| wanted@.contains(oid) && known_seq(known@, oid) is Some,
            |oid: ObjectId| known_seq(known@, oid)->0,
        ));
    }
    ObjectQuestions { seq_of, unknown }
}

/// Numbers with those of what was asked about over them.
pub open spec fn with_found(
    seq_of: Map<ObjectId, ObjectSeq>,
    found: Map<ObjectId, Identity>,
) -> Map<ObjectId, ObjectSeq> {
    Map::new(
        |oid: ObjectId|
            seq_of.contains_key(oid) || found.contains_key(oid) && as_seq(found[oid]) is Some,
        |oid: ObjectId|
            if found.contains_key(oid) && as_seq(found[oid]) is Some {
                as_seq(found[oid])->0
            } else {
                seq_of[oid]
            },
    )
}

/// Take in the numbers of what was asked about.
pub fn take_found(seq_of: &mut OrdMap<ObjectId, ObjectSeq>, found: &OrdMap<ObjectId, Identity>)
    ensures
        final(seq_of)@ == with_found(old(seq_of)@, found@),
{
    let pairs = found.as_entries();
    let ghost was = seq_of@;
    let mut i: usize = 0;
    while i < pairs.len()
        invariant
            i <= pairs@.len(),
            forall|k: int|
                0 <= k < pairs@.len() ==> found@.contains_key((#[trigger] pairs@[k]).0)
                    && found@[pairs@[k].0] == pairs@[k].1,
            forall|oid: ObjectId| #[trigger]
                seq_of@.contains_key(oid) <==> was.contains_key(oid) || keyed(
                    pairs@,
                    i as int,
                    oid,
                ) && as_seq(found@[oid]) is Some,
            forall|oid: ObjectId| #[trigger]
                seq_of@.contains_key(oid) ==> seq_of@[oid] == (if keyed(pairs@, i as int, oid)
                    && as_seq(found@[oid]) is Some {
                    as_seq(found@[oid])->0
                } else {
                    was[oid]
                }),
        decreases pairs@.len() - i,
    {
        let ghost before = seq_of@;
        let (oid, identity) = pairs[i];
        assert(pairs@[i as int].0 == oid);
        if let Some(seq) = numbered(identity) {
            let _ = seq_of.insert(oid, seq);
        }
        proof {
            lemma_keyed_next(pairs@, i as int);
            assert forall|other: ObjectId| #[trigger]
                seq_of@.contains_key(other) <==> was.contains_key(other) || keyed(
                    pairs@,
                    i as int + 1,
                    other,
                ) && as_seq(found@[other]) is Some by {
                assert(before.contains_key(other) <==> was.contains_key(other) || keyed(
                    pairs@,
                    i as int,
                    other,
                ) && as_seq(found@[other]) is Some);
            }
            assert forall|other: ObjectId| #[trigger]
                seq_of@.contains_key(other) implies seq_of@[other] == (if keyed(
                pairs@,
                i as int + 1,
                other,
            ) && as_seq(found@[other]) is Some {
                as_seq(found@[other])->0
            } else {
                was[other]
            }) by {
                if other != oid {
                    assert(before.contains_key(other));
                }
            }
        }
        i += 1;
    }
    proof {
        lemma_keyed_all(pairs@);
        assert(seq_of@ =~= with_found(was, found@));
    }
}

/// What the object index is asked about an object with work: none where it has
/// no number, or one past what a signed column holds.
pub open spec fn asked_as(
    work: Relevant,
    objects: Seq<NewObject>,
    seq_of: Map<ObjectId, ObjectSeq>,
) -> Option<(ObjectId, Identity)> {
    let object = objects[work.at as int];
    if seq_of.contains_key(object.oid) && seq_of[object.oid].its_seq() <= i64::MAX {
        Some(
            (
                object.oid,
                Identity { seq: seq_of[object.oid].its_seq() as i64, kind: object.kind },
            ),
        )
    } else {
        None
    }
}

/// What the object index is asked before anything is numbered: which of the
/// objects it holds already. A number that was just taken names nothing yet.
pub fn held_objects(
    new_objects: &[NewObject],
    relevant: &[Relevant],
    seq_of: &OrdMap<ObjectId, ObjectSeq>,
) -> (held: Vec<(ObjectId, Identity)>)
    requires
        forall|i: int| 0 <= i < relevant@.len() ==> (#[trigger] relevant@[i]).at < new_objects@.len(),
    ensures
        held@ == relevant@.filter(
            |work: Relevant| asked_as(work, new_objects@, seq_of@) is Some,
        ).map_values(|work: Relevant| asked_as(work, new_objects@, seq_of@)->0),
{
    let ghost keep = |work: Relevant| asked_as(work, new_objects@, seq_of@) is Some;
    let ghost with = |work: Relevant| asked_as(work, new_objects@, seq_of@)->0;
    let mut held: Vec<(ObjectId, Identity)> = Vec::new();
    let mut i: usize = 0;
    assert(held@ =~= relevant@.take(0).filter(keep).map_values(with)) by {
        reveal(Seq::filter);
    }
    while i < relevant.len()
        invariant
            i <= relevant@.len(),
            forall|k: int|
                0 <= k < relevant@.len() ==> (#[trigger] relevant@[k]).at < new_objects@.len(),
            keep == (|work: Relevant| asked_as(work, new_objects@, seq_of@) is Some),
            with == (|work: Relevant| asked_as(work, new_objects@, seq_of@)->0),
            held@ == relevant@.take(i as int).filter(keep).map_values(with),
        decreases relevant@.len() - i,
    {
        proof {
            reveal(Seq::filter);
            assert(relevant@.take(i as int + 1).drop_last() =~= relevant@.take(i as int));
        }
        let object = &new_objects[relevant[i].at];
        if let Some(seq) = seq_of.get(&object.oid) {
            let seq: u64 = seq.seq();
            if seq <= 0x7fff_ffff_ffff_ffff {
                held.push((object.oid, Identity { seq: seq as i64, kind: object.kind }));
            }
        }
        i += 1;
        assert(held@ =~= relevant@.take(i as int).filter(keep).map_values(with));
    }
    assert(relevant@.take(i as int) =~= relevant@);
    held
}

/// The objects with work that the index does not hold, in their order: those
/// that appear here for the first time.
pub fn fresh(oids: &[ObjectId], metas: &OrdMap<ObjectId, ObjectMeta>) -> (fresh: Vec<ObjectId>)
    ensures
        fresh@ == oids@.filter(|oid: ObjectId| !is_in_graph(metas@, oid)),
{
    to_insert(oids, metas)
}

/// The objects with work that have no number, in their order.
pub open spec fn lacking(
    work: Seq<Relevant>,
    objects: Seq<NewObject>,
    at_hand: Map<ObjectId, ObjectSeq>,
) -> Seq<(ObjectId, Kind)> {
    work.filter(|one: Relevant| !at_hand.contains_key(objects[one.at as int].oid)).map_values(
        |one: Relevant| (objects[one.at as int].oid, objects[one.at as int].kind),
    )
}

/// The objects with work that have no number, with their kinds.
pub fn missing(
    new_objects: &[NewObject],
    relevant: &[Relevant],
    seq_of: &OrdMap<ObjectId, ObjectSeq>,
) -> (missing: Vec<(ObjectId, Kind)>)
    requires
        forall|i: int| 0 <= i < relevant@.len() ==> (#[trigger] relevant@[i]).at < new_objects@.len(),
    ensures
        missing@ == lacking(relevant@, new_objects@, seq_of@),
{
    let ghost keep = |work: Relevant| !seq_of@.contains_key(new_objects@[work.at as int].oid);
    let ghost with = |work: Relevant|
        (new_objects@[work.at as int].oid, new_objects@[work.at as int].kind);
    let mut missing: Vec<(ObjectId, Kind)> = Vec::new();
    let mut i: usize = 0;
    assert(missing@ =~= relevant@.take(0).filter(keep).map_values(with)) by {
        reveal(Seq::filter);
    }
    while i < relevant.len()
        invariant
            i <= relevant@.len(),
            forall|k: int|
                0 <= k < relevant@.len() ==> (#[trigger] relevant@[k]).at < new_objects@.len(),
            keep == (|work: Relevant| !seq_of@.contains_key(new_objects@[work.at as int].oid)),
            with == (|work: Relevant|
                (new_objects@[work.at as int].oid, new_objects@[work.at as int].kind)),
            missing@ == relevant@.take(i as int).filter(keep).map_values(with),
        decreases relevant@.len() - i,
    {
        proof {
            reveal(Seq::filter);
            assert(relevant@.take(i as int + 1).drop_last() =~= relevant@.take(i as int));
        }
        let object = &new_objects[relevant[i].at];
        if !seq_of.contains_key(&object.oid) {
            missing.push((object.oid, object.kind));
        }
        i += 1;
        assert(missing@ =~= relevant@.take(i as int).filter(keep).map_values(with));
    }
    assert(relevant@.take(i as int) =~= relevant@);
    missing
}

/// Whether an object is of one kind.
pub open spec fn is_kind(kind: Kind) -> spec_fn((ObjectId, Kind)) -> bool {
    |pair: (ObjectId, Kind)| pair.1 == kind
}

/// Of the objects without a number, those of one kind.
pub open spec fn of_kind(lacking: Seq<(ObjectId, Kind)>, kind: Kind) -> Seq<ObjectId> {
    lacking.filter(is_kind(kind)).map_values(|pair: (ObjectId, Kind)| pair.0)
}

/// Of the objects without a number, those of one kind: each kind is counted by
/// itself.
pub fn taking(missing: &[(ObjectId, Kind)], kind: Kind) -> (taking: Vec<ObjectId>)
    ensures
        taking@ == of_kind(missing@, kind),
{
    let ghost keep = is_kind(kind);
    let ghost with = |pair: (ObjectId, Kind)| pair.0;
    let mut taking: Vec<ObjectId> = Vec::new();
    let mut i: usize = 0;
    assert(taking@ =~= missing@.take(0).filter(keep).map_values(with)) by {
        reveal(Seq::filter);
    }
    while i < missing.len()
        invariant
            i <= missing@.len(),
            keep == is_kind(kind),
            with == (|pair: (ObjectId, Kind)| pair.0),
            taking@ == missing@.take(i as int).filter(keep).map_values(with),
        decreases missing@.len() - i,
    {
        proof {
            reveal(Seq::filter);
            assert(missing@.take(i as int + 1).drop_last() =~= missing@.take(i as int));
        }
        if missing[i].1 == kind {
            taking.push(missing[i].0);
        }
        i += 1;
        assert(taking@ =~= missing@.take(i as int).filter(keep).map_values(with));
    }
    assert(missing@.take(i as int) =~= missing@);
    taking
}

/// The `k`th number of a range that starts at `start`.
pub open spec fn nth_seq(kind: Kind, start: i64, k: nat) -> Option<ObjectSeq> {
    as_seq(
        Identity {
            seq: if start + k > i64::MAX {
                i64::MAX
            } else {
                (start + k) as i64
            },
            kind,
        },
    )
}

/// Numbers with those of a range given out in order.
pub open spec fn given_out(
    seq_of: Map<ObjectId, ObjectSeq>,
    taking: Seq<ObjectId>,
    kind: Kind,
    start: i64,
) -> Map<ObjectId, ObjectSeq>
    decreases taking.len(),
{
    if taking.len() == 0 {
        seq_of
    } else {
        given_out(seq_of, taking.drop_last(), kind, start).insert(
            taking.last(),
            nth_seq(kind, start, (taking.len() - 1) as nat)->0,
        )
    }
}

/// Give the objects of one kind the range that was allocated from `start` on,
/// in their order. Fails for a kind that is not counted, and for a number below
/// zero.
pub fn number_objects(
    seq_of: &mut OrdMap<ObjectId, ObjectSeq>,
    taking: &[ObjectId],
    kind: Kind,
    start: i64,
) -> (r: Result<(), Error>)
    ensures
        match r {
            Ok(_) => {
                &&& forall|k: int|
                    0 <= k < taking@.len() ==> #[trigger] nth_seq(kind, start, k as nat) is Some
                &&& final(seq_of)@ == given_out(old(seq_of)@, taking@, kind, start)
            },
            Err(error) => {
                &&& error == Error::NotCounted
                &&& exists|k: int|
                    {
                        &&& 0 <= k < taking@.len()
                        &&& #[trigger] nth_seq(kind, start, k as nat) is None
                        &&& final(seq_of)@ == given_out(
                            old(seq_of)@,
                            taking@.take(k),
                            kind,
                            start,
                        )
                    }
            },
        },
{
    let mut i: usize = 0;
    assert(taking@.take(0) =~= Seq::<ObjectId>::empty());
    while i < taking.len()
        invariant
            i <= taking@.len(),
            forall|k: int|
                0 <= k < i ==> #[trigger] nth_seq(kind, start, k as nat) is Some,
            seq_of@ == given_out(old(seq_of)@, taking@.take(i as int), kind, start),
        decreases taking@.len() - i,
    {
        assert(taking@.take(i as int + 1).drop_last() =~= taking@.take(i as int));
        let sum: i128 = start as i128 + i as i128;
        let seq: i64 = if sum > 0x7fff_ffff_ffff_ffff {
            i64::MAX
        } else {
            sum as i64
        };
        match numbered(Identity { seq, kind }) {
            Some(seq) => {
                assert(nth_seq(kind, start, i as nat) == Some(seq));
                let _ = seq_of.insert(taking[i], seq);
            },
            None => {
                assert(nth_seq(kind, start, i as int as nat) is None);
                return Err(Error::NotCounted);
            },
        }
        i += 1;
    }
    assert(taking@.take(i as int) =~= taking@);
    Ok(())
}

} // verus!
