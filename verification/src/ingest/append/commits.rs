//! Which commits of a push are recorded, and under which numbers.
//!
//! What is recorded is for the commit graph to say: a number says what a commit
//! is called, and only an entry says that the repository holds it.

use vstd::prelude::*;

use crate::ingest::append::model::NewCommit;
use crate::ingest::identities::{found_as, KnownIdentities};
use crate::ingest::lists::{lemma_push_contains, IdList};
use crate::model::{Identity, ObjectMeta};
use crate::object::{Kind, ObjectId};
use crate::ordmap::{keyed, lemma_keyed_all, lemma_keyed_next, stands_at, OrdMap};

verus! {

/// Whether `oid` is the parent of a commit that the push brought.
pub open spec fn is_parent(commits: Map<ObjectId, NewCommit>, oid: ObjectId) -> bool {
    exists|child: ObjectId| #[trigger]
        commits.contains_key(child) && commits[child].parents@.contains(oid)
}

/// Whether a push names `oid` as a commit: one that it brought, or a parent.
pub open spec fn names_commit(
    order: Seq<ObjectId>,
    commits: Map<ObjectId, NewCommit>,
    oid: ObjectId,
) -> bool {
    order.contains(oid) || is_parent(commits, oid)
}

/// Every commit that a push names, each once: first those that it brought.
pub fn commits_named(order: &[ObjectId], new_commits: &OrdMap<ObjectId, NewCommit>) -> (named: Vec<
    ObjectId,
>)
    ensures
        named@.no_duplicates(),
        forall|oid: ObjectId| #[trigger]
            named@.contains(oid) <==> names_commit(order@, new_commits@, oid),
{
    let mut named = IdList::new();
    named.put_all(order);
    let pairs = new_commits.as_entries();
    let ghost all = new_commits@;
    let mut i: usize = 0;
    while i < pairs.len()
        invariant
            i <= pairs@.len(),
            forall|oid: ObjectId| #[trigger]
                named@.contains(oid) <==> order@.contains(oid) || exists|k: int|
                    0 <= k < i && (#[trigger] pairs@[k]).1.parents@.contains(oid),
        decreases pairs@.len() - i,
    {
        let ghost before = named@;
        named.put_all(pairs[i].1.parents.as_slice());
        proof {
            assert forall|oid: ObjectId| #[trigger]
                named@.contains(oid) <==> order@.contains(oid) || exists|k: int|
                    0 <= k < i + 1 && (#[trigger] pairs@[k]).1.parents@.contains(oid) by {
                assert(before.contains(oid) <==> order@.contains(oid) || exists|k: int|
                    0 <= k < i && (#[trigger] pairs@[k]).1.parents@.contains(oid));
                if exists|k: int| 0 <= k < i && (#[trigger] pairs@[k]).1.parents@.contains(oid) {
                    let k = choose|k: int|
                        0 <= k < i && (#[trigger] pairs@[k]).1.parents@.contains(oid);
                    assert(pairs@[k].1.parents@.contains(oid));
                }
                if pairs@[i as int].1.parents@.contains(oid) {
                    assert(pairs@[i as int].1.parents@.contains(oid));
                }
            }
        }
        i += 1;
    }
    proof {
        assert forall|oid: ObjectId| (exists|k: int|
            0 <= k < pairs@.len() && (#[trigger] pairs@[k]).1.parents@.contains(oid))
            <==> #[trigger] is_parent(all, oid) by {
            if exists|k: int|
                0 <= k < pairs@.len() && (#[trigger] pairs@[k]).1.parents@.contains(oid) {
                let k = choose|k: int|
                    0 <= k < pairs@.len() && (#[trigger] pairs@[k]).1.parents@.contains(oid);
                assert(all.contains_key(pairs@[k].0));
            }
            if is_parent(all, oid) {
                let child = choose|child: ObjectId| #[trigger]
                    all.contains_key(child) && all[child].parents@.contains(oid);
                let k = choose|k: int| stands_at(pairs@, child, k);
                assert(pairs@[k].0 == child);
                assert(pairs@[k].1.parents@.contains(oid));
            }
        }
        assert forall|oid: ObjectId| #[trigger] named@.contains(oid) <==> names_commit(
            order@,
            all,
            oid,
        ) by {
            assert(is_parent(all, oid) <==> exists|k: int|
                0 <= k < pairs@.len() && (#[trigger] pairs@[k]).1.parents@.contains(oid));
        }
    }
    named.into_vec()
}

/// What is known of the commits that a push names, and which it has to ask
/// about.
pub struct CommitQuestions {
    /// The numbers that are known.
    pub seq_of: OrdMap<ObjectId, i64>,
    /// The commits that were never asked about, each once.
    pub asking: Vec<ObjectId>,
}

/// Whether an object is known to be a commit.
pub open spec fn known_commit(known: Map<ObjectId, Option<Identity>>, oid: ObjectId) -> bool {
    found_as(known, oid) is Some && found_as(known, oid)->0.kind == Kind::Commit
}

/// Sort the commits that a push names into those whose number is known and
/// those to ask about. One that was asked about and not found is in neither.
pub fn commit_questions(
    order: &[ObjectId],
    new_commits: &OrdMap<ObjectId, NewCommit>,
    known: &KnownIdentities,
) -> (questions: CommitQuestions)
    ensures
        questions.seq_of@ == Map::new(
            |oid: ObjectId|
                names_commit(order@, new_commits@, oid) && known_commit(known@, oid),
            |oid: ObjectId| found_as(known@, oid)->0.seq,
        ),
        questions.asking@.no_duplicates(),
        forall|oid: ObjectId| #[trigger]
            questions.asking@.contains(oid) <==> names_commit(order@, new_commits@, oid)
                && !known@.contains_key(oid),
{
    let named = commits_named(order, new_commits);
    let mut seq_of: OrdMap<ObjectId, i64> = OrdMap::new();
    let mut asking = IdList::new();
    let mut i: usize = 0;
    while i < named.len()
        invariant
            i <= named@.len(),
            forall|oid: ObjectId| #[trigger]
                seq_of@.contains_key(oid) <==> known_commit(known@, oid) && named@.take(
                    i as int,
                ).contains(oid),
            forall|oid: ObjectId| #[trigger]
                seq_of@.contains_key(oid) ==> seq_of@[oid] == found_as(known@, oid)->0.seq,
            forall|oid: ObjectId| #[trigger]
                asking@.contains(oid) <==> !known@.contains_key(oid) && named@.take(
                    i as int,
                ).contains(oid),
        decreases named@.len() - i,
    {
        let ghost seq0 = seq_of@;
        let ghost asking0 = asking@;
        let oid = named[i];
        if known.covers(&oid) {
            if let Some(identity) = known.get(&oid) {
                if identity.kind == Kind::Commit {
                    let _ = seq_of.insert(oid, identity.seq);
                }
            }
        } else {
            let _ = asking.put(oid);
        }
        proof {
            let shorter = named@.take(i as int);
            assert(named@.take(i as int + 1) =~= shorter.push(oid));
            assert forall|other: ObjectId| #[trigger]
                seq_of@.contains_key(other) <==> known_commit(known@, other) && named@.take(
                    i as int + 1,
                ).contains(other) by {
                lemma_push_contains(shorter, oid, other);
                assert(seq0.contains_key(other) <==> known_commit(known@, other)
                    && shorter.contains(other));
            }
            assert forall|other: ObjectId| #[trigger]
                asking@.contains(other) <==> !known@.contains_key(other) && named@.take(
                    i as int + 1,
                ).contains(other) by {
                lemma_push_contains(shorter, oid, other);
                assert(asking0.contains(other) <==> !known@.contains_key(other)
                    && shorter.contains(other));
            }
        }
        i += 1;
    }
    proof {
        assert(named@.take(i as int) =~= named@);
        assert(seq_of@ =~= Map::new(
            |oid: ObjectId|
                names_commit(order@, new_commits@, oid) && known_commit(known@, oid),
            |oid: ObjectId| found_as(known@, oid)->0.seq,
        ));
    }
    CommitQuestions { seq_of, asking: asking.into_vec() }
}

/// Every commit that has a number, as the commit graph is asked about it.
pub fn commit_identities(seq_of: &OrdMap<ObjectId, i64>) -> (named: Vec<(ObjectId, Identity)>)
    ensures
        named@.len() == seq_of.entries().len(),
        forall|i: int|
            0 <= i < named@.len() ==> {
                &&& seq_of@.contains_key((#[trigger] named@[i]).0)
                &&& named@[i].1 == (Identity { seq: seq_of@[named@[i].0], kind: Kind::Commit })
            },
        forall|oid: ObjectId| #[trigger]
            seq_of@.contains_key(oid) ==> exists|i: int|
                0 <= i < named@.len() && (#[trigger] named@[i]).0 == oid,
{
    let pairs = seq_of.as_entries();
    let mut named: Vec<(ObjectId, Identity)> = Vec::new();
    let mut i: usize = 0;
    while i < pairs.len()
        invariant
            i <= pairs@.len(),
            named@.len() == i,
            forall|k: int|
                0 <= k < i ==> (#[trigger] named@[k]) == (
                    pairs@[k].0,
                    (Identity { seq: pairs@[k].1, kind: Kind::Commit }),
                ),
        decreases pairs@.len() - i,
    {
        named.push((pairs[i].0, Identity { seq: pairs[i].1, kind: Kind::Commit }));
        i += 1;
    }
    proof {
        assert forall|k: int| 0 <= k < named@.len() implies {
            &&& seq_of@.contains_key((#[trigger] named@[k]).0)
            &&& named@[k].1 == (Identity { seq: seq_of@[named@[k].0], kind: Kind::Commit })
        } by {
            assert(pairs@[k].0 == named@[k].0);
        }
        assert forall|oid: ObjectId| #[trigger] seq_of@.contains_key(oid) implies exists|k: int|
            0 <= k < named@.len() && (#[trigger] named@[k]).0 == oid by {
            let k = choose|k: int| stands_at(pairs@, oid, k);
            assert(named@[k].0 == oid);
        }
    }
    named
}

/// Whether the commit graph holds a commit.
pub open spec fn is_in_graph(metas: Map<ObjectId, ObjectMeta>, oid: ObjectId) -> bool {
    metas.contains_key(oid) && metas[oid].is_held()
}

/// The commits to record, parents first: those that the graph does not hold.
///
/// A commit that was numbered and whose entry never landed has to be written:
/// its number is permanent, so that every later push would leave it out too.
pub fn to_insert(order: &[ObjectId], metas: &OrdMap<ObjectId, ObjectMeta>) -> (to_insert: Vec<
    ObjectId,
>)
    ensures
        to_insert@ == order@.filter(|oid: ObjectId| !is_in_graph(metas@, oid)),
{
    let ghost keep = |oid: ObjectId| !is_in_graph(metas@, oid);
    let mut to_insert: Vec<ObjectId> = Vec::new();
    let mut i: usize = 0;
    assert(to_insert@ =~= order@.take(0).filter(keep)) by {
        reveal(Seq::filter);
    }
    while i < order.len()
        invariant
            i <= order@.len(),
            keep == (|oid: ObjectId| !is_in_graph(metas@, oid)),
            to_insert@ == order@.take(i as int).filter(keep),
        decreases order@.len() - i,
    {
        proof {
            reveal(Seq::filter);
            assert(order@.take(i as int + 1).drop_last() =~= order@.take(i as int));
        }
        let stored = match metas.get(&order[i]) {
            Some(meta) => meta.is_stored(),
            None => false,
        };
        if !stored {
            to_insert.push(order[i]);
        }
        i += 1;
    }
    assert(order@.take(i as int) =~= order@);
    to_insert
}

/// The commits to number: those to record that have none yet. One that has a
/// number keeps it, so that a retry writes the entry that was missing.
pub fn to_number(to_insert: &[ObjectId], seq_of: &OrdMap<ObjectId, i64>) -> (taking: Vec<ObjectId>)
    ensures
        taking@ == to_insert@.filter(|oid: ObjectId| !seq_of@.contains_key(oid)),
{
    let ghost keep = |oid: ObjectId| !seq_of@.contains_key(oid);
    let mut taking: Vec<ObjectId> = Vec::new();
    let mut i: usize = 0;
    assert(taking@ =~= to_insert@.take(0).filter(keep)) by {
        reveal(Seq::filter);
    }
    while i < to_insert.len()
        invariant
            i <= to_insert@.len(),
            keep == (|oid: ObjectId| !seq_of@.contains_key(oid)),
            taking@ == to_insert@.take(i as int).filter(keep),
        decreases to_insert@.len() - i,
    {
        proof {
            reveal(Seq::filter);
            assert(to_insert@.take(i as int + 1).drop_last() =~= to_insert@.take(i as int));
        }
        if !seq_of.contains_key(&to_insert[i]) {
            taking.push(to_insert[i]);
        }
        i += 1;
    }
    assert(to_insert@.take(i as int) =~= to_insert@);
    taking
}

/// Numbers from `start` on, one after the other.
pub open spec fn numbered_from(
    seq_of: Map<ObjectId, i64>,
    taking: Seq<ObjectId>,
    start: i64,
) -> Map<ObjectId, i64>
    decreases taking.len(),
{
    if taking.len() == 0 {
        seq_of
    } else {
        numbered_from(seq_of, taking.drop_last(), start).insert(
            taking.last(),
            (start + taking.len() - 1) as i64,
        )
    }
}

/// Take in the numbers of the commits that were asked about.
pub fn take_commits(seq_of: &mut OrdMap<ObjectId, i64>, found: &OrdMap<ObjectId, i64>)
    ensures
        final(seq_of)@ == old(seq_of)@.union_prefer_right(found@),
{
    let pairs = found.as_entries();
    let ghost was = seq_of@;
    let mut i: usize = 0;
    while i < pairs.len()
        invariant
            i <= pairs@.len(),
            forall|k: int|
                0 <= k < pairs@.len() ==> found@.contains_key((#[trigger] pairs@[k]).0)
                    && found@[pairs@[k].0] == pairs@[k].1,
            forall|oid: ObjectId| #[trigger]
                seq_of@.contains_key(oid) <==> was.contains_key(oid) || keyed(
                    pairs@,
                    i as int,
                    oid,
                ),
            forall|oid: ObjectId| #[trigger]
                seq_of@.contains_key(oid) ==> seq_of@[oid] == (if keyed(pairs@, i as int, oid) {
                    found@[oid]
                } else {
                    was[oid]
                }),
        decreases pairs@.len() - i,
    {
        let ghost before = seq_of@;
        let (oid, seq) = pairs[i];
        assert(pairs@[i as int].0 == oid);
        let _ = seq_of.insert(oid, seq);
        proof {
            lemma_keyed_next(pairs@, i as int);
            assert forall|other: ObjectId| #[trigger]
                seq_of@.contains_key(other) <==> was.contains_key(other) || keyed(
                    pairs@,
                    i as int + 1,
                    other,
                ) by {
                assert(before.contains_key(other) <==> was.contains_key(other) || keyed(
                    pairs@,
                    i as int,
                    other,
                ));
            }
            assert forall|other: ObjectId| #[trigger]
                seq_of@.contains_key(other) implies seq_of@[other] == (if keyed(
                pairs@,
                i as int + 1,
                other,
            ) {
                found@[other]
            } else {
                was[other]
            }) by {
                if other != oid {
                    assert(before.contains_key(other));
                }
            }
        }
        i += 1;
    }
    proof {
        lemma_keyed_all(pairs@);
        assert(seq_of@ =~= was.union_prefer_right(found@));
    }
}

/// Give the commits to number the range that was allocated from `start` on, in
/// their order.
pub fn number_commits(seq_of: &mut OrdMap<ObjectId, i64>, taking: &[ObjectId], start: i64)
    requires
        start + taking@.len() <= i64::MAX + 1,
    ensures
        final(seq_of)@ == numbered_from(old(seq_of)@, taking@, start),
{
    let mut i: usize = 0;
    assert(taking@.take(0) =~= Seq::<ObjectId>::empty());
    while i < taking.len()
        invariant
            i <= taking@.len(),
            start + taking@.len() <= i64::MAX + 1,
            seq_of@ == numbered_from(old(seq_of)@, taking@.take(i as int), start),
        decreases taking@.len() - i,
    {
        assert(taking@.take(i as int + 1).drop_last() =~= taking@.take(i as int));
        let _ = seq_of.insert(taking[i], (start as i128 + i as i128) as i64);
        i += 1;
    }
    assert(taking@.take(i as int) =~= taking@);
}

} // verus!
