//! Planning a push in rounds.
//!
//! Comparing a commit's tree with its first parent's needs trees that the push
//! may not carry. Each round takes what the comparisons found, settles the
//! commits that it can, and says which trees to read before the next.

use vstd::prelude::*;

use crate::error::Error;
use crate::ingest::graph::{runs, ObjectRefs, TreeChild, TreeDiff};
use crate::ingest::plan::{entries_of, ordered, DeltaEntry, DeltaPlan, EntrySource};
use crate::model::{CommitPackLocation, Identity, ObjectMeta};
use crate::object::{Kind, ObjectId};
use crate::ordmap::{held, in_order, stands_at, OrdMap, OrdSet};

verus! {

/// A commit's first parent, where it has one.
pub open spec fn first_parent(refs: ObjectRefs) -> Option<ObjectId> {
    if refs is Commit && refs->parents@.len() > 0 {
        Some(refs->parents@[0])
    } else {
        None
    }
}

/// Whether a push carries `oid` as a commit.
pub open spec fn is_commit_of(push: Map<ObjectId, ObjectRefs>, oid: ObjectId) -> bool {
    push.contains_key(oid) && push[oid] is Commit
}

/// Whether `parent` is the first parent of a commit of the push, and lies
/// outside the push.
pub open spec fn is_boundary(push: Map<ObjectId, ObjectRefs>, parent: ObjectId) -> bool {
    !is_commit_of(push, parent) && exists|oid: ObjectId| #[trigger]
        is_commit_of(push, oid) && first_parent(push[oid]) == Some(parent)
}

/// The first parents that the push does not carry, each once.
pub fn boundary(object_refs: &OrdMap<ObjectId, ObjectRefs>) -> (parents: Vec<ObjectId>)
    ensures
        parents@.no_duplicates(),
        forall|parent: ObjectId| #[trigger]
            parents@.contains(parent) <==> is_boundary(object_refs@, parent),
{
    let entries = object_refs.as_entries();
    let ghost push = object_refs@;
    let mut seen: OrdSet<ObjectId> = OrdSet::new();
    let mut parents: Vec<ObjectId> = Vec::new();
    let mut i: usize = 0;
    while i < entries.len()
        invariant
            i <= entries@.len(),
            push == object_refs@,
            push == held(entries@),
            in_order(entries@),
            forall|j: int|
                0 <= j < entries@.len() ==> push.contains_key((#[trigger] entries@[j]).0)
                    && push[entries@[j].0] == entries@[j].1,
            parents@.no_duplicates(),
            forall|parent: ObjectId| #[trigger]
                parents@.contains(parent) <==> seen@.contains(parent),
            forall|parent: ObjectId| #[trigger]
                seen@.contains(parent) <==> !is_commit_of(push, parent) && exists|j: int|
                    0 <= j < i && first_parent((#[trigger] entries@[j]).1) == Some(parent),
        decreases entries@.len() - i,
    {
        let ghost before = seen@;
        let ghost listed = parents@;
        let refs = &entries[i].1;
        let first: Option<ObjectId> = match refs {
            ObjectRefs::Commit { parents: own, .. } => if own.len() > 0 {
                Some(own[0])
            } else {
                None
            },
            _ => None,
        };
        if let Some(parent) = first {
            let carried = match object_refs.get(&parent) {
                Some(ObjectRefs::Commit { .. }) => true,
                _ => false,
            };
            if !carried && seen.insert(parent) {
                parents.push(parent);
                proof {
                    assert(!listed.contains(parent));
                    assert forall|other: ObjectId| #[trigger]
                        parents@.contains(other) <==> seen@.contains(other) by {
                        if listed.contains(other) {
                            let k = choose|k: int| 0 <= k < listed.len() && listed[k] == other;
                            assert(parents@[k] == other);
                        }
                        if other == parent {
                            assert(parents@[listed.len() as int] == other);
                        }
                    }
                }
            }
        }
        proof {
            assert(first == first_parent(entries@[i as int].1));
            assert forall|parent: ObjectId| #[trigger]
                seen@.contains(parent) <==> !is_commit_of(push, parent) && exists|j: int|
                    0 <= j < i + 1 && first_parent((#[trigger] entries@[j]).1) == Some(parent) by {
                if before.contains(parent) {
                    let j = choose|j: int|
                        0 <= j < i && first_parent((#[trigger] entries@[j]).1) == Some(parent);
                    assert(first_parent(entries@[j].1) == Some(parent));
                }
                if first == Some(parent) {
                    assert(first_parent(entries@[i as int].1) == Some(parent));
                }
            }
        }
        i += 1;
    }
    proof {
        assert forall|parent: ObjectId| #[trigger] parents@.contains(parent) <==> is_boundary(
            push,
            parent,
        ) by {
            if seen@.contains(parent) {
                let j = choose|j: int|
                    0 <= j < entries@.len() && first_parent((#[trigger] entries@[j]).1) == Some(
                        parent,
                    );
                assert(is_commit_of(push, entries@[j].0));
            }
            if is_boundary(push, parent) {
                let oid = choose|oid: ObjectId| #[trigger]
                    is_commit_of(push, oid) && first_parent(push[oid]) == Some(parent);
                let j = choose|j: int| stands_at(entries@, oid, j);
                assert(entries@[j].0 == oid);
                assert(first_parent(entries@[j].1) == Some(parent));
            }
        }
    }
    parents
}

/// One commit's place in the rounds: what it compares, and the answer once
/// there is one.
#[derive(Debug)]
pub struct Planning {
    pub commit: ObjectId,
    pub root_tree: ObjectId,
    /// The tree it is compared with.
    pub base_root: Option<ObjectId>,
    pub entries: Option<Vec<DeltaEntry>>,
    /// The comparison reached a tree that nothing holds, so there is no pack.
    pub unplannable: bool,
}

/// A commit's place in the rounds.
#[verifier::ext_equal]
pub struct PlanningView {
    pub commit: ObjectId,
    pub root_tree: ObjectId,
    pub base_root: Option<ObjectId>,
    pub entries: Option<Seq<DeltaEntry>>,
    pub unplannable: bool,
}

impl View for Planning {
    type V = PlanningView;

    open spec fn view(&self) -> PlanningView {
        PlanningView {
            commit: self.commit,
            root_tree: self.root_tree,
            base_root: self.base_root,
            entries: match self.entries {
                Some(entries) => Some(entries@),
                None => None,
            },
            unplannable: self.unplannable,
        }
    }
}

impl PlanningView {
    /// Whether there is an answer: a plan, or that there can be none.
    pub open spec fn is_settled(self) -> bool {
        self.entries is Some || self.unplannable
    }
}

impl Planning {
    /// Whether there is an answer: a plan, or that there can be none.
    pub fn settled(&self) -> (settled: bool)
        ensures
            settled == self@.is_settled(),
    {
        self.entries.is_some() || self.unplannable
    }
}

/// The tree that a commit of the push is compared with: its first parent's,
/// from the push or from what was read at its boundary.
pub open spec fn compared_with(
    push: Map<ObjectId, ObjectRefs>,
    boundary_roots: Map<ObjectId, ObjectId>,
    refs: ObjectRefs,
) -> Option<ObjectId> {
    match first_parent(refs) {
        Some(parent) => if is_commit_of(push, parent) {
            Some(push[parent]->root_tree)
        } else if boundary_roots.contains_key(parent) {
            Some(boundary_roots[parent])
        } else {
            None
        },
        None => None,
    }
}

/// Where a commit of the push starts.
pub open spec fn starting(
    push: Map<ObjectId, ObjectRefs>,
    boundary_roots: Map<ObjectId, ObjectId>,
    oid: ObjectId,
) -> PlanningView {
    PlanningView {
        commit: oid,
        root_tree: push[oid]->root_tree,
        base_root: compared_with(push, boundary_roots, push[oid]),
        entries: None,
        unplannable: false,
    }
}

/// Every commit of the push, each once, with nothing settled.
///
/// `boundary_roots` is what was found of [`boundary`]'s parents; a parent that
/// is in neither leaves its commit nothing to be compared with.
pub fn start(
    object_refs: &OrdMap<ObjectId, ObjectRefs>,
    boundary_roots: &OrdMap<ObjectId, ObjectId>,
) -> (pending: Vec<Planning>)
    ensures
        forall|i: int|
            0 <= i < pending@.len() ==> {
                &&& is_commit_of(object_refs@, (#[trigger] pending@[i])@.commit)
                &&& pending@[i]@ == starting(object_refs@, boundary_roots@, pending@[i]@.commit)
            },
        forall|oid: ObjectId| #[trigger]
            is_commit_of(object_refs@, oid) ==> exists|i: int|
                0 <= i < pending@.len() && (#[trigger] pending@[i])@.commit == oid,
        forall|i: int, j: int|
            0 <= i < j < pending@.len() ==> (#[trigger] pending@[i])@.commit != (
            #[trigger] pending@[j])@.commit,
{
    let entries = object_refs.as_entries();
    let ghost push = object_refs@;
    let mut pending: Vec<Planning> = Vec::new();
    let mut i: usize = 0;
    while i < entries.len()
        invariant
            i <= entries@.len(),
            push == object_refs@,
            push == held(entries@),
            in_order(entries@),
            forall|j: int|
                0 <= j < entries@.len() ==> push.contains_key((#[trigger] entries@[j]).0)
                    && push[entries@[j].0] == entries@[j].1,
            forall|j: int|
                0 <= j < pending@.len() ==> {
                    &&& is_commit_of(push, (#[trigger] pending@[j])@.commit)
                    &&& pending@[j]@ == starting(push, boundary_roots@, pending@[j]@.commit)
                    &&& exists|k: int|
                        0 <= k < i && (#[trigger] entries@[k]).0 == pending@[j]@.commit
                },
            forall|k: int|
                0 <= k < i && (#[trigger] entries@[k]).1 is Commit ==> exists|j: int|
                    0 <= j < pending@.len() && (#[trigger] pending@[j])@.commit == entries@[k].0,
            forall|a: int, b: int|
                0 <= a < b < pending@.len() ==> (#[trigger] pending@[a])@.commit != (
                #[trigger] pending@[b])@.commit,
        decreases entries@.len() - i,
    {
        let ghost before = pending@;
        let commit = entries[i].0;
        assert(entries@[i as int].0 == commit);
        if let ObjectRefs::Commit { root_tree, parents, .. } = &entries[i].1 {
            let base_root: Option<ObjectId> = if parents.len() > 0 {
                match object_refs.get(&parents[0]) {
                    Some(ObjectRefs::Commit { root_tree: root, .. }) => Some(*root),
                    _ => match boundary_roots.get(&parents[0]) {
                        Some(root) => Some(*root),
                        None => None,
                    },
                }
            } else {
                None
            };
            pending.push(
                Planning {
                    commit,
                    root_tree: *root_tree,
                    base_root,
                    entries: None,
                    unplannable: false,
                },
            );
            proof {
                assert(pending@[before.len() as int]@ =~= starting(push, boundary_roots@, commit));
                assert forall|a: int, b: int| 0 <= a < b < pending@.len() implies (
                #[trigger] pending@[a])@.commit != (#[trigger] pending@[b])@.commit by {
                    if b == before.len() {
                        assert(pending@[a] == before[a]);
                        let k = choose|k: int|
                            0 <= k < i && (#[trigger] entries@[k]).0 == before[a]@.commit;
                        <ObjectId as crate::ordmap::OrdKey>::before_is_strict(
                            entries@[k].0,
                            entries@[i as int].0,
                        );
                    }
                }
            }
        }
        proof {
            assert forall|j: int| 0 <= j < pending@.len() implies {
                &&& is_commit_of(push, (#[trigger] pending@[j])@.commit)
                &&& pending@[j]@ == starting(push, boundary_roots@, pending@[j]@.commit)
                &&& exists|k: int|
                    0 <= k < i + 1 && (#[trigger] entries@[k]).0 == pending@[j]@.commit
            } by {
                if j < before.len() {
                    assert(pending@[j] == before[j]);
                    let k = choose|k: int|
                        0 <= k < i && (#[trigger] entries@[k]).0 == before[j]@.commit;
                    assert(entries@[k].0 == pending@[j]@.commit);
                }
            }
            assert forall|k: int| 0 <= k < i + 1 && (#[trigger] entries@[k]).1 is Commit implies exists|
                j: int,
            | 0 <= j < pending@.len() && (#[trigger] pending@[j])@.commit == entries@[k].0 by {
                if k < i {
                    let j = choose|j: int|
                        0 <= j < before.len() && (#[trigger] before[j])@.commit == entries@[k].0;
                    assert(pending@[j]@.commit == entries@[k].0);
                } else {
                    assert(pending@[before.len() as int]@.commit == entries@[k].0);
                }
            }
        }
        i += 1;
    }
    proof {
        assert forall|oid: ObjectId| #[trigger] is_commit_of(push, oid) implies exists|j: int|
            0 <= j < pending@.len() && (#[trigger] pending@[j])@.commit == oid by {
            let k = choose|k: int| stands_at(entries@, oid, k);
            assert(entries@[k].0 == oid);
        }
    }
    pending
}

/// The trees of a list that come before the first one that was read already.
pub open spec fn unread_prefix(
    unreadable: Seq<ObjectId>,
    fetched: Map<ObjectId, Option<Vec<TreeChild>>>,
) -> Seq<ObjectId>
    decreases unreadable.len(),
{
    if unreadable.len() == 0 {
        Seq::empty()
    } else {
        let shorter = unread_prefix(unreadable.drop_last(), fetched);
        if shorter.len() == unreadable.len() - 1 && !fetched.contains_key(unreadable.last()) {
            unreadable
        } else {
            shorter
        }
    }
}

/// The unread prefix is a prefix of unread trees, and stops at one that was
/// read or at the end.
proof fn lemma_unread_prefix(
    unreadable: Seq<ObjectId>,
    fetched: Map<ObjectId, Option<Vec<TreeChild>>>,
)
    ensures
        ({
            let k = unread_prefix(unreadable, fetched).len() as int;
            &&& k <= unreadable.len()
            &&& unread_prefix(unreadable, fetched) == unreadable.take(k)
            &&& forall|j: int| 0 <= j < k ==> !fetched.contains_key(#[trigger] unreadable[j])
            &&& k < unreadable.len() ==> fetched.contains_key(unreadable[k])
        }),
    decreases unreadable.len(),
{
    if unreadable.len() > 0 {
        let shorter = unreadable.drop_last();
        lemma_unread_prefix(shorter, fetched);
        let k = unread_prefix(shorter, fetched).len() as int;
        assert forall|j: int| 0 <= j < k implies !fetched.contains_key(
            #[trigger] unreadable[j],
        ) by {
            assert(shorter[j] == unreadable[j]);
        }
        assert(shorter.take(k) =~= unreadable.take(k));
        assert(unreadable.take(unreadable.len() as int) =~= unreadable);
    } else {
        assert(unreadable.take(0) =~= Seq::<ObjectId>::empty());
    }
}

/// Where a commit stands after a round, given what its comparison found.
pub open spec fn advanced(
    item: PlanningView,
    diff: Option<TreeDiff>,
    fetched: Map<ObjectId, Option<Vec<TreeChild>>>,
) -> PlanningView {
    if item.is_settled() {
        item
    } else {
        let unreadable = diff->0.unreadable@;
        let k = unread_prefix(unreadable, fetched).len() as int;
        if unreadable.len() == 0 {
            PlanningView {
                entries: Some(ordered(item.root_tree, item.base_root, diff->0.changes@)),
                ..item
            }
        } else if k < unreadable.len() && fetched[unreadable[k]] is None {
            PlanningView { unplannable: true, ..item }
        } else {
            item
        }
    }
}

/// The trees a commit wants read before the next round.
pub open spec fn wants(
    item: PlanningView,
    diff: Option<TreeDiff>,
    fetched: Map<ObjectId, Option<Vec<TreeChild>>>,
) -> Seq<ObjectId> {
    if item.is_settled() {
        Seq::empty()
    } else {
        unread_prefix(diff->0.unreadable@, fetched)
    }
}

/// Whether a comparison could not read a tree that it was given.
pub open spec fn is_stuck(
    item: PlanningView,
    diff: Option<TreeDiff>,
    fetched: Map<ObjectId, Option<Vec<TreeChild>>>,
) -> bool {
    let unreadable = diff->0.unreadable@;
    let k = unread_prefix(unreadable, fetched).len() as int;
    !item.is_settled() && k < unreadable.len() && fetched[unreadable[k]] is Some
}

/// Take one round's comparisons in and say which trees they are missing, each
/// once.
///
/// `diffs` holds what comparing each unsettled commit's trees found, and
/// `fetched` what was read in earlier rounds, with none for a tree that nothing
/// holds.
///
/// No tree that was read is asked for again, and a round that asks for none has
/// settled every commit.
pub fn diff_round(
    pending: &mut Vec<Planning>,
    diffs: &[Option<TreeDiff>],
    fetched: &OrdMap<ObjectId, Option<Vec<TreeChild>>>,
) -> (round: Result<Vec<ObjectId>, Error>)
    requires
        diffs@.len() == old(pending)@.len(),
        forall|i: int|
            0 <= i < diffs@.len() && !(#[trigger] old(pending)@[i])@.is_settled() ==> diffs@[i] is Some,
    ensures
        final(pending)@.len() == old(pending)@.len(),
        match round {
            Ok(round) => {
                &&& forall|i: int|
                    0 <= i < diffs@.len() ==> {
                        &&& !is_stuck((#[trigger] old(pending)@[i])@, diffs@[i], fetched@)
                        &&& final(pending)@[i]@ == advanced(
                            old(pending)@[i]@,
                            diffs@[i],
                            fetched@,
                        )
                    }
                &&& round@.no_duplicates()
                &&& forall|oid: ObjectId| #[trigger]
                    round@.contains(oid) <==> exists|i: int|
                        0 <= i < diffs@.len() && wants(
                            (#[trigger] old(pending)@[i])@,
                            diffs@[i],
                            fetched@,
                        ).contains(oid)
                &&& forall|oid: ObjectId| #[trigger]
                    round@.contains(oid) ==> !fetched@.contains_key(oid)
                &&& round@.len() == 0 ==> forall|i: int|
                    0 <= i < diffs@.len() ==> (#[trigger] final(pending)@[i])@.is_settled()
            },
            Err(error) => {
                &&& error == Error::TreeUnreadable
                &&& exists|stuck: int|
                    {
                        &&& 0 <= stuck < diffs@.len()
                        &&& is_stuck(
                            (#[trigger] old(pending)@[stuck])@,
                            diffs@[stuck],
                            fetched@,
                        )
                        &&& forall|i: int|
                            0 <= i < stuck ==> !is_stuck(
                                (#[trigger] old(pending)@[i])@,
                                diffs@[i],
                                fetched@,
                            ) && final(pending)@[i]@ == advanced(
                                old(pending)@[i]@,
                                diffs@[i],
                                fetched@,
                            )
                        &&& forall|i: int|
                            stuck <= i < diffs@.len() ==> (#[trigger] final(pending)@[i])@ == old(
                                pending,
                            )@[i]@
                    }
            },
        },
{
    let ghost was = pending@;
    let mut asked: OrdSet<ObjectId> = OrdSet::new();
    let mut round: Vec<ObjectId> = Vec::new();
    let mut i: usize = 0;
    while i < diffs.len()
        invariant
            i <= diffs@.len(),
            was == old(pending)@,
            diffs@.len() == was.len(),
            pending@.len() == was.len(),
            forall|j: int|
                0 <= j < diffs@.len() && !(#[trigger] was[j])@.is_settled() ==> diffs@[j] is Some,
            forall|j: int|
                0 <= j < i ==> !is_stuck((#[trigger] was[j])@, diffs@[j], fetched@)
                    && pending@[j]@ == advanced(was[j]@, diffs@[j], fetched@),
            forall|j: int| i <= j < was.len() ==> #[trigger] pending@[j] == was[j],
            round@.no_duplicates(),
            forall|oid: ObjectId| #[trigger] round@.contains(oid) <==> asked@.contains(oid),
            forall|oid: ObjectId| #[trigger]
                asked@.contains(oid) <==> exists|j: int|
                    0 <= j < i && wants((#[trigger] was[j])@, diffs@[j], fetched@).contains(oid),
            forall|oid: ObjectId| #[trigger] asked@.contains(oid) ==> !fetched@.contains_key(oid),
        decreases diffs@.len() - i,
    {
        let ghost here = was[i as int]@;
        let ghost asked_before = asked@;
        assert(pending@[i as int] == was[i as int]);
        if !pending[i].settled() {
            let diff = diffs[i].as_ref().unwrap();
            let ghost unreadable = diff.unreadable@;
            proof {
                lemma_unread_prefix(unreadable, fetched@);
            }
            if diff.unreadable.len() == 0 {
                let entries = entries_of(
                    pending[i].root_tree,
                    pending[i].base_root,
                    diff.changes.as_slice(),
                );
                let ghost untouched = pending@;
                pending[i].entries = Some(entries);
                assert(pending@ =~= untouched.update(i as int, pending@[i as int]));
                assert(pending@[i as int]@ =~= advanced(here, diffs@[i as int], fetched@));
                assert(wants(here, diffs@[i as int], fetched@) =~= Seq::<ObjectId>::empty());
            } else {
                let ghost k = unread_prefix(unreadable, fetched@).len() as int;
                let mut at: usize = 0;
                let mut missing = false;
                while at < diff.unreadable.len() && !missing
                    invariant
                        at <= unreadable.len(),
                        unreadable == diff.unreadable@,
                        k == unread_prefix(unreadable, fetched@).len(),
                        k <= unreadable.len(),
                        unread_prefix(unreadable, fetched@) == unreadable.take(k),
                        forall|j: int|
                            0 <= j < k ==> !fetched@.contains_key(#[trigger] unreadable[j]),
                        k < unreadable.len() ==> fetched@.contains_key(unreadable[k]),
                        i < diffs@.len(),
                        here == was[i as int]@,
                        diffs@[i as int] == Some(*diff),
                        !here.is_settled(),
                        was == old(pending)@,
                        diffs@.len() == was.len(),
                        pending@.len() == was.len(),
                        forall|j: int|
                            0 <= j < i ==> !is_stuck((#[trigger] was[j])@, diffs@[j], fetched@)
                                && pending@[j]@ == advanced(was[j]@, diffs@[j], fetched@),
                        forall|j: int| i <= j < was.len() ==> #[trigger] pending@[j] == was[j],
                        at <= k,
                        missing ==> at == k && k < unreadable.len()
                            && fetched@[unreadable[k]] is None,
                        round@.no_duplicates(),
                        forall|oid: ObjectId| #[trigger]
                            round@.contains(oid) <==> asked@.contains(oid),
                        forall|oid: ObjectId| #[trigger]
                            asked@.contains(oid) <==> asked_before.contains(oid)
                                || unreadable.take(at as int).contains(oid),
                        forall|oid: ObjectId| #[trigger]
                            asked@.contains(oid) ==> !fetched@.contains_key(oid),
                    decreases unreadable.len() - at, !missing as int,
                {
                    let oid = diff.unreadable[at];
                    match fetched.get(&oid) {
                        Some(None) => {
                            missing = true;
                        },
                        Some(Some(_)) => {
                            assert(is_stuck(was[i as int]@, diffs@[i as int], fetched@));
                            return Err(Error::TreeUnreadable);
                        },
                        None => {
                            let ghost listed = round@;
                            let ghost asked_here = asked@;
                            if asked.insert(oid) {
                                assert(!listed.contains(oid));
                                round.push(oid);
                            }
                            proof {
                                assert forall|other: ObjectId| #[trigger]
                                    round@.contains(other) <==> asked@.contains(other) by {
                                    if listed.contains(other) {
                                        let n = choose|n: int|
                                            0 <= n < listed.len() && listed[n] == other;
                                        assert(round@[n] == other);
                                    }
                                    if other == oid && !asked_here.contains(oid) {
                                        assert(round@[listed.len() as int] == other);
                                    }
                                }
                                let longer = unreadable.take(at as int + 1);
                                assert forall|other: ObjectId| #[trigger]
                                    asked@.contains(other) <==> asked_before.contains(other)
                                        || longer.contains(other) by {
                                    if unreadable.take(at as int).contains(other) {
                                        let n = choose|n: int|
                                            0 <= n < at && unreadable.take(at as int)[n] == other;
                                        assert(longer[n] == other);
                                    }
                                    if other == oid {
                                        assert(longer[at as int] == other);
                                    }
                                    if longer.contains(other) && other != oid {
                                        let n = choose|n: int|
                                            0 <= n < longer.len() && longer[n] == other;
                                        assert(unreadable.take(at as int)[n] == other);
                                    }
                                }
                            }
                            at += 1;
                        },
                    }
                }
                if missing {
                    let ghost untouched = pending@;
                    pending[i].unplannable = true;
                    assert(pending@ =~= untouched.update(i as int, pending@[i as int]));
                }
                assert(pending@[i as int]@ =~= advanced(here, diffs@[i as int], fetched@));
                assert(wants(here, diffs@[i as int], fetched@) == unreadable.take(at as int));
            }
        } else {
            assert(wants(here, diffs@[i as int], fetched@) =~= Seq::<ObjectId>::empty());
        }
        proof {
            assert forall|oid: ObjectId| #[trigger]
                asked@.contains(oid) <==> exists|j: int|
                    0 <= j < i + 1 && wants((#[trigger] was[j])@, diffs@[j], fetched@).contains(
                        oid,
                    ) by {
                if asked_before.contains(oid) {
                    let j = choose|j: int|
                        0 <= j < i && wants((#[trigger] was[j])@, diffs@[j], fetched@).contains(
                            oid,
                        );
                    assert(wants(was[j]@, diffs@[j], fetched@).contains(oid));
                }
                if wants(was[i as int]@, diffs@[i as int], fetched@).contains(oid) {
                    assert(asked@.contains(oid));
                }
            }
        }
        i += 1;
    }
    proof {
        if round@.len() == 0 {
            assert forall|j: int| 0 <= j < diffs@.len() implies (
            #[trigger] pending@[j])@.is_settled() by {
                let item = was[j]@;
                if !item.is_settled() {
                    let unreadable = diffs@[j]->0.unreadable@;
                    lemma_unread_prefix(unreadable, fetched@);
                    let prefix = unread_prefix(unreadable, fetched@);
                    if prefix.len() > 0 {
                        assert(wants(was[j]@, diffs@[j], fetched@).contains(prefix[0]));
                        assert(round@.contains(prefix[0]));
                    }
                    assert(!is_stuck(was[j]@, diffs@[j], fetched@));
                }
            }
        }
    }
    Ok(round)
}

/// What comes out of the rounds: a pack per planned commit.
pub open spec fn packs_planned(pending: Seq<Planning>) -> Map<ObjectId, Seq<DeltaEntry>>
    decreases pending.len(),
{
    if pending.len() == 0 {
        Map::empty()
    } else {
        let earlier = packs_planned(pending.drop_last());
        let last = pending.last()@;
        match last.entries {
            Some(entries) => earlier.insert(last.commit, entries),
            None => earlier,
        }
    }
}

/// The plan that the settled commits make.
pub fn planned(pending: Vec<Planning>) -> (plan: DeltaPlan)
    ensures
        runs(plan.packs@) == packs_planned(pending@),
        plan.commits@ == Map::<ObjectId, EntrySource>::empty(),
{
    let ghost all = pending@;
    let mut packs: OrdMap<ObjectId, Vec<DeltaEntry>> = OrdMap::new();
    let mut rest = pending;
    // From the last back, so that each can be taken out whole; a commit met
    // already stands as its later occurrence left it.
    assert(runs(packs@) =~= Map::<ObjectId, Seq<DeltaEntry>>::empty());
    assert(all.skip(all.len() as int) =~= Seq::<Planning>::empty());
    while rest.len() > 0
        invariant
            rest@.len() <= all.len(),
            rest@ == all.take(rest@.len() as int),
            packs_planned(all) == packs_planned(rest@).union_prefer_right(runs(packs@)),
        decreases rest@.len(),
    {
        let ghost before = rest@;
        let ghost had = runs(packs@);
        let item = rest.pop().unwrap();
        assert(before.drop_last() =~= rest@);
        assert(rest@ =~= all.take(rest@.len() as int));
        if let Some(entries) = item.entries {
            if !packs.contains_key(&item.commit) {
                let _ = packs.insert(item.commit, entries);
                assert(runs(packs@) =~= had.insert(item.commit, entries@));
            }
        }
        assert(packs_planned(before).union_prefer_right(had) =~= packs_planned(
            rest@,
        ).union_prefer_right(runs(packs@)));
    }
    assert(packs_planned(rest@).union_prefer_right(runs(packs@)) =~= runs(packs@));
    DeltaPlan { packs, commits: OrdMap::new() }
}

/// A tree in hand: the push's own, or one that a round read.
pub open spec fn tree_in_hand(
    push: Map<ObjectId, ObjectRefs>,
    fetched: Map<ObjectId, Option<Vec<TreeChild>>>,
    oid: ObjectId,
) -> Option<Seq<TreeChild>> {
    if push.contains_key(oid) && push[oid] is Tree {
        Some(push[oid]->Tree_0@)
    } else if fetched.contains_key(oid) && fetched[oid] is Some {
        Some(fetched[oid]->0@)
    } else {
        None
    }
}

/// A tree's entries, where the tree is in hand.
pub fn children<'a>(
    object_refs: &'a OrdMap<ObjectId, ObjectRefs>,
    fetched: &'a OrdMap<ObjectId, Option<Vec<TreeChild>>>,
    oid: ObjectId,
) -> (found: Option<&'a Vec<TreeChild>>)
    ensures
        match found {
            Some(children) => tree_in_hand(object_refs@, fetched@, oid) == Some(children@),
            None => tree_in_hand(object_refs@, fetched@, oid) is None,
        },
{
    if let Some(ObjectRefs::Tree(children)) = object_refs.get(&oid) {
        return Some(children);
    }
    match fetched.get(&oid) {
        Some(Some(children)) => Some(children),
        _ => None,
    }
}

/// Whether something says where an object's bytes are.
pub open spec fn is_located(metas: Map<ObjectId, ObjectMeta>, oid: ObjectId) -> bool {
    metas.contains_key(oid) && metas[oid].location is Some
}

/// The objects of a round that something says where to find, with the place.
pub fn located(round: &[ObjectId], metas: &OrdMap<ObjectId, ObjectMeta>) -> (wanted: Vec<
    (ObjectId, CommitPackLocation),
>)
    ensures
        wanted@ == round@.filter(|oid: ObjectId| is_located(metas@, oid)).map_values(
            |oid: ObjectId| (oid, metas@[oid].location->0),
        ),
{
    let mut wanted: Vec<(ObjectId, CommitPackLocation)> = Vec::new();
    let ghost keep = |oid: ObjectId| is_located(metas@, oid);
    let ghost with = |oid: ObjectId| (oid, metas@[oid].location->0);
    let mut i: usize = 0;
    assert(wanted@ =~= round@.take(0).filter(keep).map_values(with)) by {
        reveal(Seq::filter);
    }
    while i < round.len()
        invariant
            i <= round@.len(),
            keep == (|oid: ObjectId| is_located(metas@, oid)),
            with == (|oid: ObjectId| (oid, metas@[oid].location->0)),
            wanted@ == round@.take(i as int).filter(keep).map_values(with),
        decreases round@.len() - i,
    {
        proof {
            reveal(Seq::filter);
            assert(round@.take(i as int + 1).drop_last() =~= round@.take(i as int));
        }
        if let Some(meta) = metas.get(&round[i]) {
            if let Some(location) = meta.location {
                wanted.push((round[i], location));
            }
        }
        i += 1;
        assert(wanted@ =~= round@.take(i as int).filter(keep).map_values(with));
    }
    assert(round@.take(i as int) =~= round@);
    wanted
}

/// What was read of a round: what the last content of each tree parsed to, and
/// none for a tree of which nothing came.
pub open spec fn trees_of(
    round: Seq<ObjectId>,
    contents: Seq<(ObjectId, ObjectRefs)>,
) -> Map<ObjectId, Option<Seq<TreeChild>>>
    decreases contents.len(),
{
    if contents.len() == 0 {
        Map::new(|oid: ObjectId| round.contains(oid), |oid: ObjectId| None)
    } else {
        trees_of(round, contents.drop_last()).insert(
            contents.last().0,
            Some(contents.last().1->Tree_0@),
        )
    }
}

/// What was read, by its sequences.
pub open spec fn read_view(read: Map<ObjectId, Option<Vec<TreeChild>>>) -> Map<
    ObjectId,
    Option<Seq<TreeChild>>,
> {
    Map::new(
        |oid: ObjectId| read.contains_key(oid),
        |oid: ObjectId|
            match read[oid] {
                Some(children) => Some(children@),
                None => None,
            },
    )
}

/// The trees of a round, from what their contents parsed to.
///
/// Everything asked for gets an answer, so the next round goes on from it; a
/// tree of which nothing came is one that nothing holds.
pub fn read_trees(round: &[ObjectId], contents: Vec<(ObjectId, ObjectRefs)>) -> (read: Result<
    OrdMap<ObjectId, Option<Vec<TreeChild>>>,
    Error,
>)
    ensures
        match read {
            Ok(read) => {
                &&& forall|i: int|
                    0 <= i < contents@.len() ==> (#[trigger] contents@[i]).1 is Tree
                &&& read_view(read@) == trees_of(round@, contents@)
            },
            Err(error) => error == Error::NotATree && exists|i: int|
                0 <= i < contents@.len() && !((#[trigger] contents@[i]).1 is Tree),
        },
{
    let ghost all = contents@;
    let mut read: OrdMap<ObjectId, Option<Vec<TreeChild>>> = OrdMap::new();
    let mut rest = contents;
    assert(trees_of(round@, all) =~= trees_of(round@, rest@).union_prefer_right(read_view(read@)));
    // From the last back: a tree met already stands as its later content left it.
    while rest.len() > 0
        invariant
            all == contents@,
            rest@.len() <= all.len(),
            rest@ == all.take(rest@.len() as int),
            trees_of(round@, all) == trees_of(round@, rest@).union_prefer_right(read_view(read@)),
            forall|i: int| rest@.len() <= i < all.len() ==> (#[trigger] all[i]).1 is Tree,
        decreases rest@.len(),
    {
        let ghost before = rest@;
        let ghost had = read_view(read@);
        let (oid, refs) = rest.pop().unwrap();
        assert(before.drop_last() =~= rest@);
        assert(rest@ =~= all.take(rest@.len() as int));
        assert(all[rest@.len() as int] == (oid, refs));
        match refs {
            ObjectRefs::Tree(children) => {
                if !read.contains_key(&oid) {
                    let _ = read.insert(oid, Some(children));
                    assert(read_view(read@) =~= had.insert(oid, Some(children@)));
                }
            },
            _ => {
                assert(!(all[rest@.len() as int].1 is Tree));
                return Err(Error::NotATree);
            },
        }
        assert(trees_of(round@, before).union_prefer_right(had) =~= trees_of(
            round@,
            rest@,
        ).union_prefer_right(read_view(read@)));
    }
    let ghost came = read_view(read@);
    let ghost asked = trees_of(round@, rest@);
    let mut i: usize = 0;
    while i < round.len()
        invariant
            i <= round@.len(),
            forall|oid: ObjectId| #[trigger]
                read_view(read@).contains_key(oid) <==> came.contains_key(oid) || round@.take(
                    i as int,
                ).contains(oid),
            forall|oid: ObjectId| #[trigger]
                read_view(read@).contains_key(oid) ==> read_view(read@)[oid] == (
                if came.contains_key(oid) {
                    came[oid]
                } else {
                    None
                }),
        decreases round@.len() - i,
    {
        let ghost before = read_view(read@);
        let ghost shorter = round@.take(i as int);
        let oid = round[i];
        if !read.contains_key(&oid) {
            assert(!read_view(read@).contains_key(oid));
            let _ = read.insert(oid, None);
            assert(read_view(read@) =~= before.insert(oid, None));
        } else {
            assert(read_view(read@).contains_key(oid));
        }
        i += 1;
        proof {
            let longer = round@.take(i as int);
            assert(longer =~= shorter.push(oid));
            assert forall|other: ObjectId| #[trigger] longer.contains(other) <==> shorter.contains(
                other,
            ) || other == oid by {
                if shorter.contains(other) {
                    let n = choose|n: int| 0 <= n < shorter.len() && shorter[n] == other;
                    assert(longer[n] == other);
                }
                assert(longer[i as int - 1] == oid);
            }
        }
    }
    proof {
        assert(round@.take(i as int) =~= round@);
        assert(asked.union_prefer_right(came) =~= read_view(read@));
    }
    Ok(read)
}

/// The boundary parents that the repository knows, each with what it is.
///
/// One that it does not know leaves its commit nothing to be compared with; one
/// that it knows as something else is an error.
pub fn lattice_bases(commits: &[ObjectId], known: &OrdMap<ObjectId, Identity>) -> (named: Result<
    Vec<(ObjectId, Identity)>,
    Error,
>)
    ensures
        match named {
            Ok(named) => {
                &&& forall|i: int|
                    0 <= i < commits@.len() && known@.contains_key(#[trigger] commits@[i])
                        ==> known@[commits@[i]].kind == Kind::Commit
                &&& named@ == commits@.filter(
                    |oid: ObjectId| known@.contains_key(oid),
                ).map_values(|oid: ObjectId| (oid, known@[oid]))
            },
            Err(error) => error == Error::BaseNotCommit && exists|i: int|
                0 <= i < commits@.len() && known@.contains_key(#[trigger] commits@[i])
                    && known@[commits@[i]].kind != Kind::Commit,
        },
{
    let mut named: Vec<(ObjectId, Identity)> = Vec::new();
    let ghost keep = |oid: ObjectId| known@.contains_key(oid);
    let ghost with = |oid: ObjectId| (oid, known@[oid]);
    let mut i: usize = 0;
    assert(named@ =~= commits@.take(0).filter(keep).map_values(with)) by {
        reveal(Seq::filter);
    }
    while i < commits.len()
        invariant
            i <= commits@.len(),
            keep == (|oid: ObjectId| known@.contains_key(oid)),
            with == (|oid: ObjectId| (oid, known@[oid])),
            named@ == commits@.take(i as int).filter(keep).map_values(with),
            forall|j: int|
                0 <= j < i && known@.contains_key(#[trigger] commits@[j])
                    ==> known@[commits@[j]].kind == Kind::Commit,
        decreases commits@.len() - i,
    {
        proof {
            reveal(Seq::filter);
            assert(commits@.take(i as int + 1).drop_last() =~= commits@.take(i as int));
        }
        if let Some(identity) = known.get(&commits[i]) {
            if identity.kind != Kind::Commit {
                assert(known@[commits@[i as int]].kind != Kind::Commit);
                return Err(Error::BaseNotCommit);
            }
            named.push((commits[i], *identity));
        }
        i += 1;
        assert(named@ =~= commits@.take(i as int).filter(keep).map_values(with));
    }
    assert(commits@.take(i as int) =~= commits@);
    Ok(named)
}

/// The root tree of each commit that was read; the last reading of one counts.
pub open spec fn roots_read(parsed: Seq<(ObjectId, ObjectRefs)>) -> Map<ObjectId, ObjectId>
    decreases parsed.len(),
{
    if parsed.len() == 0 {
        Map::empty()
    } else {
        roots_read(parsed.drop_last()).insert(parsed.last().0, parsed.last().1->root_tree)
    }
}

/// The root trees of commits that the push does not carry, from what their
/// contents parsed to.
pub fn root_trees_of(parsed: &[(ObjectId, ObjectRefs)]) -> (roots: Result<
    OrdMap<ObjectId, ObjectId>,
    Error,
>)
    ensures
        match roots {
            Ok(roots) => {
                &&& forall|i: int|
                    0 <= i < parsed@.len() ==> (#[trigger] parsed@[i]).1 is Commit
                &&& roots@ == roots_read(parsed@)
            },
            Err(error) => error == Error::BaseNotCommit && exists|i: int|
                0 <= i < parsed@.len() && !((#[trigger] parsed@[i]).1 is Commit),
        },
{
    let mut roots: OrdMap<ObjectId, ObjectId> = OrdMap::new();
    let mut i: usize = 0;
    while i < parsed.len()
        invariant
            i <= parsed@.len(),
            roots@ == roots_read(parsed@.take(i as int)),
            forall|j: int| 0 <= j < i ==> (#[trigger] parsed@[j]).1 is Commit,
        decreases parsed@.len() - i,
    {
        match &parsed[i].1 {
            ObjectRefs::Commit { root_tree, .. } => {
                assert(parsed@.take(i as int + 1).drop_last() =~= parsed@.take(i as int));
                let _ = roots.insert(parsed[i].0, *root_tree);
            },
            _ => {
                assert(!(parsed@[i as int].1 is Commit));
                return Err(Error::BaseNotCommit);
            },
        }
        i += 1;
    }
    assert(parsed@.take(i as int) =~= parsed@);
    Ok(roots)
}

/// How many commits have their answer.
pub fn settled_count(pending: &[Planning]) -> (n: usize)
    ensures
        n == pending@.filter(|item: Planning| item@.is_settled()).len(),
        n <= pending@.len(),
{
    let ghost keep = |item: Planning| item@.is_settled();
    let mut n: usize = 0;
    let mut i: usize = 0;
    reveal(Seq::filter);
    while i < pending.len()
        invariant
            i <= pending@.len(),
            n <= i,
            keep == (|item: Planning| item@.is_settled()),
            n == pending@.take(i as int).filter(keep).len(),
        decreases pending@.len() - i,
    {
        proof {
            reveal(Seq::filter);
            assert(pending@.take(i as int + 1).drop_last() =~= pending@.take(i as int));
        }
        if pending[i].settled() {
            n += 1;
        }
        i += 1;
    }
    assert(pending@.take(i as int) =~= pending@);
    n
}

} // verus!
