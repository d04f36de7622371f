//! What a push has read of objects' numbers, so that recording it need not read
//! them again.

use vstd::prelude::*;

use crate::ingest::graph::{children_named, own_children, ObjectRefs};
use crate::ingest::lists::lemma_push_contains;
use crate::model::Identity;
use crate::object::ObjectId;
use crate::ordmap::{keyed, lemma_keyed_all, lemma_keyed_next, stands_at, OrdMap};

verus! {

/// Numbers that were read.
///
/// None under an id means that nothing was found, and that the object is
/// planned as new; an id that is absent is merely unknown. A none that has gone
/// stale is caught when the push is recorded.
#[derive(Debug)]
pub struct KnownIdentities {
    known: OrdMap<ObjectId, Option<Identity>>,
}

impl View for KnownIdentities {
    type V = Map<ObjectId, Option<Identity>>;

    closed spec fn view(&self) -> Map<ObjectId, Option<Identity>> {
        self.known@
    }
}

/// What is known of an id.
pub open spec fn found_as(known: Map<ObjectId, Option<Identity>>, oid: ObjectId) -> Option<
    Identity,
> {
    if known.contains_key(oid) {
        known[oid]
    } else {
        None
    }
}

impl KnownIdentities {
    /// A reading that is complete: every id that it covered, with what was found.
    pub fn new(known: OrdMap<ObjectId, Option<Identity>>) -> (identities: KnownIdentities)
        ensures
            identities@ == known@,
    {
        KnownIdentities { known }
    }

    /// A reading of nothing.
    pub fn nothing() -> (identities: KnownIdentities)
        ensures
            identities@ == Map::<ObjectId, Option<Identity>>::empty(),
    {
        KnownIdentities { known: OrdMap::new() }
    }

    /// What `oid` is, if the reading found it.
    pub fn get(&self, oid: &ObjectId) -> (identity: Option<Identity>)
        ensures
            identity == found_as(self@, *oid),
    {
        match self.known.get(oid) {
            Some(identity) => *identity,
            None => None,
        }
    }

    /// Whether the reading covered `oid`, so that finding nothing means that
    /// there is nothing.
    pub fn covers(&self, oid: &ObjectId) -> (covered: bool)
        ensures
            covered == self@.contains_key(*oid),
    {
        self.known.contains_key(oid)
    }
}

/// The ids that recording an object asks about.
pub open spec fn asked_for(oid: ObjectId, refs: ObjectRefs) -> Seq<ObjectId> {
    match refs {
        ObjectRefs::Commit { root_tree, parents, .. } => seq![oid, root_tree] + parents@,
        ObjectRefs::Tree(children) => children_named(children@),
        ObjectRefs::Blob => Seq::empty(),
        ObjectRefs::Tag(_) => seq![oid],
    }
}

/// Whether recording a push asks about `oid`.
pub open spec fn is_wanted(push: Map<ObjectId, ObjectRefs>, oid: ObjectId) -> bool {
    exists|by: ObjectId| #[trigger] push.contains_key(by) && asked_for(by, push[by]).contains(oid)
}

/// Every id that recording a push asks about, with nothing known of it.
///
/// One that is missing here costs the push a reading of its own.
pub fn wanted(object_refs: &OrdMap<ObjectId, ObjectRefs>) -> (known: OrdMap<
    ObjectId,
    Option<Identity>,
>)
    ensures
        forall|oid: ObjectId| #[trigger]
            known@.contains_key(oid) <==> is_wanted(object_refs@, oid),
        forall|oid: ObjectId| #[trigger] known@.contains_key(oid) ==> known@[oid] is None,
{
    let pairs = object_refs.as_entries();
    let ghost push = object_refs@;
    let mut known: OrdMap<ObjectId, Option<Identity>> = OrdMap::new();
    let mut i: usize = 0;
    while i < pairs.len()
        invariant
            i <= pairs@.len(),
            forall|oid: ObjectId| #[trigger]
                known@.contains_key(oid) <==> exists|k: int|
                    0 <= k < i && asked_for((#[trigger] pairs@[k]).0, pairs@[k].1).contains(oid),
            forall|oid: ObjectId| #[trigger] known@.contains_key(oid) ==> known@[oid] is None,
        decreases pairs@.len() - i,
    {
        let ghost before = known@;
        let oid = pairs[i].0;
        let asked = asked_by(oid, &pairs[i].1);
        let mut k: usize = 0;
        while k < asked.len()
            invariant
                k <= asked@.len(),
                forall|other: ObjectId| #[trigger]
                    known@.contains_key(other) <==> before.contains_key(other) || asked@.take(
                        k as int,
                    ).contains(other),
                forall|other: ObjectId| #[trigger]
                    known@.contains_key(other) ==> known@[other] is None,
            decreases asked@.len() - k,
        {
            let ghost shorter = asked@.take(k as int);
            let _ = known.insert(asked[k], None);
            proof {
                assert(asked@.take(k as int + 1) =~= shorter.push(asked@[k as int]));
                assert forall|other: ObjectId| #[trigger]
                    known@.contains_key(other) <==> before.contains_key(other) || asked@.take(
                        k as int + 1,
                    ).contains(other) by {
                    lemma_push_contains(shorter, asked@[k as int], other);
                }
            }
            k += 1;
        }
        proof {
            assert(asked@.take(k as int) =~= asked@);
            assert forall|other: ObjectId| #[trigger]
                known@.contains_key(other) <==> exists|k: int|
                    0 <= k < i + 1 && asked_for((#[trigger] pairs@[k]).0, pairs@[k].1).contains(
                        other,
                    ) by {
                if before.contains_key(other) {
                    let k = choose|k: int|
                        0 <= k < i && asked_for((#[trigger] pairs@[k]).0, pairs@[k].1).contains(
                            other,
                        );
                    assert(asked_for(pairs@[k].0, pairs@[k].1).contains(other));
                }
                if asked@.contains(other) {
                    assert(asked_for(pairs@[i as int].0, pairs@[i as int].1).contains(other));
                }
            }
        }
        i += 1;
    }
    proof {
        assert forall|oid: ObjectId| #[trigger] known@.contains_key(oid) <==> is_wanted(
            push,
            oid,
        ) by {
            if known@.contains_key(oid) {
                let k = choose|k: int|
                    0 <= k < pairs@.len() && asked_for(
                        (#[trigger] pairs@[k]).0,
                        pairs@[k].1,
                    ).contains(oid);
                assert(push.contains_key(pairs@[k].0));
            }
            if is_wanted(push, oid) {
                let by = choose|by: ObjectId| #[trigger]
                    push.contains_key(by) && asked_for(by, push[by]).contains(oid);
                let k = choose|k: int| stands_at(pairs@, by, k);
                assert(pairs@[k].0 == by);
            }
        }
    }
    known
}

fn asked_by(oid: ObjectId, refs: &ObjectRefs) -> (asked: Vec<ObjectId>)
    ensures
        asked@ == asked_for(oid, *refs),
{
    let mut asked: Vec<ObjectId> = Vec::new();
    match refs {
        ObjectRefs::Commit { root_tree, parents, .. } => {
            asked.push(oid);
            asked.push(*root_tree);
            let mut i: usize = 0;
            while i < parents.len()
                invariant
                    i <= parents@.len(),
                    asked@ == seq![oid, *root_tree] + parents@.take(i as int),
                decreases parents@.len() - i,
            {
                asked.push(parents[i]);
                i += 1;
                assert(asked@ =~= seq![oid, *root_tree] + parents@.take(i as int));
            }
            assert(asked@ =~= seq![oid, *root_tree] + parents@);
        },
        ObjectRefs::Tree(children) => {
            asked = own_children(children.as_slice());
        },
        ObjectRefs::Blob => {},
        ObjectRefs::Tag(_) => {
            asked.push(oid);
            assert(asked@ =~= seq![oid]);
        },
    }
    asked
}

/// What is known once the ids of a push were asked about.
pub fn answered(wanted: OrdMap<ObjectId, Option<Identity>>, found: &OrdMap<ObjectId, Identity>) -> (
known: KnownIdentities)
    ensures
        known@ == Map::new(
            |oid: ObjectId| wanted@.contains_key(oid) || found@.contains_key(oid),
            |oid: ObjectId|
                if found@.contains_key(oid) {
                    Some(found@[oid])
                } else {
                    wanted@[oid]
                },
        ),
{
    let ghost was = wanted@;
    let mut known = wanted;
    let pairs = found.as_entries();
    let mut i: usize = 0;
    while i < pairs.len()
        invariant
            i <= pairs@.len(),
            forall|k: int|
                0 <= k < pairs@.len() ==> found@.contains_key((#[trigger] pairs@[k]).0)
                    && found@[pairs@[k].0] == pairs@[k].1,
            forall|oid: ObjectId| #[trigger]
                known@.contains_key(oid) <==> was.contains_key(oid) || keyed(pairs@, i as int, oid),
            forall|oid: ObjectId| #[trigger]
                known@.contains_key(oid) ==> known@[oid] == (if keyed(pairs@, i as int, oid) {
                    Some(found@[oid])
                } else {
                    was[oid]
                }),
        decreases pairs@.len() - i,
    {
        let ghost before = known@;
        let (oid, identity) = pairs[i];
        let _ = known.insert(oid, Some(identity));
        proof {
            lemma_keyed_next(pairs@, i as int);
            assert forall|other: ObjectId| #[trigger]
                known@.contains_key(other) <==> was.contains_key(other) || keyed(
                    pairs@,
                    i as int + 1,
                    other,
                ) by {
                assert(before.contains_key(other) <==> was.contains_key(other) || keyed(
                    pairs@,
                    i as int,
                    other,
                ));
            }
        }
        i += 1;
    }
    proof {
        lemma_keyed_all(pairs@);
        assert(known@ =~= Map::new(
            |oid: ObjectId| was.contains_key(oid) || found@.contains_key(oid),
            |oid: ObjectId|
                if found@.contains_key(oid) {
                    Some(found@[oid])
                } else {
                    was[oid]
                },
        ));
    }
    KnownIdentities::new(known)
}

} // verus!
