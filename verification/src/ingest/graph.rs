//! What an object names, as a push reads it off the object's content.

use vstd::prelude::*;

use crate::object::{Kind, ObjectId};
use crate::ordmap::{in_order, OrdMap};

verus! {

/// One entry of a tree.
#[derive(Debug)]
pub struct TreeChild {
    pub oid: ObjectId,
    /// A directory.
    pub is_tree: bool,
    /// A submodule: a commit of another repository.
    pub is_commit: bool,
    pub name: Vec<u8>,
}

/// What an object names.
#[derive(Debug)]
pub enum ObjectRefs {
    Commit {
        root_tree: ObjectId,
        parents: Vec<ObjectId>,
        committer_date: i64,
    },
    Tree(Vec<TreeChild>),
    Blob,
    /// The object that a tag is put on.
    Tag(ObjectId),
}

/// The objects of this repository that a tree's entries name, in order.
///
/// A submodule's commit belongs to another repository.
pub open spec fn children_named(children: Seq<TreeChild>) -> Seq<ObjectId> {
    children.filter(|child: TreeChild| !child.is_commit).map_values(|child: TreeChild| child.oid)
}

/// A tree's entries, without submodules.
pub fn own_children(children: &[TreeChild]) -> (named: Vec<ObjectId>)
    ensures
        named@ == children_named(children@),
{
    let mut named: Vec<ObjectId> = Vec::new();
    let mut i: usize = 0;
    assert(children_named(children@.take(0)) =~= Seq::<ObjectId>::empty()) by {
        reveal(Seq::filter);
    }
    while i < children.len()
        invariant
            i <= children@.len(),
            named@ == children_named(children@.take(i as int)),
        decreases children@.len() - i,
    {
        proof {
            reveal(Seq::filter);
            assert(children@.take(i as int + 1).drop_last() =~= children@.take(i as int));
        }
        if !children[i].is_commit {
            named.push(children[i].oid);
        }
        assert(named@ =~= children_named(children@.take(i as int + 1)));
        i += 1;
    }
    assert(children@.take(i as int) =~= children@);
    named
}

impl ObjectRefs {
    /// Everything that has to be held for the object to be complete.
    pub open spec fn named(self) -> Seq<ObjectId> {
        match self {
            ObjectRefs::Commit { root_tree, parents, .. } => seq![root_tree] + parents@,
            ObjectRefs::Tree(children) => children_named(children@),
            ObjectRefs::Blob => Seq::empty(),
            ObjectRefs::Tag(target) => seq![target],
        }
    }

    /// Everything that has to be held for the object to be complete: a commit's
    /// tree and parents, a tree's own entries, a tag's target.
    pub fn deps(&self) -> (deps: Vec<ObjectId>)
        ensures
            deps@ == self.named(),
            *self matches ObjectRefs::Commit { root_tree, parents, .. } ==> {
                &&& deps@.len() == 1 + parents@.len()
                &&& deps@[0] == root_tree
                &&& forall|k: int|
                    0 <= k < parents@.len() ==> #[trigger] deps@[k + 1] == parents@[k]
            },
    {
        match self {
            ObjectRefs::Commit { root_tree, parents, .. } => {
                let mut deps: Vec<ObjectId> = Vec::new();
                deps.push(*root_tree);
                let mut i: usize = 0;
                while i < parents.len()
                    invariant
                        i <= parents@.len(),
                        deps@ == seq![*root_tree] + parents@.take(i as int),
                    decreases parents@.len() - i,
                {
                    deps.push(parents[i]);
                    i += 1;
                    assert(deps@ =~= seq![*root_tree] + parents@.take(i as int));
                }
                assert(parents@.take(i as int) =~= parents@);
                deps
            },
            ObjectRefs::Tree(children) => own_children(children.as_slice()),
            ObjectRefs::Blob => Vec::new(),
            ObjectRefs::Tag(target) => {
                let mut deps: Vec<ObjectId> = Vec::new();
                deps.push(*target);
                assert(deps@ =~= seq![*target]);
                deps
            },
        }
    }
}

/// One path whose content a commit changed.
#[derive(Debug)]
pub struct Change {
    pub path: Vec<u8>,
    /// Tree or blob.
    pub kind: Kind,
    /// What stood there before.
    pub old: Option<ObjectId>,
    /// What stands there now.
    pub new: ObjectId,
}

/// What comparing two trees found.
#[derive(Debug)]
pub struct TreeDiff {
    pub changes: Vec<Change>,
    /// The trees it needed and could not read; none when it is complete.
    pub unreadable: Vec<ObjectId>,
}

/// A map to runs, as a map to sequences.
pub open spec fn runs<T>(map: Map<ObjectId, Vec<T>>) -> Map<ObjectId, Seq<T>> {
    Map::new(|oid: ObjectId| map.contains_key(oid), |oid: ObjectId| map[oid]@)
}

/// The commits of a push, each with its parents.
pub open spec fn parents_in(push: Map<ObjectId, ObjectRefs>) -> Map<ObjectId, Seq<ObjectId>> {
    Map::new(
        |oid: ObjectId| push.contains_key(oid) && push[oid] is Commit,
        |oid: ObjectId| push[oid]->parents@,
    )
}

/// A copy of a run of ids.
pub fn copy_ids(ids: &[ObjectId]) -> (copy: Vec<ObjectId>)
    ensures
        copy@ == ids@,
{
    let mut copy: Vec<ObjectId> = Vec::new();
    let mut i: usize = 0;
    while i < ids.len()
        invariant
            i <= ids@.len(),
            copy@ == ids@.take(i as int),
        decreases ids@.len() - i,
    {
        copy.push(ids[i]);
        i += 1;
        assert(copy@ =~= ids@.take(i as int));
    }
    assert(copy@ =~= ids@);
    copy
}

/// Every commit of the push with its parents: the push's own commit graph,
/// in which a parent that is missing lies outside the push.
pub fn commit_parents(object_refs: &OrdMap<ObjectId, ObjectRefs>) -> (parents_of: OrdMap<
    ObjectId,
    Vec<ObjectId>,
>)
    ensures
        runs(parents_of@) == parents_in(object_refs@),
{
    let mut parents_of: OrdMap<ObjectId, Vec<ObjectId>> = OrdMap::new();
    let entries = object_refs.as_entries();
    let ghost all = object_refs@;
    let mut i: usize = 0;
    while i < entries.len()
        invariant
            i <= entries@.len(),
            all == object_refs@,
            entries@ == object_refs.entries(),
            in_order(entries@),
            all == crate::ordmap::held(entries@),
            forall|j: int|
                0 <= j < entries@.len() ==> all.contains_key((#[trigger] entries@[j]).0)
                    && all[entries@[j].0] == entries@[j].1,
            forall|oid: ObjectId| #[trigger]
                parents_of@.contains_key(oid) <==> all.contains_key(oid) && all[oid] is Commit
                    && exists|j: int| 0 <= j < i && (#[trigger] entries@[j]).0 == oid,
            forall|oid: ObjectId| #[trigger]
                parents_of@.contains_key(oid) ==> parents_of@[oid]@ == all[oid]->parents@,
        decreases entries@.len() - i,
    {
        let ghost before = parents_of@;
        let oid = entries[i].0;
        let refs = &entries[i].1;
        assert(entries@[i as int].0 == oid);
        if let ObjectRefs::Commit { parents, .. } = refs {
            let _ = parents_of.insert(oid, copy_ids(parents.as_slice()));
        }
        i += 1;
        proof {
            assert forall|other: ObjectId| #[trigger]
                parents_of@.contains_key(other) <==> all.contains_key(other)
                    && all[other] is Commit && exists|j: int|
                    0 <= j < i && (#[trigger] entries@[j]).0 == other by {
                if before.contains_key(other) {
                    let j = choose|j: int| 0 <= j < i - 1 && (#[trigger] entries@[j]).0 == other;
                    assert(entries@[j].0 == other);
                }
            }
        }
    }
    proof {
        assert forall|oid: ObjectId| parents_in(object_refs@).contains_key(oid) implies #[trigger] runs(
            parents_of@,
        ).contains_key(oid) by {
            let j = choose|j: int| crate::ordmap::stands_at(entries@, oid, j);
            assert(entries@[j].0 == oid);
        }
        assert(runs(parents_of@) =~= parents_in(object_refs@));
    }
    parents_of
}

} // verus!
