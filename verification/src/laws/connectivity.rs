//! What holds of the check that a pushed history is complete.

use vstd::prelude::*;

use crate::ingest::connectivity::{is_path, reaches, steps_to};
use crate::ingest::graph::{children_named, parents_in, ObjectRefs, TreeChild};
use crate::ingest::lists::lemma_filtered;
use crate::object::ObjectId;

verus! {

/// A tree needs each of its entries but the submodules, and nothing else.
pub proof fn a_tree_needs_its_own_entries(children: Seq<TreeChild>, oid: ObjectId)
    ensures
        children_named(children).contains(oid) <==> exists|i: int|
            0 <= i < children.len() && (#[trigger] children[i]).oid == oid
                && !children[i].is_commit,
        (forall|i: int| 0 <= i < children.len() ==> !(#[trigger] children[i]).is_commit)
            ==> children_named(children) == children.map_values(|child: TreeChild| child.oid),
{
    let own = |child: TreeChild| !child.is_commit;
    let id_of = |child: TreeChild| child.oid;
    let kept = children.filter(own);
    lemma_filtered(children, own);
    let named = children_named(children);
    assert(named =~= kept.map_values(id_of));
    if named.contains(oid) {
        let k = choose|k: int| 0 <= k < named.len() && named[k] == oid;
        assert(kept.contains(kept[k]));
        let i = choose|i: int| 0 <= i < children.len() && children[i] == kept[k];
        assert(children[i].oid == oid && !children[i].is_commit);
    }
    if exists|i: int|
        0 <= i < children.len() && (#[trigger] children[i]).oid == oid && !children[i].is_commit {
        let i = choose|i: int|
            0 <= i < children.len() && (#[trigger] children[i]).oid == oid
                && !children[i].is_commit;
        assert(children.contains(children[i]));
        assert(own(children[i]));
        assert(kept.contains(children[i]));
        let k = choose|k: int| 0 <= k < kept.len() && kept[k] == children[i];
        assert(named[k] == oid);
    }
    if forall|i: int| 0 <= i < children.len() ==> !(#[trigger] children[i]).is_commit {
        lemma_all_own(children);
        assert(named =~= children.map_values(id_of));
    }
}

proof fn lemma_all_own(children: Seq<TreeChild>)
    requires
        forall|i: int| 0 <= i < children.len() ==> !(#[trigger] children[i]).is_commit,
    ensures
        children.filter(|child: TreeChild| !child.is_commit) == children,
    decreases children.len(),
{
    reveal(Seq::filter);
    if children.len() > 0 {
        let front = children.drop_last();
        assert forall|i: int| 0 <= i < front.len() implies !(#[trigger] front[i]).is_commit by {
            assert(!children[i].is_commit);
        }
        lemma_all_own(front);
        assert(!children[children.len() - 1].is_commit);
        assert(front.push(children.last()) =~= children);
    }
}

/// What an object needs, by its fields: a commit its root tree and each of its
/// parents, a tree each of its entries but the submodules, a tag its target, a
/// blob nothing; and no object anything else.
pub proof fn an_object_needs_what_it_names(refs: ObjectRefs, oid: ObjectId)
    ensures
        match refs {
            ObjectRefs::Commit { root_tree, parents, .. } => {
                &&& refs.named().contains(root_tree)
                &&& forall|k: int|
                    0 <= k < parents@.len() ==> refs.named().contains(#[trigger] parents@[k])
                &&& refs.named().contains(oid) ==> oid == root_tree || exists|k: int|
                    0 <= k < parents@.len() && #[trigger] parents@[k] == oid
            },
            ObjectRefs::Tree(children) => refs.named().contains(oid) <==> exists|i: int|
                0 <= i < children@.len() && (#[trigger] children@[i]).oid == oid
                    && !children@[i].is_commit,
            ObjectRefs::Blob => !refs.named().contains(oid),
            ObjectRefs::Tag(target) => refs.named().contains(oid) <==> oid == target,
        },
{
    match refs {
        ObjectRefs::Commit { root_tree, parents, .. } => {
            let named = refs.named();
            assert(named[0] == root_tree);
            assert forall|k: int| 0 <= k < parents@.len() implies named.contains(
                #[trigger] parents@[k],
            ) by {
                assert(named[k + 1] == parents@[k]);
            }
            if named.contains(oid) {
                let i = choose|i: int| 0 <= i < named.len() && named[i] == oid;
                if i > 0 {
                    assert(parents@[i - 1] == oid);
                }
            }
        },
        ObjectRefs::Tree(children) => {
            a_tree_needs_its_own_entries(children@, oid);
        },
        ObjectRefs::Blob => {},
        ObjectRefs::Tag(target) => {
            assert(refs.named()[0] == target);
        },
    }
}

proof fn lemma_one_step_on(
    push: Map<ObjectId, ObjectRefs>,
    tip: ObjectId,
    from: ObjectId,
    to: ObjectId,
)
    requires
        reaches(push, tip, from),
        push.contains_key(from),
        push[from].named().contains(to),
    ensures
        reaches(push, tip, to),
{
    let path = choose|path: Seq<ObjectId>| #[trigger]
        is_path(push, tip, path) && path.last() == from;
    let longer = path.push(to);
    assert forall|i: int| 0 <= i < longer.len() - 1 implies steps_to(
        push,
        #[trigger] longer[i],
        longer[i + 1],
    ) by {
        if i < path.len() - 1 {
            assert(steps_to(push, path[i], path[i + 1]));
        }
    }
    assert(is_path(push, tip, longer));
    assert(longer.last() == to);
}

/// What is reached from a tip: the tip itself, and from each commit of the push
/// that is reached its root tree and every one of its parents, from each tree
/// every entry but the submodules, and from each tag its target.
pub proof fn everything_below_a_tip_is_reached(
    push: Map<ObjectId, ObjectRefs>,
    tip: ObjectId,
    from: ObjectId,
)
    ensures
        reaches(push, tip, tip),
        reaches(push, tip, from) && push.contains_key(from) ==> match push[from] {
            ObjectRefs::Commit { root_tree, parents, .. } => {
                &&& reaches(push, tip, root_tree)
                &&& forall|k: int|
                    0 <= k < parents@.len() ==> reaches(push, tip, #[trigger] parents@[k])
            },
            ObjectRefs::Tree(children) => forall|i: int|
                0 <= i < children@.len() && !(#[trigger] children@[i]).is_commit ==> reaches(
                    push,
                    tip,
                    children@[i].oid,
                ),
            ObjectRefs::Blob => true,
            ObjectRefs::Tag(target) => reaches(push, tip, target),
        },
{
    let alone = seq![tip];
    assert(is_path(push, tip, alone));
    assert(alone.last() == tip);
    if reaches(push, tip, from) && push.contains_key(from) {
        match push[from] {
            ObjectRefs::Commit { root_tree, parents, .. } => {
                an_object_needs_what_it_names(push[from], root_tree);
                lemma_one_step_on(push, tip, from, root_tree);
                assert forall|k: int| 0 <= k < parents@.len() implies reaches(
                    push,
                    tip,
                    #[trigger] parents@[k],
                ) by {
                    lemma_one_step_on(push, tip, from, parents@[k]);
                }
            },
            ObjectRefs::Tree(children) => {
                assert forall|i: int|
                    0 <= i < children@.len() && !(#[trigger] children@[i]).is_commit implies reaches(
                    push,
                    tip,
                    children@[i].oid,
                ) by {
                    an_object_needs_what_it_names(push[from], children@[i].oid);
                    lemma_one_step_on(push, tip, from, children@[i].oid);
                }
            },
            ObjectRefs::Blob => {},
            ObjectRefs::Tag(target) => {
                an_object_needs_what_it_names(push[from], target);
                lemma_one_step_on(push, tip, from, target);
            },
        }
    }
}

/// Nothing is reached but the tip and what an object of the push that is reached
/// names.
pub proof fn what_is_reached_is_named(
    push: Map<ObjectId, ObjectRefs>,
    tip: ObjectId,
    oid: ObjectId,
)
    requires
        reaches(push, tip, oid),
        oid != tip,
    ensures
        exists|from: ObjectId|
            #![trigger push.contains_key(from)]
            push.contains_key(from) && reaches(push, tip, from) && match push[from] {
                ObjectRefs::Commit { root_tree, parents, .. } => oid == root_tree || exists|k: int|
                    0 <= k < parents@.len() && #[trigger] parents@[k] == oid,
                ObjectRefs::Tree(children) => exists|i: int|
                    0 <= i < children@.len() && (#[trigger] children@[i]).oid == oid
                        && !children@[i].is_commit,
                ObjectRefs::Blob => false,
                ObjectRefs::Tag(target) => oid == target,
            },
{
    let path = choose|path: Seq<ObjectId>| #[trigger]
        is_path(push, tip, path) && path.last() == oid;
    assert(path.len() > 1);
    let front = path.drop_last();
    let from = front.last();
    let n = path.len() - 2;
    assert(steps_to(push, path[n], path[n + 1]));
    assert forall|i: int| 0 <= i < front.len() - 1 implies steps_to(
        push,
        #[trigger] front[i],
        front[i + 1],
    ) by {
        assert(steps_to(push, path[i], path[i + 1]));
    }
    assert(is_path(push, tip, front));
    assert(reaches(push, tip, from));
    an_object_needs_what_it_names(push[from], oid);
    assert(push.contains_key(from));
}

/// The commit graph of a push has each of its commits, with all of its parents
/// in their order, and nothing else.
pub proof fn a_push_s_commit_graph_is_whole(push: Map<ObjectId, ObjectRefs>, oid: ObjectId)
    ensures
        parents_in(push).contains_key(oid) <==> push.contains_key(oid) && push[oid] is Commit,
        push.contains_key(oid) ==> (push[oid] matches ObjectRefs::Commit { parents, .. }
            ==> parents_in(push)[oid] == parents@),
{
}

} // verus!
