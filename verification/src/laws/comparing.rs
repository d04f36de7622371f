//! What each commit of a push is compared with, and what has to be read for it.

use vstd::prelude::*;

use crate::ingest::graph::{ObjectRefs, TreeChild, TreeDiff};
use crate::ingest::identities::{asked_for, is_wanted};
use crate::ingest::plan::ordered;
use crate::ingest::rounds::{
    advanced, is_boundary, is_commit_of, is_located, is_stuck, packs_planned, roots_read, starting,
    tree_in_hand, trees_of, unread_prefix, wants, Planning, PlanningView,
};
use crate::model::ObjectMeta;
use crate::object::ObjectId;

verus! {

/// Whether a push brings a commit with `parent` as its first parent.
pub open spec fn is_first_parent(push: Map<ObjectId, ObjectRefs>, parent: ObjectId) -> bool {
    exists|oid: ObjectId| #[trigger]
        push.contains_key(oid) && (push[oid] matches ObjectRefs::Commit { parents, .. }
            && parents@.len() > 0 && parents@[0] == parent)
}

/// The commits at the boundary of a push are the first parents of its commits
/// that it does not bring as commits itself.
pub proof fn the_boundary_is_what_first_parents_leave(
    push: Map<ObjectId, ObjectRefs>,
    parent: ObjectId,
)
    ensures
        is_boundary(push, parent) <==> is_first_parent(push, parent) && !(push.contains_key(parent)
            && push[parent] is Commit),
{
    if is_boundary(push, parent) {
        let oid = choose|oid: ObjectId| #[trigger]
            crate::ingest::rounds::is_commit_of(push, oid) && crate::ingest::rounds::first_parent(
                push[oid],
            ) == Some(parent);
        assert(push.contains_key(oid));
    }
    if is_first_parent(push, parent) {
        let oid = choose|oid: ObjectId| #[trigger]
            push.contains_key(oid) && (push[oid] matches ObjectRefs::Commit { parents, .. }
                && parents@.len() > 0 && parents@[0] == parent);
        assert(crate::ingest::rounds::is_commit_of(push, oid));
    }
}

/// A commit is compared with its first parent's root tree: that of the push's
/// own commit, or that of a stored one that was read; a commit without a parent
/// is compared with nothing.
pub proof fn a_commit_is_compared_with_its_first_parent(
    push: Map<ObjectId, ObjectRefs>,
    boundary_roots: Map<ObjectId, ObjectId>,
    oid: ObjectId,
)
    requires
        push.contains_key(oid),
        push[oid] is Commit,
    ensures
        ({
            let begun = starting(push, boundary_roots, oid);
            let parents = push[oid]->parents@;
            &&& begun.commit == oid
            &&& begun.root_tree == push[oid]->root_tree
            &&& begun.entries is None && !begun.unplannable
            &&& parents.len() == 0 ==> begun.base_root is None
            &&& parents.len() > 0 ==> {
                let parent = parents[0];
                let brought = push.contains_key(parent) && push[parent] is Commit;
                &&& brought ==> begun.base_root == Some(push[parent]->root_tree)
                &&& !brought && boundary_roots.contains_key(parent) ==> begun.base_root == Some(
                    boundary_roots[parent],
                )
                &&& !brought && !boundary_roots.contains_key(parent) ==> begun.base_root is None
            }
        }),
{
}

/// The trees to read are those up to the first that was asked for already, and
/// none of them was.
pub proof fn what_is_read_was_not_asked_for(
    unreadable: Seq<ObjectId>,
    fetched: Map<ObjectId, Option<Vec<TreeChild>>>,
)
    ensures
        ({
            let unread = unread_prefix(unreadable, fetched);
            &&& unread.len() <= unreadable.len()
            &&& forall|k: int|
                0 <= k < unread.len() ==> #[trigger] unread[k] == unreadable[k]
                    && !fetched.contains_key(unread[k])
            &&& unread.len() < unreadable.len() ==> fetched.contains_key(
                unreadable[unread.len() as int],
            )
        }),
    decreases unreadable.len(),
{
    if unreadable.len() > 0 {
        let rest = unreadable.drop_last();
        what_is_read_was_not_asked_for(rest, fetched);
        let shorter = unread_prefix(rest, fetched);
        if shorter.len() < rest.len() {
            assert(rest[shorter.len() as int] == unreadable[shorter.len() as int]);
        }
        assert forall|k: int| 0 <= k < unread_prefix(unreadable, fetched).len() implies
            #[trigger] unread_prefix(unreadable, fetched)[k] == unreadable[k]
            && !fetched.contains_key(unread_prefix(unreadable, fetched)[k]) by {
            if k < shorter.len() {
                assert(shorter[k] == rest[k]);
            }
        }
    }
}

/// A commit is settled once its trees compare: its entries are those of the
/// difference. It cannot be planned where a tree that it needs was asked for and
/// is not held, and stays as it is where trees are yet to be read. What is
/// settled stays settled.
pub proof fn a_commit_settles_once_its_trees_compare(
    item: PlanningView,
    diff: TreeDiff,
    fetched: Map<ObjectId, Option<Vec<TreeChild>>>,
)
    ensures
        ({
            let next = advanced(item, Some(diff), fetched);
            let unread = wants(item, Some(diff), fetched);
            &&& next.commit == item.commit && next.root_tree == item.root_tree && next.base_root
                == item.base_root
            &&& item.entries is Some || item.unplannable ==> next == item && unread.len() == 0
            &&& item.entries is None && !item.unplannable ==> {
                &&& diff.unreadable@.len() == 0 ==> !next.unplannable && next.entries == Some(
                    ordered(item.root_tree, item.base_root, diff.changes@),
                )
                &&& diff.unreadable@.len() > 0 ==> next.entries is None
                &&& next.unplannable ==> exists|k: int|
                    0 <= k < diff.unreadable@.len() && fetched.contains_key(
                        #[trigger] diff.unreadable@[k],
                    ) && fetched[diff.unreadable@[k]] is None
                &&& (forall|k: int|
                    0 <= k < diff.unreadable@.len() ==> !fetched.contains_key(
                        #[trigger] diff.unreadable@[k],
                    )) ==> unread == diff.unreadable@ && !next.unplannable
                &&& is_stuck(item, Some(diff), fetched) ==> exists|k: int|
                    0 <= k < diff.unreadable@.len() && fetched.contains_key(
                        #[trigger] diff.unreadable@[k],
                    ) && fetched[diff.unreadable@[k]] is Some
                &&& diff.unreadable@.len() > 0 && unread.len() == 0 ==> next.unplannable
                    || is_stuck(item, Some(diff), fetched)
            }
        }),
{
    what_is_read_was_not_asked_for(diff.unreadable@, fetched);
    let unread = unread_prefix(diff.unreadable@, fetched);
    let k = unread.len() as int;
    if k < diff.unreadable@.len() {
        assert(fetched.contains_key(diff.unreadable@[k]));
    }
    if forall|k: int|
        0 <= k < diff.unreadable@.len() ==> !fetched.contains_key(#[trigger] diff.unreadable@[k]) {
        assert(unread =~= diff.unreadable@);
    }
}

/// Every commit that was planned has its entries in the plan, under its own id,
/// and nothing else is there.
pub proof fn each_planned_commit_is_in_the_plan(pending: Seq<Planning>)
    requires
        forall|i: int, j: int|
            0 <= i < j < pending.len() ==> (#[trigger] pending[i])@.commit != (
            #[trigger] pending[j])@.commit,
    ensures
        forall|i: int|
            0 <= i < pending.len() ==> match (#[trigger] pending[i])@.entries {
                Some(entries) => packs_planned(pending).contains_key(pending[i]@.commit)
                    && packs_planned(pending)[pending[i]@.commit] == entries,
                None => !packs_planned(pending).contains_key(pending[i]@.commit),
            },
        forall|commit: ObjectId| #[trigger]
            packs_planned(pending).contains_key(commit) ==> exists|i: int|
                0 <= i < pending.len() && (#[trigger] pending[i])@.commit == commit,
    decreases pending.len(),
{
    if pending.len() > 0 {
        let rest = pending.drop_last();
        let last = pending.last();
        assert forall|i: int, j: int| 0 <= i < j < rest.len() implies (#[trigger] rest[i])@.commit
            != (#[trigger] rest[j])@.commit by {
            assert(pending[i]@.commit != pending[j]@.commit);
        }
        each_planned_commit_is_in_the_plan(rest);
        assert(pending[pending.len() - 1] == last);
        assert forall|i: int| 0 <= i < pending.len() implies match (#[trigger] pending[i])@.entries {
            Some(entries) => packs_planned(pending).contains_key(pending[i]@.commit)
                && packs_planned(pending)[pending[i]@.commit] == entries,
            None => !packs_planned(pending).contains_key(pending[i]@.commit),
        } by {
            if i < rest.len() {
                assert(rest[i] == pending[i]);
                assert(pending[i]@.commit != pending[pending.len() - 1]@.commit);
            } else if packs_planned(rest).contains_key(last@.commit) {
                let k = choose|k: int|
                    0 <= k < rest.len() && (#[trigger] rest[k])@.commit == last@.commit;
                assert(pending[k]@.commit != pending[pending.len() - 1]@.commit);
            }
        }
        assert forall|commit: ObjectId| #[trigger]
            packs_planned(pending).contains_key(commit) implies exists|i: int|
            0 <= i < pending.len() && (#[trigger] pending[i])@.commit == commit by {
            if packs_planned(rest).contains_key(commit) {
                let k = choose|k: int|
                    0 <= k < rest.len() && (#[trigger] rest[k])@.commit == commit;
                assert(pending[k] == rest[k]);
            }
        }
    }
}

/// A tree in hand is the push's own, and else the one that was read.
pub proof fn a_tree_in_hand_is_the_push_s_own_first(
    push: Map<ObjectId, ObjectRefs>,
    fetched: Map<ObjectId, Option<Vec<TreeChild>>>,
    oid: ObjectId,
)
    ensures
        push.contains_key(oid) ==> (push[oid] matches ObjectRefs::Tree(children) ==> tree_in_hand(
            push,
            fetched,
            oid,
        ) == Some(children@)),
        !(push.contains_key(oid) && push[oid] is Tree) && fetched.contains_key(oid) ==> match fetched[oid] {
            Some(children) => tree_in_hand(push, fetched, oid) == Some(children@),
            None => tree_in_hand(push, fetched, oid) is None,
        },
        !(push.contains_key(oid) && push[oid] is Tree) && !fetched.contains_key(oid)
            ==> tree_in_hand(push, fetched, oid) is None,
{
}

/// Every tree of a round is answered: with its entries where it was read, and as
/// not held where it was not.
pub proof fn each_tree_asked_for_is_answered(
    round: Seq<ObjectId>,
    contents: Seq<(ObjectId, ObjectRefs)>,
)
    requires
        forall|i: int, j: int|
            0 <= i < j < contents.len() ==> (#[trigger] contents[i]).0 != (#[trigger] contents[j]).0,
    ensures
        forall|i: int|
            0 <= i < contents.len() ==> {
                &&& trees_of(round, contents).contains_key((#[trigger] contents[i]).0)
                &&& trees_of(round, contents)[contents[i].0] == Some(contents[i].1->Tree_0@)
            },
        forall|oid: ObjectId| #[trigger]
            trees_of(round, contents).contains_key(oid) && !(exists|i: int|
                0 <= i < contents.len() && (#[trigger] contents[i]).0 == oid) ==> round.contains(oid)
                && trees_of(round, contents)[oid] is None,
        forall|oid: ObjectId|
            round.contains(oid) ==> #[trigger] trees_of(round, contents).contains_key(oid),
    decreases contents.len(),
{
    if contents.len() > 0 {
        let rest = contents.drop_last();
        let last = contents.last();
        assert forall|i: int, j: int| 0 <= i < j < rest.len() implies (#[trigger] rest[i]).0 != (
        #[trigger] rest[j]).0 by {
            assert(contents[i].0 != contents[j].0);
        }
        each_tree_asked_for_is_answered(round, rest);
        assert(contents[contents.len() - 1] == last);
        assert forall|i: int| 0 <= i < contents.len() implies {
            &&& trees_of(round, contents).contains_key((#[trigger] contents[i]).0)
            &&& trees_of(round, contents)[contents[i].0] == Some(contents[i].1->Tree_0@)
        } by {
            if i < rest.len() {
                assert(rest[i] == contents[i]);
                assert(contents[i].0 != contents[contents.len() - 1].0);
            }
        }
        assert forall|oid: ObjectId| #[trigger]
            trees_of(round, contents).contains_key(oid) && !(exists|i: int|
                0 <= i < contents.len() && (#[trigger] contents[i]).0 == oid) implies round.contains(
            oid,
        ) && trees_of(round, contents)[oid] is None by {
            assert(last.0 != oid);
            assert(trees_of(round, rest).contains_key(oid));
            if exists|i: int| 0 <= i < rest.len() && (#[trigger] rest[i]).0 == oid {
                let k = choose|i: int| 0 <= i < rest.len() && (#[trigger] rest[i]).0 == oid;
                assert(contents[k].0 == oid);
            }
        }
        assert forall|oid: ObjectId| round.contains(oid) implies #[trigger] trees_of(
            round,
            contents,
        ).contains_key(oid) by {
            assert(trees_of(round, rest).contains_key(oid));
        }
    }
}

/// Every commit that was read has its own root tree.
pub proof fn each_commit_read_has_its_root(parsed: Seq<(ObjectId, ObjectRefs)>)
    requires
        forall|i: int, j: int|
            0 <= i < j < parsed.len() ==> (#[trigger] parsed[i]).0 != (#[trigger] parsed[j]).0,
    ensures
        forall|i: int|
            0 <= i < parsed.len() ==> {
                &&& roots_read(parsed).contains_key((#[trigger] parsed[i]).0)
                &&& roots_read(parsed)[parsed[i].0] == parsed[i].1->root_tree
            },
        forall|oid: ObjectId| #[trigger]
            roots_read(parsed).contains_key(oid) ==> exists|i: int|
                0 <= i < parsed.len() && (#[trigger] parsed[i]).0 == oid,
    decreases parsed.len(),
{
    if parsed.len() > 0 {
        let rest = parsed.drop_last();
        let last = parsed.last();
        assert forall|i: int, j: int| 0 <= i < j < rest.len() implies (#[trigger] rest[i]).0 != (
        #[trigger] rest[j]).0 by {
            assert(parsed[i].0 != parsed[j].0);
        }
        each_commit_read_has_its_root(rest);
        assert(parsed[parsed.len() - 1] == last);
        assert forall|i: int| 0 <= i < parsed.len() implies {
            &&& roots_read(parsed).contains_key((#[trigger] parsed[i]).0)
            &&& roots_read(parsed)[parsed[i].0] == parsed[i].1->root_tree
        } by {
            if i < rest.len() {
                assert(rest[i] == parsed[i]);
                assert(parsed[i].0 != parsed[parsed.len() - 1].0);
            }
        }
        assert forall|oid: ObjectId| #[trigger] roots_read(parsed).contains_key(oid) implies exists|
            i: int,
        |
            0 <= i < parsed.len() && (#[trigger] parsed[i]).0 == oid by {
            if oid != last.0 {
                assert(roots_read(rest).contains_key(oid));
                let k = choose|i: int| 0 <= i < rest.len() && (#[trigger] rest[i]).0 == oid;
                assert(parsed[k].0 == oid);
            }
        }
    }
}

/// The identities that are read before a push is recorded are those of each of
/// its commits, of its root tree and of every parent, of the entries of each of
/// its trees but for the commits of other repositories, and of its tags.
pub proof fn what_a_push_names_is_read(
    push: Map<ObjectId, ObjectRefs>,
    by: ObjectId,
)
    requires
        push.contains_key(by),
    ensures
        match push[by] {
            ObjectRefs::Commit { root_tree, parents, .. } => {
                &&& is_wanted(push, by)
                &&& is_wanted(push, root_tree)
                &&& forall|k: int|
                    0 <= k < parents@.len() ==> is_wanted(push, #[trigger] parents@[k])
            },
            ObjectRefs::Tree(children) => forall|k: int|
                0 <= k < children@.len() && !(#[trigger] children@[k]).is_commit ==> is_wanted(
                    push,
                    children@[k].oid,
                ),
            ObjectRefs::Blob => true,
            ObjectRefs::Tag(_) => is_wanted(push, by),
        },
{
    match push[by] {
        ObjectRefs::Commit { root_tree, parents, .. } => {
            let asked = asked_for(by, push[by]);
            assert(asked == seq![by, root_tree] + parents@);
            assert(asked[0] == by);
            assert(asked[1] == root_tree);
            assert forall|k: int| 0 <= k < parents@.len() implies is_wanted(
                push,
                #[trigger] parents@[k],
            ) by {
                assert(asked[2 + k] == parents@[k]);
            }
        },
        ObjectRefs::Tree(children) => {
            assert forall|k: int|
                0 <= k < children@.len() && !(#[trigger] children@[k]).is_commit implies is_wanted(
                push,
                children@[k].oid,
            ) by {
                crate::laws::connectivity::a_tree_needs_its_own_entries(children@, children@[k].oid);
                assert(asked_for(by, push[by]).contains(children@[k].oid));
            }
        },
        ObjectRefs::Blob => {},
        ObjectRefs::Tag(_) => {
            assert(asked_for(by, push[by])[0] == by);
        },
    }
}

/// A tree can be read where the store has it in a pack.
pub proof fn what_is_in_a_pack_can_be_read(metas: Map<ObjectId, ObjectMeta>, oid: ObjectId)
    ensures
        is_located(metas, oid) <==> metas.contains_key(oid) && metas[oid].location is Some,
{
}

/// A commit of a push is what the push brings as one.
pub proof fn the_commits_of_a_push_are_what_it_brings_as_such(
    push: Map<ObjectId, ObjectRefs>,
    oid: ObjectId,
)
    ensures
        is_commit_of(push, oid) <==> push.contains_key(oid) && push[oid] is Commit,
{
}

/// Whether an object of a push has its identity asked for as one that `by` is or
/// names.
pub open spec fn is_named_by(refs: ObjectRefs, by: ObjectId, oid: ObjectId) -> bool {
    match refs {
        ObjectRefs::Commit { root_tree, parents, .. } => oid == by || oid == root_tree
            || parents@.contains(oid),
        ObjectRefs::Tree(children) => exists|k: int|
            0 <= k < children@.len() && (#[trigger] children@[k]).oid == oid
                && !children@[k].is_commit,
        ObjectRefs::Blob => false,
        ObjectRefs::Tag(_) => oid == by,
    }
}

/// No identity is read but those of the commits and tags of a push and of what
/// its commits and trees name.
pub proof fn what_is_read_is_named_by_the_push(push: Map<ObjectId, ObjectRefs>, oid: ObjectId)
    requires
        is_wanted(push, oid),
    ensures
        exists|by: ObjectId| #[trigger]
            push.contains_key(by) && is_named_by(push[by], by, oid),
{
    let by = choose|by: ObjectId| #[trigger]
        push.contains_key(by) && asked_for(by, push[by]).contains(oid);
    let asked = asked_for(by, push[by]);
    let k = choose|k: int| 0 <= k < asked.len() && asked[k] == oid;
    match push[by] {
        ObjectRefs::Commit { root_tree, parents, .. } => {
            if k >= 2 {
                assert(parents@[k - 2] == oid);
            }
        },
        ObjectRefs::Tree(children) => {
            crate::laws::connectivity::a_tree_needs_its_own_entries(children@, oid);
        },
        ObjectRefs::Blob => {},
        ObjectRefs::Tag(_) => {},
    }
    assert(push.contains_key(by) && is_named_by(push[by], by, oid));
}

} // verus!
