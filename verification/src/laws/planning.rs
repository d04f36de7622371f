//! What holds of planning what each commit's pack stores.

use vstd::prelude::*;

use crate::ingest::graph::Change;
use crate::ingest::lists::lemma_filtered;
use crate::ingest::plan::{firsts, met, ordered, DeltaEntry, EntrySource};
use crate::object::{Kind, ObjectId};

verus! {

/// Whether `at` is the first change that brings `oid`.
pub open spec fn brings_first(changes: Seq<Change>, at: int, oid: ObjectId) -> bool {
    &&& 0 <= at < changes.len()
    &&& changes[at].new == oid
    &&& forall|k: int| 0 <= k < at ==> (#[trigger] changes[k]).new != oid
}

/// Whether `entry` is what change `at` asks for.
pub open spec fn is_asked_by(entry: DeltaEntry, changes: Seq<Change>, at: int) -> bool {
    &&& brings_first(changes, at, entry.oid)
    &&& entry.kind == changes[at].kind
    &&& entry.base == changes[at].old
    &&& entry.source == EntrySource::Encoded
}

proof fn lemma_firsts_are_first(root_tree: ObjectId, changes: Seq<Change>)
    ensures
        forall|i: int|
            0 <= i < firsts(root_tree, changes).len() ==> exists|at: int|
                brings_first(changes, at, (#[trigger] firsts(root_tree, changes)[i]).new)
                    && changes[at] == firsts(root_tree, changes)[i],
        forall|k: int|
            0 <= k < changes.len() && (#[trigger] changes[k]).new != root_tree ==> exists|i: int|
                0 <= i < firsts(root_tree, changes).len() && (#[trigger] firsts(
                    root_tree,
                    changes,
                )[i]).new == changes[k].new,
        forall|i: int|
            0 <= i < firsts(root_tree, changes).len() ==> (#[trigger] firsts(
                root_tree,
                changes,
            )[i]).new != root_tree,
    decreases changes.len(),
{
    if changes.len() > 0 {
        let front = changes.drop_last();
        let last = changes.last();
        let before = firsts(root_tree, front);
        let after = firsts(root_tree, changes);
        lemma_firsts_are_first(root_tree, front);
        assert forall|i: int| 0 <= i < after.len() implies exists|at: int|
            brings_first(changes, at, (#[trigger] after[i]).new) && changes[at] == after[i] by {
            if i < before.len() {
                assert(after[i] == before[i]);
                let at = choose|at: int|
                    brings_first(front, at, before[i].new) && front[at] == before[i];
                assert(brings_first(changes, at, after[i].new)) by {
                    assert forall|k: int| 0 <= k < at implies (#[trigger] changes[k]).new
                        != after[i].new by {
                        assert(front[k].new != before[i].new);
                    }
                }
                assert(changes[at] == after[i]);
            } else {
                let at = changes.len() - 1;
                assert forall|k: int| 0 <= k < at implies (#[trigger] changes[k]).new
                    != last.new by {
                    if changes[k].new == last.new {
                        assert(front[k].new == last.new);
                        assert(met(root_tree, front).contains(last.new));
                    }
                }
                assert(brings_first(changes, at, after[i].new));
                assert(changes[at] == after[i]);
            }
        }
        assert forall|k: int|
            0 <= k < changes.len() && (#[trigger] changes[k]).new != root_tree implies exists|
            i: int,
        |
            0 <= i < after.len() && (#[trigger] after[i]).new == changes[k].new by {
            if k < front.len() {
                assert(front[k] == changes[k]);
                let i = choose|i: int|
                    0 <= i < before.len() && (#[trigger] before[i]).new == front[k].new;
                assert(after[i].new == changes[k].new);
            } else if met(root_tree, front).contains(last.new) {
                let j = choose|j: int| 0 <= j < front.len() && (#[trigger] front[j]).new == last.new;
                let i = choose|i: int|
                    0 <= i < before.len() && (#[trigger] before[i]).new == front[j].new;
                assert(after[i].new == changes[k].new);
            } else {
                assert(after[before.len() as int].new == changes[k].new);
            }
        }
        assert forall|i: int| 0 <= i < after.len() implies (#[trigger] after[i]).new
            != root_tree by {
            if i < before.len() {
                assert(after[i] == before[i]);
            }
        }
    }
}

/// A commit whose root tree is not its base's stores that tree, first, against
/// the base's; and whatever it stores, it stores everything that its changes
/// bring, each as the first change that brings it says, and nothing else. It
/// stores nothing only where its tree is its base's and nothing changed.
pub proof fn a_commit_stores_what_it_brings(
    root_tree: ObjectId,
    base_root: Option<ObjectId>,
    changes: Seq<Change>,
)
    ensures
        ({
            let entries = ordered(root_tree, base_root, changes);
            &&& entries.len() == 0 <==> base_root == Some(root_tree) && changes.len() == 0
            &&& entries.len() > 0 ==> entries[0] == (DeltaEntry {
                oid: root_tree,
                kind: Kind::Tree,
                base: base_root,
                source: EntrySource::Encoded,
            })
            &&& forall|i: int|
                1 <= i < entries.len() ==> {
                    &&& (#[trigger] entries[i]).oid != root_tree
                    &&& exists|at: int| is_asked_by(entries[i], changes, at)
                }
            &&& forall|k: int|
                0 <= k < changes.len() ==> exists|i: int|
                    0 <= i < entries.len() && (#[trigger] entries[i]).oid == (
                    #[trigger] changes[k]).new
        }),
{
    let entries = ordered(root_tree, base_root, changes);
    if entries.len() > 0 {
        let brought = firsts(root_tree, changes);
        let is_tree = |change: Change| change.kind == Kind::Tree;
        let is_other = |change: Change| change.kind != Kind::Tree;
        let trees = brought.filter(is_tree);
        let others = brought.filter(is_other);
        lemma_firsts_are_first(root_tree, changes);
        lemma_filtered(brought, is_tree);
        lemma_filtered(brought, is_other);
        assert forall|i: int| 1 <= i < entries.len() implies {
            &&& (#[trigger] entries[i]).oid != root_tree
            &&& exists|at: int| is_asked_by(entries[i], changes, at)
        } by {
            let change = if i <= trees.len() {
                trees[i - 1]
            } else {
                others[i - 1 - trees.len()]
            };
            if i <= trees.len() {
                assert(trees.contains(change));
            } else {
                assert(others.contains(change));
            }
            assert(brought.contains(change));
            let k = choose|k: int| 0 <= k < brought.len() && brought[k] == change;
            let at = choose|at: int|
                brings_first(changes, at, brought[k].new) && changes[at] == brought[k];
            assert(is_asked_by(entries[i], changes, at));
        }
        assert forall|k: int| 0 <= k < changes.len() implies exists|i: int|
            0 <= i < entries.len() && (#[trigger] entries[i]).oid == (
            #[trigger] changes[k]).new by {
            if changes[k].new == root_tree {
                assert(entries[0].oid == changes[k].new);
            } else {
                let j = choose|j: int|
                    0 <= j < brought.len() && (#[trigger] brought[j]).new == changes[k].new;
                assert(brought.contains(brought[j]));
                if is_tree(brought[j]) {
                    assert(trees.contains(brought[j]));
                    let i = choose|i: int| 0 <= i < trees.len() && trees[i] == brought[j];
                    assert(entries[i + 1].oid == changes[k].new);
                } else {
                    assert(is_other(brought[j]));
                    assert(others.contains(brought[j]));
                    let i = choose|i: int| 0 <= i < others.len() && others[i] == brought[j];
                    assert(entries[i + 1 + trees.len()].oid == changes[k].new);
                }
            }
        }
    }
}

} // verus!
