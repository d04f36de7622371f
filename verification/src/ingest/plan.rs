//! What each commit's pack stores, and what each entry deltas against.
//!
//! A commit's pack carries one entry per path whose content differs from its
//! first parent's.

use vstd::prelude::*;

use crate::ingest::graph::Change;
use crate::ingest::lists::lemma_filtered;
use crate::object::{Kind, ObjectId};
use crate::ordmap::{OrdMap, OrdSet};

verus! {

/// One entry of one of a push's packs.
#[derive(Clone, Copy, Debug, PartialEq, Eq, Structural)]
pub struct WireRef {
    /// Which of the push's packs.
    pub pack: usize,
    /// The entry's index within that pack.
    pub at: usize,
}

/// Where an entry's bytes come from.
#[derive(Clone, Copy, Debug, PartialEq, Eq, Structural)]
pub enum EntrySource {
    /// The client's own bytes, copied as they came.
    Wire(WireRef),
    /// Encoded here, and held in staging until the pack is written.
    Encoded,
}

/// One entry of a commit's pack.
#[derive(Clone, Copy, Debug, PartialEq, Eq, Structural)]
pub struct DeltaEntry {
    pub oid: ObjectId,
    /// Tree or blob.
    pub kind: Kind,
    /// What it deltas against; none when it is stored whole.
    pub base: Option<ObjectId>,
    pub source: EntrySource,
}

/// What each commit's pack holds.
#[derive(Debug)]
pub struct DeltaPlan {
    /// Per commit, its trees and then its blobs. The commit's own entry,
    /// always whole, is not among them.
    pub packs: OrdMap<ObjectId, Vec<DeltaEntry>>,
    /// Where each commit's own entry comes from.
    pub commits: OrdMap<ObjectId, EntrySource>,
}

/// The changes that bring an object not met before: neither the root tree nor
/// what an earlier change brought.
pub open spec fn firsts(root_tree: ObjectId, changes: Seq<Change>) -> Seq<Change>
    decreases changes.len(),
{
    if changes.len() == 0 {
        Seq::empty()
    } else {
        let earlier = changes.drop_last();
        let last = changes.last();
        if met(root_tree, earlier).contains(last.new) {
            firsts(root_tree, earlier)
        } else {
            firsts(root_tree, earlier).push(last)
        }
    }
}

/// The objects that a root tree and a run of changes name.
pub open spec fn met(root_tree: ObjectId, changes: Seq<Change>) -> Set<ObjectId> {
    Set::new(
        |oid: ObjectId|
            oid == root_tree || exists|i: int|
                0 <= i < changes.len() && (#[trigger] changes[i]).new == oid,
    )
}

/// The entry that a change asks for.
pub open spec fn entry_for(change: Change) -> DeltaEntry {
    DeltaEntry {
        oid: change.new,
        kind: change.kind,
        base: change.old,
        source: EntrySource::Encoded,
    }
}

/// A pack's entries for a set of changes: the root tree, then the other trees,
/// then everything else.
pub open spec fn ordered(
    root_tree: ObjectId,
    base_root: Option<ObjectId>,
    changes: Seq<Change>,
) -> Seq<DeltaEntry> {
    if changes.len() == 0 && base_root == Some(root_tree) {
        Seq::empty()
    } else {
        let brought = firsts(root_tree, changes);
        let entry = |change: Change| entry_for(change);
        seq![
            DeltaEntry {
                oid: root_tree,
                kind: Kind::Tree,
                base: base_root,
                source: EntrySource::Encoded,
            },
        ] + brought.filter(|change: Change| change.kind == Kind::Tree).map_values(entry)
            + brought.filter(|change: Change| change.kind != Kind::Tree).map_values(entry)
    }
}

/// Turn a diff into pack entries: root tree first, then trees, then blobs, one
/// per object however many paths it sits at.
///
/// An unchanged tree stores nothing: the base's pack holds every object.
pub fn order_entries(
    root_tree: ObjectId,
    base_root: Option<ObjectId>,
    changes: Vec<Change>,
) -> (entries: Vec<DeltaEntry>)
    ensures
        entries@ == ordered(root_tree, base_root, changes@),
        entries@.len() == 0 <==> base_root == Some(root_tree) && changes@.len() == 0,
        entries@.len() > 0 ==> entries@[0].oid == root_tree && entries@[0].kind == Kind::Tree
            && entries@[0].base == base_root,
{
    entries_of(root_tree, base_root, changes.as_slice())
}

/// [`order_entries`] for changes that are only lent.
pub fn entries_of(
    root_tree: ObjectId,
    base_root: Option<ObjectId>,
    changes: &[Change],
) -> (entries: Vec<DeltaEntry>)
    ensures
        entries@ == ordered(root_tree, base_root, changes@),
        entries@.len() == 0 <==> base_root == Some(root_tree) && changes@.len() == 0,
        entries@.len() > 0 ==> entries@[0].oid == root_tree && entries@[0].kind == Kind::Tree
            && entries@[0].base == base_root,
{
    if changes.len() == 0 && base_root == Some(root_tree) {
        return Vec::new();
    }
    let mut seen: OrdSet<ObjectId> = OrdSet::new();
    let mut trees: Vec<DeltaEntry> = Vec::new();
    let root = DeltaEntry {
        oid: root_tree,
        kind: Kind::Tree,
        base: base_root,
        source: EntrySource::Encoded,
    };
    trees.push(root);
    let _ = seen.insert(root_tree);
    let mut blobs: Vec<DeltaEntry> = Vec::new();
    let ghost entry = |change: Change| entry_for(change);
    let ghost is_tree = |change: Change| change.kind == Kind::Tree;
    let ghost is_other = |change: Change| change.kind != Kind::Tree;
    let mut i: usize = 0;
    proof {
        reveal(Seq::filter);
        let none = changes@.take(0);
        assert(firsts(root_tree, none).filter(is_tree).map_values(entry) =~= Seq::empty());
        assert(firsts(root_tree, none).filter(is_other).map_values(entry) =~= Seq::empty());
        assert(trees@ =~= seq![root] + firsts(root_tree, none).filter(is_tree).map_values(entry));
        assert(seen@ =~= met(root_tree, none));
    }
    while i < changes.len()
        invariant
            i <= changes@.len(),
            entry == (|change: Change| entry_for(change)),
            is_tree == (|change: Change| change.kind == Kind::Tree),
            is_other == (|change: Change| change.kind != Kind::Tree),
            seen@ == met(root_tree, changes@.take(i as int)),
            trees@ == seq![root] + firsts(root_tree, changes@.take(i as int)).filter(
                is_tree,
            ).map_values(entry),
            blobs@ == firsts(root_tree, changes@.take(i as int)).filter(is_other).map_values(entry),
        decreases changes@.len() - i,
    {
        let change = &changes[i];
        let ghost earlier = changes@.take(i as int);
        let ghost next = changes@.take(i as int + 1);
        proof {
            reveal(Seq::filter);
            assert(next.drop_last() =~= earlier);
            assert(next.last() == change);
        }
        let new = seen.insert(change.new);
        assert(seen@ =~= met(root_tree, next)) by {
            assert forall|oid: ObjectId| met(root_tree, next).contains(oid) implies #[trigger] seen@.contains(
                oid,
            ) by {
                if oid != root_tree {
                    let j = choose|j: int|
                        0 <= j < next.len() && (#[trigger] next[j]).new == oid;
                    if j < i {
                        assert(earlier[j].new == oid);
                    }
                }
            }
            assert forall|oid: ObjectId| #[trigger] seen@.contains(oid) implies met(
                root_tree,
                next,
            ).contains(oid) by {
                if oid == change.new {
                    assert(next[i as int].new == oid);
                } else if oid != root_tree {
                    let j = choose|j: int|
                        0 <= j < earlier.len() && (#[trigger] earlier[j]).new == oid;
                    assert(next[j].new == oid);
                }
            }
        }
        if new {
            let made = DeltaEntry {
                oid: change.new,
                kind: change.kind,
                base: change.old,
                source: EntrySource::Encoded,
            };
            let ghost brought = firsts(root_tree, next);
            assert(brought.drop_last() =~= firsts(root_tree, earlier));
            if change.kind == Kind::Tree {
                trees.push(made);
            } else {
                blobs.push(made);
            }
        }
        i += 1;
        assert(trees@ =~= seq![root] + firsts(root_tree, next).filter(is_tree).map_values(entry));
        assert(blobs@ =~= firsts(root_tree, next).filter(is_other).map_values(entry));
    }
    assert(changes@.take(i as int) =~= changes@);
    let ghost trees_first = trees@;
    let mut j: usize = 0;
    while j < blobs.len()
        invariant
            j <= blobs@.len(),
            trees@ == trees_first + blobs@.take(j as int),
        decreases blobs@.len() - j,
    {
        trees.push(blobs[j]);
        j += 1;
        assert(trees@ =~= trees_first + blobs@.take(j as int));
    }
    assert(trees@ =~= trees_first + blobs@);
    trees
}

/// What a run of changes brings is brought once, and is neither the root tree
/// nor anything the run does not name.
proof fn lemma_firsts(root_tree: ObjectId, changes: Seq<Change>)
    ensures
        forall|i: int|
            0 <= i < firsts(root_tree, changes).len() ==> {
                &&& (#[trigger] firsts(root_tree, changes)[i]).new != root_tree
                &&& met(root_tree, changes).contains(firsts(root_tree, changes)[i].new)
            },
        forall|i: int, j: int|
            0 <= i < j < firsts(root_tree, changes).len() ==> (#[trigger] firsts(
                root_tree,
                changes,
            )[i]).new != (#[trigger] firsts(root_tree, changes)[j]).new,
    decreases changes.len(),
{
    if changes.len() > 0 {
        let earlier = changes.drop_last();
        lemma_firsts(root_tree, earlier);
        assert forall|oid: ObjectId| #[trigger] met(root_tree, earlier).contains(oid) implies met(
            root_tree,
            changes,
        ).contains(oid) by {
            if oid != root_tree {
                let i = choose|i: int| 0 <= i < earlier.len() && (#[trigger] earlier[i]).new == oid;
                assert(changes[i].new == oid);
            }
        }
        assert(changes[changes.len() - 1].new == changes.last().new);
    }
}

proof fn lemma_filtered_apart(run: Seq<Change>, keep: spec_fn(Change) -> bool)
    requires
        forall|i: int, j: int|
            0 <= i < j < run.len() ==> (#[trigger] run[i]).new != (#[trigger] run[j]).new,
    ensures
        forall|i: int, j: int|
            0 <= i < j < run.filter(keep).len() ==> (#[trigger] run.filter(keep)[i]).new != (
            #[trigger] run.filter(keep)[j]).new,
    decreases run.len(),
{
    reveal(Seq::filter);
    if run.len() > 0 {
        let shorter = run.drop_last();
        lemma_filtered_apart(shorter, keep);
        lemma_filtered(shorter, keep);
        assert forall|i: int, j: int| 0 <= i < j < run.filter(keep).len() implies (
        #[trigger] run.filter(keep)[i]).new != (#[trigger] run.filter(keep)[j]).new by {
            let kept = shorter.filter(keep);
            assert(run.filter(keep)[i] == kept[i]);
            if j < kept.len() {
                assert(run.filter(keep)[j] == kept[j]);
            } else {
                assert(kept.contains(kept[i]));
                let k = choose|k: int| 0 <= k < shorter.len() && #[trigger] shorter[k] == kept[i];
                assert(run[k].new != run[run.len() - 1].new);
            }
        }
    }
}

/// A commit's pack leads with its root tree, holds all of its trees before
/// anything else, and holds an object once.
pub proof fn a_pack_holds_an_object_once(
    root_tree: ObjectId,
    base_root: Option<ObjectId>,
    changes: Seq<Change>,
)
    ensures
        ({
            let entries = ordered(root_tree, base_root, changes);
            &&& entries.len() > 0 ==> entries[0].oid == root_tree && entries[0].kind == Kind::Tree
            &&& forall|i: int, j: int|
                0 <= i < j < entries.len() ==> (#[trigger] entries[i]).oid != (
                #[trigger] entries[j]).oid
            &&& forall|i: int, j: int|
                0 <= i < j < entries.len() && (#[trigger] entries[j]).kind == Kind::Tree ==> (
                #[trigger] entries[i]).kind == Kind::Tree
        }),
{
    let entries = ordered(root_tree, base_root, changes);
    if entries.len() > 0 {
        let brought = firsts(root_tree, changes);
        let is_tree = |change: Change| change.kind == Kind::Tree;
        let is_other = |change: Change| change.kind != Kind::Tree;
        let trees = brought.filter(is_tree);
        let others = brought.filter(is_other);
        lemma_firsts(root_tree, changes);
        lemma_filtered(brought, is_tree);
        lemma_filtered(brought, is_other);
        lemma_filtered_apart(brought, is_tree);
        lemma_filtered_apart(brought, is_other);
        assert forall|i: int| 0 <= i < trees.len() implies is_tree(#[trigger] trees[i])
            && brought.contains(trees[i]) by {
            assert(trees.contains(trees[i]));
        }
        assert forall|i: int| 0 <= i < others.len() implies is_other(#[trigger] others[i])
            && brought.contains(others[i]) by {
            assert(others.contains(others[i]));
        }
        assert forall|i: int| 1 <= i < entries.len() implies #[trigger] entries[i] == (if i
            <= trees.len() {
            entry_for(trees[i - 1])
        } else {
            entry_for(others[i - 1 - trees.len()])
        }) by {}
        assert forall|i: int, j: int| 0 <= i < trees.len() && 0 <= j < others.len() implies (
        #[trigger] trees[i]).new != (#[trigger] others[j]).new by {
            let a = choose|k: int| 0 <= k < brought.len() && #[trigger] brought[k] == trees[i];
            let b = choose|k: int| 0 <= k < brought.len() && #[trigger] brought[k] == others[j];
            assert(is_tree(trees[i]));
            assert(is_other(others[j]));
            assert(a != b);
            if a < b {
                assert(brought[a].new != brought[b].new);
            } else {
                assert(brought[b].new != brought[a].new);
            }
        }
        assert forall|i: int, j: int| 0 <= i < j < entries.len() implies (
        #[trigger] entries[i]).oid != (#[trigger] entries[j]).oid by {
            if i == 0 {
                if j <= trees.len() {
                    let k = choose|k: int|
                        0 <= k < brought.len() && #[trigger] brought[k] == trees[j - 1];
                    assert(brought[k].new != root_tree);
                } else {
                    let at = j - 1 - trees.len();
                    let k = choose|k: int|
                        0 <= k < brought.len() && #[trigger] brought[k] == others[at];
                    assert(brought[k].new != root_tree);
                }
            } else if j <= trees.len() {
                assert(trees[i - 1].new != trees[j - 1].new);
            } else if i <= trees.len() {
                assert(trees[i - 1].new != others[j - 1 - trees.len()].new);
            } else {
                assert(others[i - 1 - trees.len()].new != others[j - 1 - trees.len()].new);
            }
        }
        assert forall|i: int, j: int|
            0 <= i < j < entries.len() && (#[trigger] entries[j]).kind == Kind::Tree implies (
        #[trigger] entries[i]).kind == Kind::Tree by {
            if j > trees.len() {
                assert(is_other(others[j - 1 - trees.len()]));
            }
            if i > 0 {
                assert(is_tree(trees[i - 1]));
            }
        }
    }
}

} // verus!
