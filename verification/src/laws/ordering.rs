//! In which order the entries of a pack are written.

use vstd::prelude::*;

use crate::ingest::lists::lemma_filtered;
use crate::ingest::order::{
    base_at, base_stands_before, bases_first, bases_stand_before, dependency_ordered, entries_at,
    entry_at, follow, is_on_loop, ordering_keeps_every_entry,
};
use crate::ingest::plan::DeltaEntry;
use crate::object::{Kind, ObjectId};

verus! {

/// Whether the base of an entry is of lower rank than the entry, wherever it is
/// among them: then no chain of bases comes back to where it began.
pub open spec fn is_ranked(section: Seq<DeltaEntry>, rank: Map<ObjectId, nat>) -> bool {
    forall|i: int|
        0 <= i < section.len() && (#[trigger] section[i]).base is Some
            ==> rank[section[i].base->0] < rank[section[i].oid]
}

/// Whether an object is among the entries.
pub open spec fn is_among(entries: Seq<DeltaEntry>, oid: ObjectId) -> bool {
    exists|k: int| 0 <= k < entries.len() && (#[trigger] entries[k]).oid == oid
}

proof fn lemma_entry_at(section: Seq<DeltaEntry>, oid: ObjectId)
    ensures
        entry_at(section, oid) matches Some(k) ==> 0 <= k < section.len() && section[k].oid == oid,
        entry_at(section, oid) is None ==> !is_among(section, oid),
    decreases section.len(),
{
    if section.len() > 0 && section.last().oid != oid {
        let rest = section.drop_last();
        lemma_entry_at(rest, oid);
        if is_among(section, oid) {
            let k = choose|k: int| 0 <= k < section.len() && (#[trigger] section[k]).oid == oid;
            assert(rest[k].oid == oid);
        }
    }
}

proof fn lemma_ranks_fall(section: Seq<DeltaEntry>, rank: Map<ObjectId, nat>, k: int, n: nat)
    requires
        is_ranked(section, rank),
        0 <= k < section.len(),
    ensures
        follow(section, k, n) matches Some(at) ==> 0 <= at < section.len() && (n > 0
            ==> rank[section[at].oid] < rank[section[k].oid]),
    decreases n,
{
    if n > 0 {
        lemma_ranks_fall(section, rank, k, (n - 1) as nat);
        if let Some(at) = follow(section, k, (n - 1) as nat) {
            if let Some(base) = section[at].base {
                lemma_entry_at(section, base);
                assert(rank[base] < rank[section[at].oid]);
            }
        }
    }
}

/// Whether one of the first `p` places listed is of an object.
spec fn stands_earlier(section: Seq<DeltaEntry>, listed: Seq<int>, p: int, oid: ObjectId) -> bool {
    exists|q: int| 0 <= q < p && section[#[trigger] listed[q]].oid == oid
}

proof fn lemma_base_earlier(
    section: Seq<DeltaEntry>,
    rank: Map<ObjectId, nat>,
    listed: Seq<int>,
    p: int,
)
    requires
        is_ranked(section, rank),
        0 <= p < listed.len(),
        0 <= listed[p] < section.len(),
        base_stands_before(section, listed, p) || is_on_loop(section, listed[p]),
        section[listed[p]].base is Some,
        is_among(section, section[listed[p]].base->0),
    ensures
        stands_earlier(section, listed, p, section[listed[p]].base->0),
{
    let own = listed[p];
    let base = section[own].base->0;
    lemma_entry_at(section, base);
    if is_on_loop(section, own) {
        let n = choose|n: nat| n > 0 && #[trigger] follow(section, own, n) == Some(own);
        lemma_ranks_fall(section, rank, own, n);
    }
    let at = entry_at(section, base)->0;
    assert(base_at(section, own) == Some(at));
    let q = choose|q: int| 0 <= q < p && #[trigger] listed[q] == at;
    assert(section[listed[q]].oid == base);
}

proof fn lemma_same_entries(section: Seq<DeltaEntry>, listed: Seq<int>, entry: DeltaEntry)
    requires
        forall|k: int| 0 <= k < section.len() <==> #[trigger] listed.contains(k),
    ensures
        entries_at(section, listed).contains(entry) <==> section.contains(entry),
{
    let entries = entries_at(section, listed);
    if entries.contains(entry) {
        let p = choose|p: int| 0 <= p < entries.len() && entries[p] == entry;
        assert(listed.contains(listed[p]));
        assert(section[listed[p]] == entry);
    }
    if section.contains(entry) {
        let k = choose|k: int| 0 <= k < section.len() && section[k] == entry;
        assert(listed.contains(k));
        let p = choose|p: int| 0 <= p < listed.len() && listed[p] == k;
        assert(entries[p] == entry);
    }
}

/// Whether an entry is of a tree.
spec fn tree_part() -> spec_fn(DeltaEntry) -> bool {
    |entry: DeltaEntry| entry.kind == Kind::Tree
}

/// Whether an entry is of no tree.
spec fn other_part() -> spec_fn(DeltaEntry) -> bool {
    |entry: DeltaEntry| entry.kind != Kind::Tree
}

/// One part of a pack in the order that it is written in.
spec fn written_part(section: Seq<DeltaEntry>) -> Seq<DeltaEntry> {
    entries_at(section, bases_first(section, section.len() as int))
}

/// A pack's entries are written without losing one and without adding one.
pub proof fn a_pack_is_written_whole(entries: Seq<DeltaEntry>, entry: DeltaEntry)
    ensures
        dependency_ordered(entries).contains(entry) <==> entries.contains(entry),
{
    let trees = entries.filter(tree_part());
    let others = entries.filter(other_part());
    let first = written_part(trees);
    let second = written_part(others);
    let ordered = dependency_ordered(entries);
    assert(ordered == first + second);
    lemma_filtered(entries, tree_part());
    lemma_filtered(entries, other_part());
    ordering_keeps_every_entry(trees);
    ordering_keeps_every_entry(others);
    lemma_same_entries(trees, bases_first(trees, trees.len() as int), entry);
    lemma_same_entries(others, bases_first(others, others.len() as int), entry);
    if ordered.contains(entry) {
        let p = choose|p: int| 0 <= p < ordered.len() && ordered[p] == entry;
        if p < first.len() {
            assert(first[p] == entry);
        } else {
            assert(second[p - first.len()] == entry);
        }
    }
    if first.contains(entry) {
        let p = choose|p: int| 0 <= p < first.len() && first[p] == entry;
        assert(ordered[p] == entry);
    }
    if second.contains(entry) {
        let p = choose|p: int| 0 <= p < second.len() && second[p] == entry;
        assert(ordered[first.len() + p] == entry);
    }
}

/// What stands in the part of the trees is a tree, and what stands after is none.
proof fn lemma_parts(entries: Seq<DeltaEntry>, p: int)
    requires
        0 <= p < dependency_ordered(entries).len(),
    ensures
        ({
            let first = written_part(entries.filter(tree_part()));
            let second = written_part(entries.filter(other_part()));
            let ordered = dependency_ordered(entries);
            &&& ordered == first + second
            &&& ordered[p].kind is Tree <==> p < first.len()
        }),
{
    let trees = entries.filter(tree_part());
    let others = entries.filter(other_part());
    let first = written_part(trees);
    let second = written_part(others);
    lemma_filtered(entries, tree_part());
    lemma_filtered(entries, other_part());
    ordering_keeps_every_entry(trees);
    ordering_keeps_every_entry(others);
    if p < first.len() {
        assert(first.contains(first[p]));
        lemma_same_entries(trees, bases_first(trees, trees.len() as int), first[p]);
        assert(tree_part()(first[p]));
    } else {
        let entry = second[p - first.len()];
        assert(second.contains(entry));
        lemma_same_entries(others, bases_first(others, others.len() as int), entry);
        assert(other_part()(entry));
    }
}

/// Every tree of a pack is written before anything that is no tree.
pub proof fn trees_are_written_first(entries: Seq<DeltaEntry>, p: int, q: int)
    requires
        0 <= p < q < dependency_ordered(entries).len(),
        dependency_ordered(entries)[q].kind is Tree,
    ensures
        dependency_ordered(entries)[p].kind is Tree,
{
    lemma_parts(entries, p);
    lemma_parts(entries, q);
}

proof fn lemma_part_order(
    section: Seq<DeltaEntry>,
    whole: Seq<DeltaEntry>,
    rank: Map<ObjectId, nat>,
    p: int,
)
    requires
        is_ranked(whole, rank),
        forall|entry: DeltaEntry| #[trigger] section.contains(entry) ==> whole.contains(entry),
        0 <= p < written_part(section).len(),
        written_part(section)[p].base is Some,
        is_among(section, written_part(section)[p].base->0),
    ensures
        exists|q: int|
            0 <= q < p && (#[trigger] written_part(section)[q]).oid == written_part(
                section,
            )[p].base->0,
{
    let listed = bases_first(section, section.len() as int);
    let part = written_part(section);
    let base = part[p].base->0;
    assert forall|i: int| 0 <= i < section.len() && (#[trigger] section[i]).base is Some implies
        rank[section[i].base->0] < rank[section[i].oid] by {
        assert(section.contains(section[i]));
        let k = choose|k: int| 0 <= k < whole.len() && whole[k] == section[i];
        assert(whole[k].base is Some);
    }
    ordering_keeps_every_entry(section);
    assert(listed.contains(listed[p]));
    assert(part[p] == section[listed[p]]);
    bases_stand_before(section, p);
    lemma_base_earlier(section, rank, listed, p);
    let q = choose|q: int| 0 <= q < p && section[#[trigger] listed[q]].oid == base;
    assert(part[q] == section[listed[q]]);
}

/// A base is written before what deltas against it, where both are trees of the
/// pack or neither is one, and no chain of bases comes back to where it began.
pub proof fn a_base_is_written_before_its_delta(
    entries: Seq<DeltaEntry>,
    rank: Map<ObjectId, nat>,
    p: int,
    k: int,
)
    requires
        is_ranked(entries, rank),
        0 <= p < dependency_ordered(entries).len(),
        0 <= k < entries.len(),
        dependency_ordered(entries)[p].base == Some(entries[k].oid),
        dependency_ordered(entries)[p].kind is Tree <==> entries[k].kind is Tree,
    ensures
        exists|q: int|
            0 <= q < p && (#[trigger] dependency_ordered(entries)[q]).oid == entries[k].oid,
{
    let trees = entries.filter(tree_part());
    let others = entries.filter(other_part());
    let first = written_part(trees);
    let second = written_part(others);
    let ordered = dependency_ordered(entries);
    let oid = entries[k].oid;
    lemma_parts(entries, p);
    lemma_filtered(entries, tree_part());
    lemma_filtered(entries, other_part());
    assert(entries.contains(entries[k]));
    if p < first.len() {
        assert(tree_part()(entries[k]));
        assert(trees.contains(entries[k]));
        let at = choose|at: int| 0 <= at < trees.len() && trees[at] == entries[k];
        assert(trees[at].oid == oid);
        assert(ordered[p] == first[p]);
        lemma_part_order(trees, entries, rank, p);
        let q = choose|q: int| 0 <= q < p && (#[trigger] written_part(trees)[q]).oid == oid;
        assert(ordered[q] == first[q]);
    } else {
        assert(other_part()(entries[k]));
        assert(others.contains(entries[k]));
        let at = choose|at: int| 0 <= at < others.len() && others[at] == entries[k];
        assert(others[at].oid == oid);
        assert(ordered[p] == second[p - first.len()]);
        lemma_part_order(others, entries, rank, p - first.len());
        let q = choose|q: int|
            0 <= q < p - first.len() && (#[trigger] written_part(others)[q]).oid == oid;
        assert(ordered[first.len() + q] == second[q]);
    }
}

} // verus!
