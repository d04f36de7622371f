//! Putting a pack's entries after what they delta against.

use vstd::prelude::*;

use crate::ingest::lists::lemma_push_contains;
use crate::ingest::plan::DeltaEntry;
use crate::object::{Kind, ObjectId};
use crate::ordmap::OrdMap;

verus! {

/// Where an object's entry stands in a section; the last one counts.
pub open spec fn entry_at(section: Seq<DeltaEntry>, oid: ObjectId) -> Option<int>
    decreases section.len(),
{
    if section.len() == 0 {
        None
    } else if section.last().oid == oid {
        Some(section.len() - 1)
    } else {
        entry_at(section.drop_last(), oid)
    }
}

/// The entry of the section that entry `k` deltas against.
pub open spec fn base_at(section: Seq<DeltaEntry>, k: int) -> Option<int> {
    match section[k].base {
        Some(base) => entry_at(section, base),
        None => None,
    }
}

/// The chain of bases from `start` on, as far as it is fresh.
pub open spec fn fresh_chain(section: Seq<DeltaEntry>, start: int, fresh: Set<int>) -> Seq<int>
    decreases fresh.len(),
    when fresh.finite()
{
    if !fresh.contains(start) {
        Seq::empty()
    } else {
        seq![start] + (match base_at(section, start) {
            Some(base) => fresh_chain(section, base, fresh.remove(start)),
            None => Seq::empty(),
        })
    }
}

/// The places of a section that are not in a list.
pub open spec fn places_left(section: Seq<DeltaEntry>, listed: Seq<int>) -> Set<int> {
    Set::new(|k: int| 0 <= k < section.len() && !listed.contains(k))
}

/// The first `n` entries of a section, each behind the chain of its bases.
pub open spec fn bases_first(section: Seq<DeltaEntry>, n: int) -> Seq<int>
    decreases n,
{
    if n <= 0 {
        Seq::empty()
    } else {
        let listed = bases_first(section, n - 1);
        listed + fresh_chain(section, n - 1, places_left(section, listed)).reverse()
    }
}

/// The entries at a list of places.
pub open spec fn entries_at(section: Seq<DeltaEntry>, places: Seq<int>) -> Seq<DeltaEntry> {
    places.map_values(|k: int| section[k])
}

proof fn lemma_entry_at(section: Seq<DeltaEntry>, oid: ObjectId)
    ensures
        entry_at(section, oid) matches Some(k) ==> 0 <= k < section.len() && section[k].oid == oid,
        entry_at(section, oid) is None ==> forall|k: int|
            0 <= k < section.len() ==> (#[trigger] section[k]).oid != oid,
    decreases section.len(),
{
    if section.len() > 0 {
        let shorter = section.drop_last();
        lemma_entry_at(shorter, oid);
        if entry_at(section, oid) is None {
            assert forall|k: int| 0 <= k < section.len() implies (#[trigger] section[k]).oid
                != oid by {
                if k < shorter.len() {
                    assert(shorter[k] == section[k]);
                }
            }
        }
    }
}

proof fn lemma_places_left(section: Seq<DeltaEntry>, listed: Seq<int>)
    ensures
        places_left(section, listed).finite(),
{
    let all = vstd::set_lib::set_int_range(0, section.len() as int);
    vstd::set_lib::lemma_int_range(0, section.len() as int);
    assert(places_left(section, listed).subset_of(all));
    vstd::set_lib::lemma_len_subset(places_left(section, listed), all);
}

/// A fresh chain goes from base to base through fresh places, through none
/// twice, and stops where there is no base or the base is not fresh.
proof fn lemma_fresh_chain(section: Seq<DeltaEntry>, start: int, fresh: Set<int>)
    requires
        fresh.finite(),
        forall|k: int| #[trigger] fresh.contains(k) ==> 0 <= k < section.len(),
    ensures
        ({
            let chain = fresh_chain(section, start, fresh);
            &&& chain.no_duplicates()
            &&& forall|i: int| 0 <= i < chain.len() ==> fresh.contains(#[trigger] chain[i])
            &&& fresh.contains(start) <==> chain.len() > 0
            &&& chain.len() > 0 ==> chain[0] == start
            &&& forall|i: int|
                0 <= i < chain.len() - 1 ==> base_at(section, #[trigger] chain[i]) == Some(
                    chain[i + 1],
                )
            &&& chain.len() > 0 ==> (base_at(section, chain.last()) matches Some(base)
                ==> !fresh.contains(base) || chain.contains(base))
        }),
    decreases fresh.len(),
{
    if fresh.contains(start) {
        let chain = fresh_chain(section, start, fresh);
        match base_at(section, start) {
            Some(base) => {
                let rest = fresh.remove(start);
                lemma_fresh_chain(section, base, rest);
                let tail = fresh_chain(section, base, rest);
                assert(chain =~= seq![start] + tail);
                assert forall|i: int| 0 <= i < chain.len() implies fresh.contains(
                    #[trigger] chain[i],
                ) by {
                    if i > 0 {
                        assert(rest.contains(tail[i - 1]));
                    }
                }
                assert(chain.no_duplicates()) by {
                    assert forall|i: int, j: int|
                        0 <= i < chain.len() && 0 <= j < chain.len() && i != j implies chain[i]
                        != chain[j] by {
                        if i > 0 {
                            assert(rest.contains(tail[i - 1]));
                        }
                        if j > 0 {
                            assert(rest.contains(tail[j - 1]));
                        }
                    }
                }
                assert forall|i: int| 0 <= i < chain.len() - 1 implies base_at(
                    section,
                    #[trigger] chain[i],
                ) == Some(chain[i + 1]) by {
                    if i > 0 {
                        assert(base_at(section, tail[i - 1]) == Some(tail[i]));
                    }
                }
                if tail.len() > 0 {
                    assert(chain.last() == tail.last());
                    if let Some(end) = base_at(section, chain.last()) {
                        if fresh.contains(end) {
                            if end == start {
                                assert(chain[0] == end);
                            } else {
                                assert(tail.contains(end));
                                let i = choose|i: int| 0 <= i < tail.len() && tail[i] == end;
                                assert(chain[i + 1] == end);
                            }
                        }
                    }
                } else {
                    if fresh.contains(base) {
                        assert(base == start);
                        assert(chain[0] == base);
                    }
                }
            },
            None => {
                assert(chain =~= seq![start]);
            },
        }
    }
}

/// Whether an index says where each object's entry stands.
spec fn indexes(at: Map<ObjectId, usize>, section: Seq<DeltaEntry>) -> bool {
    &&& forall|oid: ObjectId| #[trigger]
        at.contains_key(oid) ==> entry_at(section, oid) == Some(at[oid] as int)
    &&& forall|oid: ObjectId| !#[trigger] at.contains_key(oid) ==> entry_at(section, oid) is None
}

/// One kind's entries, bases first.
///
/// A chain can be as long as the section, so it is walked and not recursed. A
/// base that the walk is already past is left where it is: that is a loop,
/// which bounding the chains cuts.
pub fn section_order(section: &[DeltaEntry]) -> (ordered: Vec<DeltaEntry>)
    ensures
        ordered@ == entries_at(section@, bases_first(section@, section@.len() as int)),
{
    let mut at: OrdMap<ObjectId, usize> = OrdMap::new();
    let mut visited: Vec<bool> = Vec::new();
    let mut i: usize = 0;
    assert(section@.take(0) =~= Seq::<DeltaEntry>::empty());
    while i < section.len()
        invariant
            i <= section@.len(),
            visited@.len() == i,
            forall|k: int| 0 <= k < i ==> !#[trigger] visited@[k],
            indexes(at@, section@.take(i as int)),
        decreases section@.len() - i,
    {
        let ghost before = at@;
        assert(section@.take(i as int + 1).drop_last() =~= section@.take(i as int));
        let _ = at.insert(section[i].oid, i);
        visited.push(false);
        i += 1;
        proof {
            let shorter = section@.take(i as int - 1);
            assert forall|oid: ObjectId| #[trigger] at@.contains_key(oid) implies entry_at(
                section@.take(i as int),
                oid,
            ) == Some(at@[oid] as int) by {
                if oid != section@[i as int - 1].oid {
                    assert(before.contains_key(oid));
                }
            }
            assert forall|oid: ObjectId| !#[trigger] at@.contains_key(oid) implies entry_at(
                section@.take(i as int),
                oid,
            ) is None by {
                assert(!before.contains_key(oid));
            }
        }
    }
    assert(section@.take(i as int) =~= section@);
    let mut ordered: Vec<DeltaEntry> = Vec::new();
    let ghost mut listed: Seq<int> = Seq::empty();
    let mut start: usize = 0;
    assert(ordered@ =~= entries_at(section@, listed));
    while start < section.len()
        invariant
            start <= section@.len(),
            visited@.len() == section@.len(),
            listed == bases_first(section@, start as int),
            ordered@ == entries_at(section@, listed),
            forall|k: int|
                0 <= k < section@.len() ==> (#[trigger] visited@[k] <==> listed.contains(k)),
            indexes(at@, section@),
        decreases section@.len() - start,
    {
        let ghost fresh = places_left(section@, listed);
        let ghost chain = fresh_chain(section@, start as int, fresh);
        let ghost visited0 = visited@;
        proof {
            lemma_places_left(section@, listed);
            lemma_fresh_chain(section@, start as int, fresh);
        }
        let mut walk: Vec<usize> = Vec::new();
        let mut top: Option<usize> = Some(start);
        // The chain so far, and what of it is still to come.
        let ghost mut left = fresh;
        while top.is_some()
            invariant
                fresh == places_left(section@, listed),
                fresh.finite(),
                left.finite(),
                left.subset_of(fresh),
                visited@.len() == section@.len(),
                forall|k: int|
                    0 <= k < section@.len() ==> (#[trigger] visited@[k] <==> !left.contains(k)),
                forall|k: int| #[trigger] left.contains(k) ==> 0 <= k < section@.len(),
                top matches Some(k) ==> k < section@.len(),
                chain == walk@.map_values(|k: usize| k as int) + (match top {
                    Some(k) => fresh_chain(section@, k as int, left),
                    None => Seq::empty(),
                }),
                forall|k: int| 0 <= k < walk@.len() ==> (#[trigger] walk@[k]) < section@.len(),
                indexes(at@, section@),
                forall|k: int|
                    0 <= k < section@.len() ==> (#[trigger] left.contains(k) <==> fresh.contains(k)
                        && !walk@.contains(k as usize)),
                section@.len() <= usize::MAX,
            decreases left.len(), top.is_some() as int,
        {
            let k: usize = top.unwrap();
            let ghost walk0 = walk@;
            let ghost left0 = left;
            if visited[k] {
                top = None;
                assert(chain =~= walk@.map_values(|k: usize| k as int));
            } else {
                assert(left.contains(k as int));
                visited.set(k, true);
                walk.push(k);
                let next: Option<usize> = match section[k].base {
                    Some(base) => match at.get(&base) {
                        Some(place) => Some(*place),
                        None => None,
                    },
                    None => None,
                };
                proof {
                    if let Some(base) = section@[k as int].base {
                        lemma_entry_at(section@, base);
                        assert(at@.contains_key(base) == (entry_at(section@, base) is Some));
                    }
                    assert(next.is_some() == base_at(section@, k as int).is_some());
                    left = left.remove(k as int);
                    assert(walk@.map_values(|k: usize| k as int) =~= walk0.map_values(
                        |k: usize| k as int,
                    ).push(k as int));
                    assert forall|p: int| 0 <= p < section@.len() implies (
                    #[trigger] left.contains(p) <==> fresh.contains(p) && !walk@.contains(
                        p as usize,
                    )) by {
                        assert(left0.contains(p) <==> fresh.contains(p) && !walk0.contains(
                            p as usize,
                        ));
                        lemma_push_contains(walk0, k, p as usize);
                    }
                }
                top = next;
                assert(chain =~= walk@.map_values(|k: usize| k as int) + (match top {
                    Some(k) => fresh_chain(section@, k as int, left),
                    None => Seq::empty(),
                }));
            }
        }
        assert(chain =~= walk@.map_values(|k: usize| k as int));
        let ghost ordered0 = ordered@;
        let mut n: usize = walk.len();
        while n > 0
            invariant
                n <= walk@.len(),
                chain == walk@.map_values(|k: usize| k as int),
                forall|k: int| 0 <= k < walk@.len() ==> (#[trigger] walk@[k]) < section@.len(),
                ordered@ == ordered0 + entries_at(section@, chain.skip(n as int).reverse()),
            decreases n,
        {
            n -= 1;
            ordered.push(section[walk[n]]);
            proof {
                let shorter = chain.skip(n as int + 1).reverse();
                let longer = chain.skip(n as int).reverse();
                assert(longer =~= shorter.push(chain[n as int]));
                assert(ordered@ =~= ordered0 + entries_at(section@, longer));
            }
        }
        proof {
            let before = listed;
            listed = before + chain.reverse();
            assert(chain.skip(0) =~= chain);
            assert(ordered@ =~= entries_at(section@, listed));
            assert forall|k: int| 0 <= k < section@.len() implies (#[trigger] visited@[k]
                <==> listed.contains(k)) by {
                lemma_listed(before, chain, k);
                lemma_walked(walk@, k);
                assert(visited@[k] <==> !left.contains(k));
            }
        }
        start += 1;
    }
    ordered
}

proof fn lemma_walked(walk: Seq<usize>, k: int)
    requires
        0 <= k <= usize::MAX,
    ensures
        walk.contains(k as usize) <==> walk.map_values(|k: usize| k as int).contains(k),
{
    let shown = walk.map_values(|k: usize| k as int);
    if walk.contains(k as usize) {
        let i = choose|i: int| 0 <= i < walk.len() && walk[i] == k as usize;
        assert(shown[i] == k);
    }
    if shown.contains(k) {
        let i = choose|i: int| 0 <= i < shown.len() && shown[i] == k;
        assert(walk[i] == k as usize);
    }
}

proof fn lemma_listed(before: Seq<int>, chain: Seq<int>, k: int)
    ensures
        (before + chain.reverse()).contains(k) <==> before.contains(k) || chain.contains(k),
{
    let all = before + chain.reverse();
    if before.contains(k) {
        let i = choose|i: int| 0 <= i < before.len() && before[i] == k;
        assert(all[i] == k);
    }
    if chain.contains(k) {
        let i = choose|i: int| 0 <= i < chain.len() && chain[i] == k;
        assert(all[before.len() + chain.len() - 1 - i] == k);
    }
    if all.contains(k) && !before.contains(k) {
        let i = choose|i: int| 0 <= i < all.len() && all[i] == k;
        assert(before.len() <= i);
        assert(chain[chain.len() - 1 - (i - before.len())] == k);
    }
}

/// Where `n` steps from base to base lead.
pub open spec fn follow(section: Seq<DeltaEntry>, k: int, n: nat) -> Option<int>
    decreases n,
{
    if n == 0 {
        Some(k)
    } else {
        match follow(section, k, (n - 1) as nat) {
            Some(at) => base_at(section, at),
            None => None,
        }
    }
}

/// Whether going from base to base leads back to where it started.
pub open spec fn is_on_loop(section: Seq<DeltaEntry>, k: int) -> bool {
    exists|n: nat| n > 0 && #[trigger] follow(section, k, n) == Some(k)
}

/// Whether the base of the entry at position `p` of a list stands before it.
pub open spec fn base_stands_before(section: Seq<DeltaEntry>, listed: Seq<int>, p: int) -> bool {
    match base_at(section, listed[p]) {
        Some(base) => exists|q: int| 0 <= q < p && #[trigger] listed[q] == base,
        None => true,
    }
}

proof fn lemma_follow_chain(section: Seq<DeltaEntry>, chain: Seq<int>, j: int, n: nat)
    requires
        chain.len() > 0,
        0 <= j,
        j + n <= chain.len(),
        n > 0,
        base_at(section, chain.last()) == Some(chain[j]),
        forall|i: int|
            0 <= i < chain.len() - 1 ==> base_at(section, #[trigger] chain[i]) == Some(
                chain[i + 1],
            ),
    ensures
        follow(section, chain.last(), n) == Some(chain[j + n - 1]),
    decreases n,
{
    reveal_with_fuel(follow, 2);
    if n > 1 {
        lemma_follow_chain(section, chain, j, (n - 1) as nat);
        assert(base_at(section, chain[j + n - 2]) == Some(chain[j + n - 1]));
    }
}

proof fn lemma_bases_first(section: Seq<DeltaEntry>, n: int)
    requires
        0 <= n <= section.len(),
    ensures
        ({
            let listed = bases_first(section, n);
            &&& listed.no_duplicates()
            &&& forall|p: int| 0 <= p < listed.len() ==> 0 <= #[trigger] listed[p] < section.len()
            &&& forall|k: int| 0 <= k < n ==> #[trigger] listed.contains(k)
            &&& forall|p: int|
                0 <= p < listed.len() ==> #[trigger] base_stands_before(section, listed, p)
                    || is_on_loop(section, listed[p])
        }),
    decreases n,
{
    if n > 0 {
        lemma_bases_first(section, n - 1);
        let before = bases_first(section, n - 1);
        let fresh = places_left(section, before);
        lemma_places_left(section, before);
        lemma_fresh_chain(section, n - 1, fresh);
        let chain = fresh_chain(section, n - 1, fresh);
        let back = chain.reverse();
        let listed = bases_first(section, n);
        let b = before.len() as int;
        let c = chain.len() as int;
        assert forall|p: int| 0 <= p < listed.len() implies 0 <= #[trigger] listed[p]
            < section.len() by {
            if p >= b {
                assert(fresh.contains(chain[c - 1 - (p - b)]));
            }
        }
        assert(listed.no_duplicates()) by {
            assert forall|i: int, j: int|
                0 <= i < listed.len() && 0 <= j < listed.len() && i != j implies listed[i]
                != listed[j] by {
                if i < b && j >= b {
                    assert(fresh.contains(chain[c - 1 - (j - b)]));
                    assert(before.contains(before[i]));
                } else if i >= b && j < b {
                    assert(fresh.contains(chain[c - 1 - (i - b)]));
                    assert(before.contains(before[j]));
                } else if i >= b {
                    assert(chain[c - 1 - (i - b)] != chain[c - 1 - (j - b)]);
                }
            }
        }
        assert forall|k: int| 0 <= k < n implies #[trigger] listed.contains(k) by {
            lemma_listed(before, chain, k);
            if k < n - 1 {
                assert(before.contains(k));
            } else if !before.contains(k) {
                assert(fresh.contains(k));
                assert(chain[0] == k);
            }
        }
        assert forall|p: int| 0 <= p < listed.len() implies #[trigger] base_stands_before(
            section,
            listed,
            p,
        ) || is_on_loop(section, listed[p]) by {
            if p < b {
                assert(listed[p] == before[p]);
                assert(base_stands_before(section, before, p) || is_on_loop(section, before[p]));
                if base_stands_before(section, before, p) {
                    if let Some(base) = base_at(section, listed[p]) {
                        let q = choose|q: int| 0 <= q < p && #[trigger] before[q] == base;
                        assert(listed[q] == base);
                    }
                }
            } else {
                let i = c - 1 - (p - b);
                assert(listed[p] == chain[i]);
                if i < c - 1 {
                    assert(base_at(section, chain[i]) == Some(chain[i + 1]));
                    assert(listed[p - 1] == chain[i + 1]);
                } else if let Some(end) = base_at(section, chain[i]) {
                    lemma_entry_at(section, section[chain[i]].base->0);
                    if fresh.contains(end) {
                        let j = choose|j: int| 0 <= j < c && chain[j] == end;
                        lemma_follow_chain(section, chain, j, (c - j) as nat);
                        assert(follow(section, chain[i], (c - j) as nat) == Some(chain[i]));
                    } else {
                        assert(before.contains(end));
                        let q = choose|q: int| 0 <= q < before.len() && before[q] == end;
                        assert(listed[q] == end);
                    }
                }
            }
        }
    }
}

/// Ordering a section keeps every entry, once.
pub proof fn ordering_keeps_every_entry(section: Seq<DeltaEntry>)
    ensures
        ({
            let listed = bases_first(section, section.len() as int);
            &&& listed.no_duplicates()
            &&& forall|k: int| 0 <= k < section.len() <==> #[trigger] listed.contains(k)
        }),
{
    lemma_bases_first(section, section.len() as int);
    let listed = bases_first(section, section.len() as int);
    assert forall|k: int| #[trigger] listed.contains(k) implies 0 <= k < section.len() by {
        let p = choose|p: int| 0 <= p < listed.len() && listed[p] == k;
        assert(0 <= listed[p] < section.len());
    }
}

/// In an ordered section every entry stands behind its base, unless going from
/// base to base leads back to the entry.
pub proof fn bases_stand_before(section: Seq<DeltaEntry>, p: int)
    requires
        0 <= p < bases_first(section, section.len() as int).len(),
    ensures
        ({
            let listed = bases_first(section, section.len() as int);
            base_stands_before(section, listed, p) || is_on_loop(section, listed[p])
        }),
{
    lemma_bases_first(section, section.len() as int);
    let listed = bases_first(section, section.len() as int);
    assert(base_stands_before(section, listed, p) || is_on_loop(section, listed[p]));
}

/// A pack's entries, trees before the rest and each kind with its bases first.
pub open spec fn dependency_ordered(entries: Seq<DeltaEntry>) -> Seq<DeltaEntry> {
    let trees = entries.filter(|entry: DeltaEntry| entry.kind == Kind::Tree);
    let others = entries.filter(|entry: DeltaEntry| entry.kind != Kind::Tree);
    entries_at(trees, bases_first(trees, trees.len() as int)) + entries_at(
        others,
        bases_first(others, others.len() as int),
    )
}

/// Put every entry behind the one it deltas against, where both are in the
/// pack. Bounding the chains needs a chain in order; reading does not.
pub fn dependency_order(entries: &[DeltaEntry]) -> (ordered: Vec<DeltaEntry>)
    ensures
        ordered@ == dependency_ordered(entries@),
{
    let ghost is_tree = |entry: DeltaEntry| entry.kind == Kind::Tree;
    let ghost is_other = |entry: DeltaEntry| entry.kind != Kind::Tree;
    let mut trees: Vec<DeltaEntry> = Vec::new();
    let mut others: Vec<DeltaEntry> = Vec::new();
    let mut i: usize = 0;
    proof {
        reveal(Seq::filter);
        assert(entries@.take(0) =~= Seq::<DeltaEntry>::empty());
    }
    while i < entries.len()
        invariant
            i <= entries@.len(),
            is_tree == (|entry: DeltaEntry| entry.kind == Kind::Tree),
            is_other == (|entry: DeltaEntry| entry.kind != Kind::Tree),
            trees@ == entries@.take(i as int).filter(is_tree),
            others@ == entries@.take(i as int).filter(is_other),
        decreases entries@.len() - i,
    {
        proof {
            reveal(Seq::filter);
            assert(entries@.take(i as int + 1).drop_last() =~= entries@.take(i as int));
        }
        if entries[i].kind == Kind::Tree {
            trees.push(entries[i]);
        } else {
            others.push(entries[i]);
        }
        i += 1;
    }
    assert(entries@.take(i as int) =~= entries@);
    let mut ordered = section_order(trees.as_slice());
    let rest = section_order(others.as_slice());
    let ghost first = ordered@;
    let mut k: usize = 0;
    while k < rest.len()
        invariant
            k <= rest@.len(),
            ordered@ == first + rest@.take(k as int),
        decreases rest@.len() - k,
    {
        ordered.push(rest[k]);
        k += 1;
        assert(ordered@ =~= first + rest@.take(k as int));
    }
    assert(ordered@ =~= first + rest@);
    ordered
}

} // verus!
