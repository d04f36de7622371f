//! Which of the client's own encodings are stored as they came.
//!
//! Git clients send packs that are mostly deltas, and their search for bases is
//! paid for. A client picks a base for its own pack, though, which need not sit
//! anywhere that a reader here looks: a base has to be in the pack of the
//! entry's own commit or of an ancestor of it. A delta of which that is not
//! proven is encoded here. What the client sent whole stays whole.

use vstd::prelude::*;

use crate::error::Error;
use crate::ingest::graph::runs;
use crate::ingest::lists::{lemma_push_contains, IdList};
use crate::ingest::order::{dependency_order, dependency_ordered};
use crate::ingest::pack::{first_arrival, EntryBase, WirePack, WirePacks};
use crate::ingest::plan::{DeltaEntry, DeltaPlan, EntrySource, WireRef};
use crate::model::ObjectMeta;
use crate::object::ObjectId;
use crate::ordmap::{held, in_order, stands_at, OrdKey, OrdMap, OrdSet, Order};

verus! {

/// Whether `home` is `target` or an ancestor of it.
#[derive(Clone, Copy, Debug, PartialEq, Eq, Structural)]
pub struct Query {
    pub target: ObjectId,
    pub home: ObjectId,
}

impl OrdKey for Query {
    type Name = Query;

    open spec fn name(&self) -> Query {
        *self
    }

    open spec fn before(a: Query, b: Query) -> bool {
        ObjectId::before(a.target, b.target) || a.target == b.target && ObjectId::before(
            a.home,
            b.home,
        )
    }

    proof fn before_is_strict(a: Query, b: Query) {
        ObjectId::before_is_strict(a.target, b.target);
        ObjectId::before_is_strict(a.home, b.home);
    }

    proof fn before_is_transitive(a: Query, b: Query, c: Query) {
        ObjectId::before_is_strict(a.target, b.target);
        ObjectId::before_is_strict(b.target, c.target);
        if ObjectId::before(a.target, b.target) && ObjectId::before(b.target, c.target) {
            ObjectId::before_is_transitive(a.target, b.target, c.target);
        }
        if a.target == b.target && b.target == c.target {
            ObjectId::before_is_transitive(a.home, b.home, c.home);
        }
    }

    fn compare(&self, other: &Query) -> (order: Order) {
        match self.target.compare(&other.target) {
            Order::Before => Order::Before,
            Order::After => Order::After,
            Order::Same => self.home.compare(&other.home),
        }
    }
}

/// What the client encoded an entry against; none if it sent the object whole.
pub open spec fn base_sent(packs: Seq<WirePack>, at: WireRef) -> Result<Option<ObjectId>, Error> {
    let pack = packs[at.pack as int];
    if at.pack >= packs.len() {
        Err(Error::NoSuchPack)
    } else if at.at >= pack.scanned().len() {
        Err(Error::NoSuchEntry)
    } else {
        match pack.scanned()[at.at as int].base {
            EntryBase::Whole(_) => Ok(None),
            EntryBase::InPack(base) => if base < pack.identified().len() {
                Ok(Some(pack.identified()[base as int]))
            } else {
                Err(Error::NoSuchEntry)
            },
            EntryBase::Ref(base) => Ok(Some(base)),
        }
    }
}

/// What the client encoded an entry against; none if it sent the object whole.
pub fn delta_base(wire: &WirePacks, at: WireRef) -> (base: Result<Option<ObjectId>, Error>)
    ensures
        base == base_sent(wire@, at),
{
    match wire.entry(at) {
        Err(error) => Err(error),
        Ok(entry) => match entry.base {
            EntryBase::Whole(_) => Ok(None),
            EntryBase::InPack(base) => match wire.oid(WireRef { pack: at.pack, at: base }) {
                Ok(oid) => Ok(Some(oid)),
                Err(error) => Err(error),
            },
            EntryBase::Ref(base) => Ok(Some(base)),
        },
    }
}

/// The commits whose packs could supply `base`: those that the plan stores it
/// in, and the one that holds it already.
pub open spec fn homes_of(
    base: ObjectId,
    homes: Map<ObjectId, Seq<ObjectId>>,
    older_homes: Map<ObjectId, ObjectId>,
) -> Seq<ObjectId> {
    let stored = if homes.contains_key(base) {
        homes[base]
    } else {
        Seq::empty()
    };
    if older_homes.contains_key(base) {
        stored.push(older_homes[base])
    } else {
        stored
    }
}

/// The commits whose packs could supply `base`.
pub fn home_of(
    base: ObjectId,
    homes: &OrdMap<ObjectId, Vec<ObjectId>>,
    older_homes: &OrdMap<ObjectId, ObjectId>,
) -> (found: Vec<ObjectId>)
    ensures
        found@ == homes_of(base, runs(homes@), older_homes@),
{
    let mut found: Vec<ObjectId> = match homes.get(&base) {
        Some(stored) => crate::ingest::graph::copy_ids(stored.as_slice()),
        None => Vec::new(),
    };
    if let Some(home) = older_homes.get(&base) {
        found.push(*home);
    }
    found
}

/// Whether a reader of `commit`'s pack finds `base`: some home of it is the
/// commit or is proven to be its ancestor.
pub open spec fn is_reachable(
    commit: ObjectId,
    base: ObjectId,
    homes: Map<ObjectId, Seq<ObjectId>>,
    older_homes: Map<ObjectId, ObjectId>,
    proven: Set<Query>,
) -> bool {
    exists|i: int|
        0 <= i < homes_of(base, homes, older_homes).len() && {
            let home = #[trigger] homes_of(base, homes, older_homes)[i];
            home == commit || proven.contains(Query { target: commit, home })
        }
}

/// An entry as the plan keeps it: the client's bytes where it sent the object
/// whole, or as a delta on a base that readers find.
pub open spec fn kept_as(
    entry: DeltaEntry,
    commit: ObjectId,
    packs: Seq<WirePack>,
    homes: Map<ObjectId, Seq<ObjectId>>,
    older_homes: Map<ObjectId, ObjectId>,
    proven: Set<Query>,
) -> Result<DeltaEntry, Error> {
    match first_arrival(packs, entry.oid) {
        None => Ok(entry),
        Some(at) => match base_sent(packs, at) {
            Err(error) => Err(error),
            Ok(None) => Ok(DeltaEntry { base: None, source: EntrySource::Wire(at), ..entry }),
            Ok(Some(base)) => if is_reachable(commit, base, homes, older_homes, proven) {
                Ok(DeltaEntry { base: Some(base), source: EntrySource::Wire(at), ..entry })
            } else {
                Ok(entry)
            },
        },
    }
}

fn reachable(
    commit: ObjectId,
    base: ObjectId,
    homes: &OrdMap<ObjectId, Vec<ObjectId>>,
    older_homes: &OrdMap<ObjectId, ObjectId>,
    proven: &OrdSet<Query>,
) -> (found: bool)
    ensures
        found == is_reachable(commit, base, runs(homes@), older_homes@, proven@),
{
    let all = home_of(base, homes, older_homes);
    let ghost view = homes_of(base, runs(homes@), older_homes@);
    let mut i: usize = 0;
    while i < all.len()
        invariant
            i <= all@.len(),
            all@ == view,
            view == homes_of(base, runs(homes@), older_homes@),
            forall|k: int|
                0 <= k < i ==> {
                    let home = #[trigger] view[k];
                    home != commit && !proven@.contains(Query { target: commit, home })
                },
        decreases all@.len() - i,
    {
        let home = all[i];
        if home == commit || proven.contains(&Query { target: commit, home }) {
            assert(view[i as int] == home);
            return true;
        }
        i += 1;
    }
    false
}

/// One pack's entries as the plan keeps them, in dependency order.
fn classify_pack(
    commit: ObjectId,
    planned: &[DeltaEntry],
    wire: &WirePacks,
    homes: &OrdMap<ObjectId, Vec<ObjectId>>,
    older_homes: &OrdMap<ObjectId, ObjectId>,
    proven: &OrdSet<Query>,
) -> (kept: Result<Vec<DeltaEntry>, Error>)
    ensures
        match kept {
            Ok(kept) => exists|each: Seq<DeltaEntry>|
                {
                    &&& #[trigger] each_kept(
                        planned@,
                        each,
                        commit,
                        wire@,
                        runs(homes@),
                        older_homes@,
                        proven@,
                    )
                    &&& kept@ == dependency_ordered(each)
                },
            Err(error) => exists|i: int|
                0 <= i < planned@.len() && kept_as(
                    #[trigger] planned@[i],
                    commit,
                    wire@,
                    runs(homes@),
                    older_homes@,
                    proven@,
                ) == Err::<DeltaEntry, Error>(error),
        },
{
    let mut each: Vec<DeltaEntry> = Vec::new();
    let mut i: usize = 0;
    while i < planned.len()
        invariant
            i <= planned@.len(),
            each@.len() == i,
            forall|k: int|
                0 <= k < i ==> kept_as(
                    planned@[k],
                    commit,
                    wire@,
                    runs(homes@),
                    older_homes@,
                    proven@,
                ) == Ok::<DeltaEntry, Error>(#[trigger] each@[k]),
        decreases planned@.len() - i,
    {
        let mut entry = planned[i];
        if let Some(at) = wire.entry_of(entry.oid) {
            match delta_base(wire, at) {
                Err(error) => {
                    assert(kept_as(
                        planned@[i as int],
                        commit,
                        wire@,
                        runs(homes@),
                        older_homes@,
                        proven@,
                    ) == Err::<DeltaEntry, Error>(error));
                    return Err(error);
                },
                Ok(None) => {
                    entry.base = None;
                    entry.source = EntrySource::Wire(at);
                },
                Ok(Some(base)) => {
                    if reachable(commit, base, homes, older_homes, proven) {
                        entry.base = Some(base);
                        entry.source = EntrySource::Wire(at);
                    }
                },
            }
        }
        each.push(entry);
        i += 1;
    }
    assert(each_kept(planned@, each@, commit, wire@, runs(homes@), older_homes@, proven@));
    Ok(dependency_order(each.as_slice()))
}

/// Whether `each` is every entry as the plan keeps it.
pub open spec fn each_kept(
    planned: Seq<DeltaEntry>,
    each: Seq<DeltaEntry>,
    commit: ObjectId,
    packs: Seq<WirePack>,
    homes: Map<ObjectId, Seq<ObjectId>>,
    older_homes: Map<ObjectId, ObjectId>,
    proven: Set<Query>,
) -> bool {
    &&& each.len() == planned.len()
    &&& forall|k: int|
        0 <= k < planned.len() ==> kept_as(
            planned[k],
            commit,
            packs,
            homes,
            older_homes,
            proven,
        ) == Ok::<DeltaEntry, Error>(#[trigger] each[k])
}

/// Where a commit's own entry comes from: the client's bytes where it sent the
/// commit whole, since a commit is always stored whole.
pub open spec fn commit_source(packs: Seq<WirePack>, commit: ObjectId) -> EntrySource {
    match first_arrival(packs, commit) {
        Some(at) => if base_sent(packs, at) == Ok::<Option<ObjectId>, Error>(None) {
            EntrySource::Wire(at)
        } else {
            EntrySource::Encoded
        },
        None => EntrySource::Encoded,
    }
}

/// Rewrite a plan to keep what readers can resolve of the client's encodings.
///
/// `proven` holds the queries that were shown to hold; a plan of which an entry
/// cannot be looked up is left as it is.
pub fn classify(
    plan: &mut DeltaPlan,
    wire: &WirePacks,
    parents_of: &OrdMap<ObjectId, Vec<ObjectId>>,
    homes: &OrdMap<ObjectId, Vec<ObjectId>>,
    older_homes: &OrdMap<ObjectId, ObjectId>,
    proven: &OrdSet<Query>,
) -> (r: Result<(), Error>)
    ensures
        match r {
            Ok(_) => {
                &&& final(plan).packs@.dom() == old(plan).packs@.dom()
                &&& forall|commit: ObjectId| #[trigger]
                    old(plan).packs@.contains_key(commit) ==> exists|each: Seq<DeltaEntry>|
                        {
                            &&& #[trigger] each_kept(
                                old(plan).packs@[commit]@,
                                each,
                                commit,
                                wire@,
                                runs(homes@),
                                older_homes@,
                                proven@,
                            )
                            &&& final(plan).packs@[commit]@ == dependency_ordered(each)
                        }
                &&& final(plan).commits@ == Map::new(
                    |commit: ObjectId| parents_of@.contains_key(commit),
                    |commit: ObjectId| commit_source(wire@, commit),
                )
            },
            Err(error) => {
                &&& *final(plan) == *old(plan)
                &&& exists|commit: ObjectId, i: int|
                    old(plan).packs@.contains_key(commit) && 0 <= i < old(
                        plan,
                    ).packs@[commit]@.len() && kept_as(
                        #[trigger] old(plan).packs@[commit]@[i],
                        commit,
                        wire@,
                        runs(homes@),
                        older_homes@,
                        proven@,
                    ) == Err::<DeltaEntry, Error>(error)
            },
        },
{
    let mut packs: OrdMap<ObjectId, Vec<DeltaEntry>> = OrdMap::new();
    let ghost was = plan.packs@;
    let pairs = plan.packs.as_entries();
    let mut i: usize = 0;
    while i < pairs.len()
        invariant
            i <= pairs@.len(),
            was == old(plan).packs@,
            in_order(pairs@),
            was == held(pairs@),
            forall|k: int|
                0 <= k < pairs@.len() ==> was.contains_key((#[trigger] pairs@[k]).0)
                    && was[pairs@[k].0] == pairs@[k].1,
            forall|commit: ObjectId| #[trigger]
                packs@.contains_key(commit) <==> exists|k: int|
                    0 <= k < i && (#[trigger] pairs@[k]).0 == commit,
            forall|commit: ObjectId| #[trigger]
                packs@.contains_key(commit) ==> exists|each: Seq<DeltaEntry>|
                    {
                        &&& #[trigger] each_kept(
                            was[commit]@,
                            each,
                            commit,
                            wire@,
                            runs(homes@),
                            older_homes@,
                            proven@,
                        )
                        &&& packs@[commit]@ == dependency_ordered(each)
                    },
        decreases pairs@.len() - i,
    {
        let ghost before = packs@;
        let commit = pairs[i].0;
        assert(pairs@[i as int].0 == commit);
        match classify_pack(commit, pairs[i].1.as_slice(), wire, homes, older_homes, proven) {
            Ok(kept) => {
                let _ = packs.insert(commit, kept);
            },
            Err(error) => {
                proof {
                    let k = choose|k: int|
                        0 <= k < was[commit]@.len() && kept_as(
                            #[trigger] was[commit]@[k],
                            commit,
                            wire@,
                            runs(homes@),
                            older_homes@,
                            proven@,
                        ) == Err::<DeltaEntry, Error>(error);
                    assert(kept_as(
                        was[commit]@[k],
                        commit,
                        wire@,
                        runs(homes@),
                        older_homes@,
                        proven@,
                    ) == Err::<DeltaEntry, Error>(error));
                }
                return Err(error);
            },
        }
        proof {
            assert forall|other: ObjectId| #[trigger]
                packs@.contains_key(other) <==> exists|k: int|
                    0 <= k < i + 1 && (#[trigger] pairs@[k]).0 == other by {
                if before.contains_key(other) {
                    let k = choose|k: int| 0 <= k < i && (#[trigger] pairs@[k]).0 == other;
                    assert(pairs@[k].0 == other);
                }
            }
            assert forall|other: ObjectId| #[trigger]
                packs@.contains_key(other) implies exists|each: Seq<DeltaEntry>|
                {
                    &&& #[trigger] each_kept(
                        was[other]@,
                        each,
                        other,
                        wire@,
                        runs(homes@),
                        older_homes@,
                        proven@,
                    )
                    &&& packs@[other]@ == dependency_ordered(each)
                } by {
                if other != commit {
                    assert(before.contains_key(other));
                    assert(packs@[other] == before[other]);
                }
            }
        }
        i += 1;
    }
    let mut commits: OrdMap<ObjectId, EntrySource> = OrdMap::new();
    let named = parents_of.as_entries();
    let mut i: usize = 0;
    while i < named.len()
        invariant
            i <= named@.len(),
            forall|commit: ObjectId| #[trigger]
                commits@.contains_key(commit) <==> exists|k: int|
                    0 <= k < i && (#[trigger] named@[k]).0 == commit,
            forall|commit: ObjectId| #[trigger]
                commits@.contains_key(commit) ==> commits@[commit] == commit_source(wire@, commit),
        decreases named@.len() - i,
    {
        let ghost before = commits@;
        let commit = named[i].0;
        let source = match wire.entry_of(commit) {
            Some(at) => match delta_base(wire, at) {
                Ok(None) => EntrySource::Wire(at),
                _ => EntrySource::Encoded,
            },
            None => EntrySource::Encoded,
        };
        let _ = commits.insert(commit, source);
        proof {
            assert(named@[i as int].0 == commit);
            assert forall|other: ObjectId| #[trigger]
                commits@.contains_key(other) <==> exists|k: int|
                    0 <= k < i + 1 && (#[trigger] named@[k]).0 == other by {
                if before.contains_key(other) {
                    let k = choose|k: int| 0 <= k < i && (#[trigger] named@[k]).0 == other;
                    assert(named@[k].0 == other);
                }
            }
        }
        i += 1;
    }
    proof {
        assert forall|commit: ObjectId| #[trigger] packs@.contains_key(commit) <==> was.contains_key(
            commit,
        ) by {
            if was.contains_key(commit) {
                let k = choose|k: int| stands_at(pairs@, commit, k);
                assert(pairs@[k].0 == commit);
            }
        }
        assert(packs@.dom() =~= was.dom());
        assert forall|commit: ObjectId| #[trigger]
            commits@.contains_key(commit) <==> parents_of@.contains_key(commit) by {
            if parents_of@.contains_key(commit) {
                let k = choose|k: int| stands_at(named@, commit, k);
                assert(named@[k].0 == commit);
            }
        }
        assert(commits@ =~= Map::new(
            |commit: ObjectId| parents_of@.contains_key(commit),
            |commit: ObjectId| commit_source(wire@, commit),
        ));
        assert forall|commit: ObjectId| #[trigger] was.contains_key(commit) implies exists|
            each: Seq<DeltaEntry>,
        |
            {
                &&& #[trigger] each_kept(
                    was[commit]@,
                    each,
                    commit,
                    wire@,
                    runs(homes@),
                    older_homes@,
                    proven@,
                )
                &&& packs@[commit]@ == dependency_ordered(each)
            } by {
            assert(packs@.contains_key(commit));
        }
    }
    plan.packs = packs;
    plan.commits = commits;
    Ok(())
}

/// Whether the plan has `entry` in the pack of `commit`.
pub open spec fn plans(
    packs: Map<ObjectId, Seq<DeltaEntry>>,
    commit: ObjectId,
    entry: DeltaEntry,
) -> bool {
    packs.contains_key(commit) && packs[commit].contains(entry)
}

/// Every entry of the plan with the commit whose pack holds it.
fn planned_entries(packs: &OrdMap<ObjectId, Vec<DeltaEntry>>) -> (all: Vec<(ObjectId, DeltaEntry)>)
    ensures
        forall|commit: ObjectId, entry: DeltaEntry| #[trigger]
            all@.contains((commit, entry)) <==> plans(runs(packs@), commit, entry),
{
    let pairs = packs.as_entries();
    let ghost view = runs(packs@);
    let mut all: Vec<(ObjectId, DeltaEntry)> = Vec::new();
    let mut i: usize = 0;
    while i < pairs.len()
        invariant
            i <= pairs@.len(),
            forall|commit: ObjectId, entry: DeltaEntry| #[trigger]
                all@.contains((commit, entry)) <==> exists|j: int|
                    0 <= j < i && (#[trigger] pairs@[j]).0 == commit && pairs@[j].1@.contains(
                        entry,
                    ),
        decreases pairs@.len() - i,
    {
        let ghost before = all@;
        let commit = pairs[i].0;
        let entries = &pairs[i].1;
        let ghost tagged = entries@.map_values(|entry: DeltaEntry| (commit, entry));
        let mut k: usize = 0;
        while k < entries.len()
            invariant
                k <= entries@.len(),
                tagged == entries@.map_values(|entry: DeltaEntry| (commit, entry)),
                all@ == before + tagged.take(k as int),
            decreases entries@.len() - k,
        {
            all.push((commit, entries[k]));
            k += 1;
            assert(all@ =~= before + tagged.take(k as int));
        }
        proof {
            assert(tagged.take(k as int) =~= tagged);
            assert forall|other: ObjectId, entry: DeltaEntry| #[trigger]
                all@.contains((other, entry)) <==> exists|j: int|
                    0 <= j < i + 1 && (#[trigger] pairs@[j]).0 == other && pairs@[j].1@.contains(
                        entry,
                    ) by {
                if all@.contains((other, entry)) {
                    let n = choose|n: int| 0 <= n < all@.len() && all@[n] == (other, entry);
                    if n < before.len() {
                        assert(before[n] == (other, entry));
                        assert(before.contains((other, entry)));
                        let j = choose|j: int|
                            0 <= j < i && (#[trigger] pairs@[j]).0 == other
                                && pairs@[j].1@.contains(entry);
                        assert(pairs@[j].0 == other);
                    } else {
                        assert(entries@[n - before.len()] == entry);
                        assert(pairs@[i as int].0 == other);
                    }
                }
                if exists|j: int|
                    0 <= j < i + 1 && (#[trigger] pairs@[j]).0 == other && pairs@[j].1@.contains(
                        entry,
                    ) {
                    let j = choose|j: int|
                        0 <= j < i + 1 && (#[trigger] pairs@[j]).0 == other
                            && pairs@[j].1@.contains(entry);
                    if j < i {
                        assert(before.contains((other, entry)));
                        let n = choose|n: int|
                            0 <= n < before.len() && before[n] == (other, entry);
                        assert(all@[n] == (other, entry));
                    } else {
                        let n = choose|n: int| 0 <= n < entries@.len() && entries@[n] == entry;
                        assert(all@[before.len() + n] == (other, entry));
                    }
                }
            }
        }
        i += 1;
    }
    proof {
        assert forall|commit: ObjectId, entry: DeltaEntry| #[trigger]
            all@.contains((commit, entry)) <==> plans(view, commit, entry) by {
            if all@.contains((commit, entry)) {
                let j = choose|j: int|
                    0 <= j < pairs@.len() && (#[trigger] pairs@[j]).0 == commit
                        && pairs@[j].1@.contains(entry);
                assert(view.contains_key(pairs@[j].0));
            }
            if plans(view, commit, entry) {
                let j = choose|j: int| stands_at(pairs@, commit, j);
                assert(pairs@[j].0 == commit);
            }
        }
    }
    all
}

/// Whether `commit`'s pack stores `oid` in the plan.
pub open spec fn is_home(
    packs: Map<ObjectId, Seq<DeltaEntry>>,
    oid: ObjectId,
    commit: ObjectId,
) -> bool {
    exists|entry: DeltaEntry| #[trigger] plans(packs, commit, entry) && entry.oid == oid
}

/// Which commits' packs will hold each object that the plan stores. The same
/// content is stored wherever a path changes to it.
pub fn homes(packs: &OrdMap<ObjectId, Vec<DeltaEntry>>) -> (homes: OrdMap<ObjectId, Vec<ObjectId>>)
    ensures
        forall|oid: ObjectId, commit: ObjectId|
            #![trigger is_home(runs(packs@), oid, commit)]
            #![trigger runs(homes@)[oid].contains(commit)]
            is_home(runs(packs@), oid, commit) <==> homes@.contains_key(oid) && runs(
                homes@,
            )[oid].contains(commit),
{
    let all = planned_entries(packs);
    let ghost view = runs(packs@);
    let mut homes: OrdMap<ObjectId, Vec<ObjectId>> = OrdMap::new();
    let mut i: usize = 0;
    while i < all.len()
        invariant
            i <= all@.len(),
            forall|oid: ObjectId, commit: ObjectId|
                #![trigger listed_home(all@, i as int, oid, commit)]
                #![trigger runs(homes@)[oid].contains(commit)]
                listed_home(all@, i as int, oid, commit) <==> homes@.contains_key(oid) && runs(
                    homes@,
                )[oid].contains(commit),
        decreases all@.len() - i,
    {
        let ghost before = runs(homes@);
        let (commit, entry) = all[i];
        let mut list: Vec<ObjectId> = match homes.remove(&entry.oid) {
            Some(list) => list,
            None => Vec::new(),
        };
        let ghost earlier = list@;
        list.push(commit);
        let _ = homes.insert(entry.oid, list);
        proof {
            assert forall|oid: ObjectId, other: ObjectId|
                #![trigger listed_home(all@, i as int + 1, oid, other)]
                #![trigger runs(homes@)[oid].contains(other)]
                listed_home(all@, i as int + 1, oid, other) <==> homes@.contains_key(oid) && runs(
                    homes@,
                )[oid].contains(other) by {
                lemma_push_contains(earlier, commit, other);
                assert(listed_home(all@, i as int, oid, other) <==> before.contains_key(oid)
                    && before[oid].contains(other));
                if listed_home(all@, i as int, oid, other) {
                    let j = choose|j: int|
                        0 <= j < i && (#[trigger] all@[j]).0 == other && all@[j].1.oid == oid;
                    assert(all@[j].0 == other);
                }
                if oid == entry.oid && other == commit {
                    assert(all@[i as int].0 == other);
                }
            }
        }
        i += 1;
    }
    proof {
        assert forall|oid: ObjectId, commit: ObjectId| listed_home(
            all@,
            all@.len() as int,
            oid,
            commit,
        ) <==> #[trigger] is_home(view, oid, commit) by {
            if listed_home(all@, all@.len() as int, oid, commit) {
                let j = choose|j: int|
                    0 <= j < all@.len() && (#[trigger] all@[j]).0 == commit && all@[j].1.oid == oid;
                assert(all@.contains((commit, all@[j].1)));
                assert(plans(view, commit, all@[j].1));
            }
            if is_home(view, oid, commit) {
                let entry = choose|entry: DeltaEntry| #[trigger]
                    plans(view, commit, entry) && entry.oid == oid;
                assert(all@.contains((commit, entry)));
                let j = choose|j: int| 0 <= j < all@.len() && all@[j] == (commit, entry);
                assert(all@[j].0 == commit);
            }
        }
        assert forall|oid: ObjectId, commit: ObjectId|
            #![trigger is_home(view, oid, commit)]
            #![trigger runs(homes@)[oid].contains(commit)]
            is_home(view, oid, commit) <==> homes@.contains_key(oid) && runs(
                homes@,
            )[oid].contains(commit) by {
            assert(listed_home(all@, all@.len() as int, oid, commit) <==> is_home(
                view,
                oid,
                commit,
            ));
        }
    }
    homes
}

/// Whether one of the first `n` planned entries stores `oid` for `commit`.
spec fn listed_home(
    all: Seq<(ObjectId, DeltaEntry)>,
    n: int,
    oid: ObjectId,
    commit: ObjectId,
) -> bool {
    exists|j: int| 0 <= j < n && (#[trigger] all[j]).0 == commit && all[j].1.oid == oid
}

/// What was sent of an entry: none if the push never received it, or received
/// it whole.
pub open spec fn delta_sent(packs: Seq<WirePack>, oid: ObjectId) -> Result<
    Option<ObjectId>,
    Error,
> {
    match first_arrival(packs, oid) {
        None => Ok(None),
        Some(at) => base_sent(packs, at),
    }
}

/// Every planned entry that the client sent as a delta: the commit whose pack
/// will hold it, and the base it was encoded against.
pub fn wire_deltas(wire: &WirePacks, packs: &OrdMap<ObjectId, Vec<DeltaEntry>>) -> (deltas: Result<
    Vec<(ObjectId, ObjectId)>,
    Error,
>)
    ensures
        match deltas {
            Ok(deltas) => {
                &&& forall|commit: ObjectId, entry: DeltaEntry| #[trigger]
                    plans(runs(packs@), commit, entry) ==> delta_sent(wire@, entry.oid) is Ok
                &&& forall|commit: ObjectId, base: ObjectId| #[trigger]
                    deltas@.contains((commit, base)) <==> exists|entry: DeltaEntry| #[trigger]
                        plans(runs(packs@), commit, entry) && delta_sent(wire@, entry.oid) == Ok::<
                            Option<ObjectId>,
                            Error,
                        >(Some(base))
            },
            Err(error) => exists|commit: ObjectId, entry: DeltaEntry| #[trigger]
                plans(runs(packs@), commit, entry) && delta_sent(wire@, entry.oid) == Err::<
                    Option<ObjectId>,
                    Error,
                >(error),
        },
{
    let all = planned_entries(packs);
    let ghost view = runs(packs@);
    let mut deltas: Vec<(ObjectId, ObjectId)> = Vec::new();
    let mut i: usize = 0;
    while i < all.len()
        invariant
            i <= all@.len(),
            view == runs(packs@),
            forall|commit: ObjectId, entry: DeltaEntry| #[trigger]
                all@.contains((commit, entry)) <==> plans(view, commit, entry),
            forall|j: int| 0 <= j < i ==> delta_sent(wire@, (#[trigger] all@[j]).1.oid) is Ok,
            forall|commit: ObjectId, base: ObjectId| #[trigger]
                deltas@.contains((commit, base)) <==> exists|j: int|
                    0 <= j < i && (#[trigger] all@[j]).0 == commit && delta_sent(
                        wire@,
                        all@[j].1.oid,
                    ) == Ok::<Option<ObjectId>, Error>(Some(base)),
        decreases all@.len() - i,
    {
        let ghost before = deltas@;
        let (commit, entry) = all[i];
        let sent = match wire.entry_of(entry.oid) {
            None => Ok(None),
            Some(at) => delta_base(wire, at),
        };
        assert(sent == delta_sent(wire@, all@[i as int].1.oid));
        match sent {
            Err(error) => {
                proof {
                    assert(all@.contains((commit, entry)));
                    assert(plans(view, commit, entry));
                }
                return Err(error);
            },
            Ok(None) => {},
            Ok(Some(base)) => {
                deltas.push((commit, base));
            },
        }
        proof {
            assert forall|other: ObjectId, base: ObjectId| #[trigger]
                deltas@.contains((other, base)) <==> exists|j: int|
                    0 <= j < i + 1 && (#[trigger] all@[j]).0 == other && delta_sent(
                        wire@,
                        all@[j].1.oid,
                    ) == Ok::<Option<ObjectId>, Error>(Some(base)) by {
                if before.contains((other, base)) {
                    let n = choose|n: int| 0 <= n < before.len() && before[n] == (other, base);
                    assert(deltas@[n] == (other, base));
                    let j = choose|j: int|
                        0 <= j < i && (#[trigger] all@[j]).0 == other && delta_sent(
                            wire@,
                            all@[j].1.oid,
                        ) == Ok::<Option<ObjectId>, Error>(Some(base));
                    assert(all@[j].0 == other);
                }
                if other == commit && sent == Ok::<Option<ObjectId>, Error>(Some(base)) {
                    assert(deltas@[before.len() as int] == (other, base));
                    assert(all@[i as int].0 == other);
                }
                if deltas@.contains((other, base)) && !before.contains((other, base)) {
                    let n = choose|n: int| 0 <= n < deltas@.len() && deltas@[n] == (other, base);
                    assert(n == before.len()) by {
                        if n < before.len() {
                            assert(before[n] == (other, base));
                        }
                    }
                }
            }
        }
        i += 1;
    }
    proof {
        assert forall|commit: ObjectId, entry: DeltaEntry| #[trigger]
            plans(view, commit, entry) implies delta_sent(wire@, entry.oid) is Ok by {
            assert(all@.contains((commit, entry)));
            let j = choose|j: int| 0 <= j < all@.len() && all@[j] == (commit, entry);
            assert(delta_sent(wire@, all@[j].1.oid) is Ok);
        }
        assert forall|commit: ObjectId, base: ObjectId| #[trigger]
            deltas@.contains((commit, base)) <==> exists|entry: DeltaEntry| #[trigger]
                plans(view, commit, entry) && delta_sent(wire@, entry.oid) == Ok::<
                    Option<ObjectId>,
                    Error,
                >(Some(base)) by {
            if deltas@.contains((commit, base)) {
                let j = choose|j: int|
                    0 <= j < all@.len() && (#[trigger] all@[j]).0 == commit && delta_sent(
                        wire@,
                        all@[j].1.oid,
                    ) == Ok::<Option<ObjectId>, Error>(Some(base));
                assert(all@.contains((commit, all@[j].1)));
                assert(plans(view, commit, all@[j].1));
            }
            if exists|entry: DeltaEntry| #[trigger]
                plans(view, commit, entry) && delta_sent(wire@, entry.oid) == Ok::<
                    Option<ObjectId>,
                    Error,
                >(Some(base)) {
                let entry = choose|entry: DeltaEntry| #[trigger]
                    plans(view, commit, entry) && delta_sent(wire@, entry.oid) == Ok::<
                        Option<ObjectId>,
                        Error,
                    >(Some(base));
                assert(all@.contains((commit, entry)));
                let j = choose|j: int| 0 <= j < all@.len() && all@[j] == (commit, entry);
                assert(all@[j].0 == commit);
            }
        }
    }
    Ok(deltas)
}

/// Whether one of `deltas` is on `base`.
pub open spec fn is_delta_base(deltas: Seq<(ObjectId, ObjectId)>, base: ObjectId) -> bool {
    exists|i: int| 0 <= i < deltas.len() && (#[trigger] deltas[i]).1 == base
}

/// The bases that the plan stores nowhere, each once: those whose home the
/// store has to say.
pub fn bases_without_home(
    deltas: &[(ObjectId, ObjectId)],
    homes: &OrdMap<ObjectId, Vec<ObjectId>>,
) -> (older: Vec<ObjectId>)
    ensures
        older@.no_duplicates(),
        forall|base: ObjectId| #[trigger]
            older@.contains(base) <==> is_delta_base(deltas@, base) && !homes@.contains_key(base),
{
    let mut older = IdList::new();
    let mut i: usize = 0;
    while i < deltas.len()
        invariant
            i <= deltas@.len(),
            forall|base: ObjectId| #[trigger]
                older@.contains(base) <==> !homes@.contains_key(base) && exists|j: int|
                    0 <= j < i && (#[trigger] deltas@[j]).1 == base,
        decreases deltas@.len() - i,
    {
        let ghost before = older@;
        let base = deltas[i].1;
        if !homes.contains_key(&base) {
            let _ = older.put(base);
        }
        proof {
            assert forall|other: ObjectId| #[trigger]
                older@.contains(other) <==> !homes@.contains_key(other) && exists|j: int|
                    0 <= j < i + 1 && (#[trigger] deltas@[j]).1 == other by {
                if before.contains(other) {
                    let j = choose|j: int| 0 <= j < i && (#[trigger] deltas@[j]).1 == other;
                    assert(deltas@[j].1 == other);
                }
                if other == base {
                    assert(deltas@[i as int].1 == other);
                }
            }
        }
        i += 1;
    }
    older.into_vec()
}

/// Which commit's pack holds each base already: the one that every read of it
/// goes through.
pub fn older_homes(metas: &OrdMap<ObjectId, ObjectMeta>) -> (homes: OrdMap<ObjectId, ObjectId>)
    ensures
        homes@ == Map::new(
            |oid: ObjectId| metas@.contains_key(oid) && metas@[oid].location is Some,
            |oid: ObjectId| metas@[oid].location->0.image.pack_sha,
        ),
{
    let mut homes: OrdMap<ObjectId, ObjectId> = OrdMap::new();
    let pairs = metas.as_entries();
    let ghost all = metas@;
    let mut i: usize = 0;
    while i < pairs.len()
        invariant
            i <= pairs@.len(),
            all == metas@,
            forall|k: int|
                0 <= k < pairs@.len() ==> all.contains_key((#[trigger] pairs@[k]).0)
                    && all[pairs@[k].0] == pairs@[k].1,
            forall|oid: ObjectId| #[trigger]
                homes@.contains_key(oid) <==> exists|k: int|
                    0 <= k < i && (#[trigger] pairs@[k]).0 == oid && pairs@[k].1.location is Some,
            forall|oid: ObjectId| #[trigger]
                homes@.contains_key(oid) ==> homes@[oid] == all[oid].location->0.image.pack_sha,
        decreases pairs@.len() - i,
    {
        let ghost before = homes@;
        let oid = pairs[i].0;
        assert(pairs@[i as int].0 == oid);
        if let Some(location) = pairs[i].1.location {
            let _ = homes.insert(oid, location.image.pack_sha);
        }
        proof {
            assert forall|other: ObjectId| #[trigger]
                homes@.contains_key(other) <==> exists|k: int|
                    0 <= k < i + 1 && (#[trigger] pairs@[k]).0 == other
                        && pairs@[k].1.location is Some by {
                if before.contains_key(other) {
                    let k = choose|k: int|
                        0 <= k < i && (#[trigger] pairs@[k]).0 == other
                            && pairs@[k].1.location is Some;
                    assert(pairs@[k].0 == other);
                }
            }
        }
        i += 1;
    }
    proof {
        let want = Map::new(
            |oid: ObjectId| metas@.contains_key(oid) && metas@[oid].location is Some,
            |oid: ObjectId| metas@[oid].location->0.image.pack_sha,
        );
        assert forall|oid: ObjectId| #[trigger] homes@.contains_key(oid) <==> want.contains_key(
            oid,
        ) by {
            if want.contains_key(oid) {
                let k = choose|k: int| stands_at(pairs@, oid, k);
                assert(pairs@[k].0 == oid);
            }
        }
        assert(homes@ =~= want);
    }
    homes
}

/// Whether a query has to be proven for some delta to be kept.
pub open spec fn is_asked(
    query: Query,
    deltas: Seq<(ObjectId, ObjectId)>,
    homes: Map<ObjectId, Seq<ObjectId>>,
    older_homes: Map<ObjectId, ObjectId>,
) -> bool {
    query.home != query.target && exists|i: int|
        0 <= i < deltas.len() && (#[trigger] deltas[i]).0 == query.target && homes_of(
            deltas[i].1,
            homes,
            older_homes,
        ).contains(query.home)
}

/// Every proof that the plan needs, each once. A home that is the commit itself
/// needs none.
pub fn queries(
    deltas: &[(ObjectId, ObjectId)],
    homes: &OrdMap<ObjectId, Vec<ObjectId>>,
    older_homes: &OrdMap<ObjectId, ObjectId>,
) -> (queries: Vec<Query>)
    ensures
        queries@.no_duplicates(),
        forall|query: Query| #[trigger]
            queries@.contains(query) <==> is_asked(query, deltas@, runs(homes@), older_homes@),
{
    let ghost hs = runs(homes@);
    let ghost os = older_homes@;
    let mut seen: OrdSet<Query> = OrdSet::new();
    let mut queries: Vec<Query> = Vec::new();
    let mut i: usize = 0;
    assert(forall|query: Query| !is_asked(query, deltas@.take(0), hs, os));
    while i < deltas.len()
        invariant
            i <= deltas@.len(),
            hs == runs(homes@),
            os == older_homes@,
            queries@.no_duplicates(),
            forall|query: Query| #[trigger] seen@.contains(query) <==> queries@.contains(query),
            forall|query: Query| #[trigger]
                queries@.contains(query) <==> is_asked(query, deltas@.take(i as int), hs, os),
        decreases deltas@.len() - i,
    {
        let (commit, base) = deltas[i];
        let all = home_of(base, homes, older_homes);
        let ghost before = queries@;
        let mut k: usize = 0;
        while k < all.len()
            invariant
                k <= all@.len(),
                queries@.no_duplicates(),
                forall|query: Query| #[trigger] seen@.contains(query) <==> queries@.contains(query),
                forall|query: Query| #[trigger]
                    queries@.contains(query) <==> before.contains(query) || query.target == commit
                        && query.home != commit && all@.take(k as int).contains(query.home),
            decreases all@.len() - k,
        {
            let home = all[k];
            let query = Query { target: commit, home };
            let ghost listed = queries@;
            if home != commit && seen.insert(query) {
                assert(!listed.contains(query));
                queries.push(query);
            }
            proof {
                let shorter = all@.take(k as int);
                assert(all@.take(k as int + 1) =~= shorter.push(home));
                assert forall|other: Query| #[trigger]
                    queries@.contains(other) <==> before.contains(other) || other.target == commit
                        && other.home != commit && all@.take(k as int + 1).contains(
                        other.home,
                    ) by {
                    lemma_push_contains(shorter, home, other.home);
                    lemma_push_contains(listed, query, other);
                }
                assert forall|other: Query| #[trigger]
                    seen@.contains(other) <==> queries@.contains(other) by {
                    lemma_push_contains(listed, query, other);
                }
            }
            k += 1;
        }
        proof {
            assert(all@.take(k as int) =~= all@);
            let longer = deltas@.take(i as int + 1);
            assert forall|query: Query| #[trigger]
                queries@.contains(query) <==> is_asked(query, longer, hs, os) by {
                if before.contains(query) {
                    let j = choose|j: int|
                        0 <= j < i && (#[trigger] deltas@.take(i as int)[j]).0 == query.target
                            && homes_of(deltas@.take(i as int)[j].1, hs, os).contains(query.home);
                    assert(longer[j] == deltas@.take(i as int)[j]);
                }
                if query.target == commit && query.home != commit && all@.contains(query.home) {
                    assert(longer[i as int] == (commit, base));
                }
                if is_asked(query, longer, hs, os) {
                    let j = choose|j: int|
                        0 <= j < longer.len() && (#[trigger] longer[j]).0 == query.target
                            && homes_of(longer[j].1, hs, os).contains(query.home);
                    if j < i {
                        assert(deltas@.take(i as int)[j] == longer[j]);
                        assert(is_asked(query, deltas@.take(i as int), hs, os));
                        assert(before.contains(query));
                    }
                }
            }
        }
        i += 1;
    }
    assert(deltas@.take(i as int) =~= deltas@);
    queries
}

/// How far back a walk from the push's boundary goes.
pub const WALK_CAP: u64 = 5_000;

/// How many commits on the push's boundary are worth a walk each.
pub const MAX_BOUNDARY_WALKS: usize = 8;

/// Whether a query asks for a home that the push does not carry.
pub open spec fn is_stored_home(
    queries: Seq<Query>,
    push: Map<ObjectId, Vec<ObjectId>>,
    home: ObjectId,
) -> bool {
    !push.contains_key(home) && exists|i: int|
        0 <= i < queries.len() && (#[trigger] queries[i]).home == home
}

/// The homes that a walk back from the push's boundary has to look for, each
/// once.
pub fn stored_homes(queries: &[Query], parents_of: &OrdMap<ObjectId, Vec<ObjectId>>) -> (homes: Vec<
    ObjectId,
>)
    ensures
        homes@.no_duplicates(),
        forall|home: ObjectId| #[trigger]
            homes@.contains(home) <==> is_stored_home(queries@, parents_of@, home),
{
    let mut homes = IdList::new();
    let mut i: usize = 0;
    while i < queries.len()
        invariant
            i <= queries@.len(),
            forall|home: ObjectId| #[trigger]
                homes@.contains(home) <==> !parents_of@.contains_key(home) && exists|j: int|
                    0 <= j < i && (#[trigger] queries@[j]).home == home,
        decreases queries@.len() - i,
    {
        let ghost before = homes@;
        let home = queries[i].home;
        if !parents_of.contains_key(&home) {
            let _ = homes.put(home);
        }
        proof {
            assert forall|other: ObjectId| #[trigger]
                homes@.contains(other) <==> !parents_of@.contains_key(other) && exists|j: int|
                    0 <= j < i + 1 && (#[trigger] queries@[j]).home == other by {
                if before.contains(other) {
                    let j = choose|j: int| 0 <= j < i && (#[trigger] queries@[j]).home == other;
                    assert(queries@[j].home == other);
                }
                if other == home {
                    assert(queries@[i as int].home == other);
                }
            }
        }
        i += 1;
    }
    homes.into_vec()
}

/// Every delta that the plan keeps of the client's is on a base that a reader
/// finds, and everything else is as planned or the client's whole object.
pub proof fn a_kept_delta_is_reachable(
    entry: DeltaEntry,
    commit: ObjectId,
    packs: Seq<WirePack>,
    homes: Map<ObjectId, Seq<ObjectId>>,
    older_homes: Map<ObjectId, ObjectId>,
    proven: Set<Query>,
)
    ensures
        kept_as(entry, commit, packs, homes, older_homes, proven) matches Ok(kept) ==> {
            &&& kept.oid == entry.oid && kept.kind == entry.kind
            &&& kept == entry || {
                &&& kept.source is Wire
                &&& kept.base matches Some(base) ==> is_reachable(
                    commit,
                    base,
                    homes,
                    older_homes,
                    proven,
                )
            }
        },
{
}

} // verus!
