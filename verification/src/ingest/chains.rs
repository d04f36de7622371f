//! Keeping delta chains short and free of loops.
//!
//! The plan is walked parents first. An entry keeps its base only where the
//! base comes strictly before it in the order that readers resolve in, and
//! where the chain it would end is within the limit of its kind.

use vstd::prelude::*;

use crate::ingest::graph::runs;
use crate::ingest::lists::IdList;
use crate::ingest::plan::{DeltaEntry, EntrySource};
use crate::object::{Kind, ObjectId};
use crate::ordmap::{stands_at, OrdMap};

verus! {

/// The longest chain a tree may end. Trees are read on every push and delta
/// well, so whole copies of them are cheap.
pub const MAX_TREE_CHAIN: u32 = 8;

/// The longest chain a blob may end.
pub const MAX_BLOB_CHAIN: u32 = 32;

/// The longest chain an entry of a kind may end.
pub open spec fn chain_limit(kind: Kind) -> u32 {
    if kind == Kind::Tree {
        MAX_TREE_CHAIN
    } else {
        MAX_BLOB_CHAIN
    }
}

/// The longest chain an entry of a kind may end.
pub fn max_chain(kind: Kind) -> (limit: u32)
    ensures
        limit == chain_limit(kind),
{
    if kind == Kind::Tree {
        MAX_TREE_CHAIN
    } else {
        MAX_BLOB_CHAIN
    }
}

/// Where an object falls in the order that readers resolve in: everything
/// stored comes before everything that the push introduces.
#[derive(Clone, Copy, Debug, PartialEq, Eq, Structural)]
pub enum Placed {
    /// The number of the first pack that holds it.
    Stored(i64),
    /// Where its first entry falls in the walk.
    InPush(usize),
}

impl Placed {
    /// Whether this place comes strictly before another.
    pub open spec fn precedes(self, other: Placed) -> bool {
        match (self, other) {
            (Placed::Stored(a), Placed::Stored(b)) => a < b,
            (Placed::Stored(_), Placed::InPush(_)) => true,
            (Placed::InPush(_), Placed::Stored(_)) => false,
            (Placed::InPush(a), Placed::InPush(b)) => a < b,
        }
    }

    /// Whether this place comes strictly before another.
    pub fn is_before(self, other: Placed) -> (before: bool)
        ensures
            before == self.precedes(other),
    {
        match (self, other) {
            (Placed::Stored(a), Placed::Stored(b)) => a < b,
            (Placed::Stored(_), Placed::InPush(_)) => true,
            (Placed::InPush(_), Placed::Stored(_)) => false,
            (Placed::InPush(a), Placed::InPush(b)) => a < b,
        }
    }
}

/// Where an object sits, if anything holds it: stored, or in the push.
pub open spec fn place(
    oid: ObjectId,
    stored_at: Map<ObjectId, i64>,
    rank: Map<ObjectId, usize>,
    prefer_stored: bool,
) -> Option<Placed> {
    let stored = stored_at.contains_key(oid);
    let in_push = rank.contains_key(oid);
    if stored && (prefer_stored || !in_push) {
        Some(Placed::Stored(stored_at[oid]))
    } else if in_push {
        Some(Placed::InPush(rank[oid]))
    } else {
        None
    }
}

/// Where to treat `oid` as sitting, or none when nothing holds it.
///
/// `prefer_stored` for the object being stored, at the earliest place it can
/// be; its base takes its copy in the push, which it could be reached through.
pub fn placed(
    oid: ObjectId,
    stored_at: &OrdMap<ObjectId, i64>,
    rank: &OrdMap<ObjectId, usize>,
    prefer_stored: bool,
) -> (at: Option<Placed>)
    ensures
        at == place(oid, stored_at@, rank@, prefer_stored),
{
    let stored = match stored_at.get(&oid) {
        Some(seq) => Some(Placed::Stored(*seq)),
        None => None,
    };
    let in_push = match rank.get(&oid) {
        Some(at) => Some(Placed::InPush(*at)),
        None => None,
    };
    if prefer_stored {
        if stored.is_some() {
            stored
        } else {
            in_push
        }
    } else if in_push.is_some() {
        in_push
    } else {
        stored
    }
}

/// An entry stored whole.
pub open spec fn whole(entry: DeltaEntry) -> DeltaEntry {
    DeltaEntry {
        base: None,
        source: if entry.base is Some {
            EntrySource::Encoded
        } else {
            entry.source
        },
        ..entry
    }
}

/// Store this entry's object whole.
///
/// A client's delta rebuilds nothing without its base, so dropping the base
/// drops the client's bytes with it.
pub fn cut(entry: DeltaEntry) -> (cut: DeltaEntry)
    ensures
        cut == whole(entry),
{
    DeltaEntry {
        oid: entry.oid,
        kind: entry.kind,
        base: None,
        source: if entry.base.is_some() {
            EntrySource::Encoded
        } else {
            entry.source
        },
    }
}

/// How far the walk has come.
#[verifier::ext_equal]
pub struct Walk {
    /// How long a chain each object's first entry ends.
    pub depth: Map<ObjectId, u32>,
    /// In which order the objects were met.
    pub rank: Map<ObjectId, usize>,
}

impl Walk {
    pub open spec fn begin() -> Walk {
        Walk { depth: Map::empty(), rank: Map::empty() }
    }

    /// Whether an entry's base does not come before the entry's own object.
    pub open spec fn may_loop(self, entry: DeltaEntry, stored_at: Map<ObjectId, i64>) -> bool {
        let own = place(entry.oid, stored_at, self.rank, true);
        let base = place(entry.base->0, stored_at, self.rank, false);
        entry.base is Some && own is Some && base is Some && !base->0.precedes(own->0)
    }

    /// How long a chain an entry would end. One whose base nothing stores ends
    /// a chain that is longer than any limit.
    pub open spec fn reach(self, entry: DeltaEntry, older: Map<ObjectId, u32>) -> u32 {
        match entry.base {
            None => 0,
            Some(base) => if self.depth.contains_key(base) {
                one_more(self.depth[base])
            } else if older.contains_key(base) {
                one_more(older[base])
            } else {
                u32::MAX
            },
        }
    }

    /// The entry, whole where its base might close a loop.
    pub open spec fn unlooped(self, entry: DeltaEntry, stored_at: Map<ObjectId, i64>) -> DeltaEntry {
        if self.may_loop(entry, stored_at) {
            whole(entry)
        } else {
            entry
        }
    }

    /// The entry as the plan keeps it.
    pub open spec fn kept(
        self,
        entry: DeltaEntry,
        older: Map<ObjectId, u32>,
        stored_at: Map<ObjectId, i64>,
    ) -> DeltaEntry {
        let entry = self.unlooped(entry, stored_at);
        if self.reach(entry, older) > chain_limit(entry.kind) {
            whole(entry)
        } else {
            entry
        }
    }

    /// The walk once it has passed an entry that was kept as `kept`.
    pub open spec fn past(self, kept: DeltaEntry, older: Map<ObjectId, u32>) -> Walk {
        Walk {
            depth: if self.depth.contains_key(kept.oid) {
                self.depth
            } else {
                self.depth.insert(kept.oid, self.reach(kept, older))
            },
            rank: if self.rank.contains_key(kept.oid) {
                self.rank
            } else {
                self.rank.insert(kept.oid, self.rank.len() as usize)
            },
        }
    }
}

/// A chain one entry longer.
pub open spec fn one_more(depth: u32) -> u32 {
    if depth == u32::MAX {
        u32::MAX
    } else {
        (depth + 1) as u32
    }
}

/// A pack's entries as the plan keeps them, and the walk past them.
pub open spec fn bound_pack(
    entries: Seq<DeltaEntry>,
    walk: Walk,
    older: Map<ObjectId, u32>,
    stored_at: Map<ObjectId, i64>,
) -> (Seq<DeltaEntry>, Walk)
    decreases entries.len(),
{
    if entries.len() == 0 {
        (entries, walk)
    } else {
        let (earlier, walk) = bound_pack(entries.drop_last(), walk, older, stored_at);
        let kept = walk.kept(entries.last(), older, stored_at);
        (earlier.push(kept), walk.past(kept, older))
    }
}

/// The packs as the plan keeps them once the commits of `order` were walked.
pub open spec fn bound_packs(
    order: Seq<ObjectId>,
    packs: Map<ObjectId, Seq<DeltaEntry>>,
    older: Map<ObjectId, u32>,
    stored_at: Map<ObjectId, i64>,
) -> (Map<ObjectId, Seq<DeltaEntry>>, Walk)
    decreases order.len(),
{
    if order.len() == 0 {
        (packs, Walk::begin())
    } else {
        let (packs, walk) = bound_packs(order.drop_last(), packs, older, stored_at);
        let commit = order.last();
        if packs.contains_key(commit) {
            let (entries, walk) = bound_pack(packs[commit], walk, older, stored_at);
            (packs.insert(commit, entries), walk)
        } else {
            (packs, walk)
        }
    }
}

/// Whether a pack of the plan has `entry`.
pub open spec fn has_entry(packs: Map<ObjectId, Seq<DeltaEntry>>, entry: DeltaEntry) -> bool {
    exists|commit: ObjectId| #[trigger]
        packs.contains_key(commit) && packs[commit].contains(entry)
}

/// Whether a pack of the plan stores `oid`.
pub open spec fn stores(packs: Map<ObjectId, Seq<DeltaEntry>>, oid: ObjectId) -> bool {
    exists|entry: DeltaEntry| #[trigger] has_entry(packs, entry) && entry.oid == oid
}

/// Whether an entry of the plan has `base` for its base.
pub open spec fn deltas_on(packs: Map<ObjectId, Seq<DeltaEntry>>, base: ObjectId) -> bool {
    exists|entry: DeltaEntry| #[trigger] has_entry(packs, entry) && entry.base == Some(base)
}

/// Every entry of the plan.
pub fn all_entries(packs: &OrdMap<ObjectId, Vec<DeltaEntry>>) -> (all: Vec<DeltaEntry>)
    ensures
        forall|entry: DeltaEntry| #[trigger]
            all@.contains(entry) <==> has_entry(runs(packs@), entry),
{
    let pairs = packs.as_entries();
    let ghost view = runs(packs@);
    let mut all: Vec<DeltaEntry> = Vec::new();
    let mut i: usize = 0;
    while i < pairs.len()
        invariant
            i <= pairs@.len(),
            forall|entry: DeltaEntry| #[trigger]
                all@.contains(entry) <==> exists|j: int|
                    0 <= j < i && (#[trigger] pairs@[j]).1@.contains(entry),
        decreases pairs@.len() - i,
    {
        let ghost before = all@;
        let entries = &pairs[i].1;
        let mut k: usize = 0;
        while k < entries.len()
            invariant
                k <= entries@.len(),
                all@ == before + entries@.take(k as int),
            decreases entries@.len() - k,
        {
            all.push(entries[k]);
            k += 1;
            assert(all@ =~= before + entries@.take(k as int));
        }
        proof {
            assert(entries@.take(k as int) =~= entries@);
            assert forall|entry: DeltaEntry| #[trigger]
                all@.contains(entry) <==> exists|j: int|
                    0 <= j < i + 1 && (#[trigger] pairs@[j]).1@.contains(entry) by {
                if all@.contains(entry) {
                    let n = choose|n: int| 0 <= n < all@.len() && all@[n] == entry;
                    if n < before.len() {
                        assert(before[n] == entry);
                        assert(before.contains(entry));
                        let j = choose|j: int|
                            0 <= j < i && (#[trigger] pairs@[j]).1@.contains(entry);
                        assert(pairs@[j].1@.contains(entry));
                    } else {
                        assert(entries@[n - before.len()] == entry);
                        assert(pairs@[i as int].1@.contains(entry));
                    }
                }
                if exists|j: int| 0 <= j < i + 1 && (#[trigger] pairs@[j]).1@.contains(entry) {
                    let j = choose|j: int|
                        0 <= j < i + 1 && (#[trigger] pairs@[j]).1@.contains(entry);
                    if j < i {
                        assert(before.contains(entry));
                        let n = choose|n: int| 0 <= n < before.len() && before[n] == entry;
                        assert(all@[n] == entry);
                    } else {
                        let n = choose|n: int| 0 <= n < entries@.len() && entries@[n] == entry;
                        assert(all@[before.len() + n] == entry);
                    }
                }
            }
        }
        i += 1;
    }
    proof {
        assert forall|entry: DeltaEntry| #[trigger] all@.contains(entry) <==> has_entry(
            view,
            entry,
        ) by {
            if all@.contains(entry) {
                let j = choose|j: int|
                    0 <= j < pairs@.len() && (#[trigger] pairs@[j]).1@.contains(entry);
                assert(view.contains_key(pairs@[j].0));
                assert(view[pairs@[j].0] == pairs@[j].1@);
            }
            if has_entry(view, entry) {
                let commit = choose|commit: ObjectId| #[trigger]
                    view.contains_key(commit) && view[commit].contains(entry);
                let j = choose|j: int| stands_at(pairs@, commit, j);
                assert(pairs@[j].0 == commit);
                assert(pairs@[j].1@.contains(entry));
            }
        }
    }
    all
}

/// The bases that no entry of the plan stores, each once: those whose chains
/// the store has to measure.
pub fn older_bases(packs: &OrdMap<ObjectId, Vec<DeltaEntry>>) -> (older: Vec<ObjectId>)
    ensures
        older@.no_duplicates(),
        forall|base: ObjectId| #[trigger]
            older@.contains(base) <==> deltas_on(runs(packs@), base) && !stores(runs(packs@), base),
{
    let all = all_entries(packs);
    let ghost view = runs(packs@);
    let mut in_push = IdList::new();
    let mut i: usize = 0;
    while i < all.len()
        invariant
            i <= all@.len(),
            forall|oid: ObjectId| #[trigger]
                in_push@.contains(oid) <==> exists|j: int|
                    0 <= j < i && (#[trigger] all@[j]).oid == oid,
        decreases all@.len() - i,
    {
        let ghost before = in_push@;
        let _ = in_push.put(all[i].oid);
        proof {
            assert forall|oid: ObjectId| #[trigger]
                in_push@.contains(oid) <==> exists|j: int|
                    0 <= j < i + 1 && (#[trigger] all@[j]).oid == oid by {
                if before.contains(oid) {
                    let j = choose|j: int| 0 <= j < i && (#[trigger] all@[j]).oid == oid;
                    assert(all@[j].oid == oid);
                }
                if oid == all@[i as int].oid {
                    assert(all@[i as int].oid == oid);
                }
            }
        }
        i += 1;
    }
    let mut older = IdList::new();
    let mut i: usize = 0;
    while i < all.len()
        invariant
            i <= all@.len(),
            forall|base: ObjectId| #[trigger]
                older@.contains(base) <==> !in_push@.contains(base) && exists|j: int|
                    0 <= j < i && (#[trigger] all@[j]).base == Some(base),
        decreases all@.len() - i,
    {
        let ghost before = older@;
        if let Some(base) = all[i].base {
            if !in_push.contains(base) {
                let _ = older.put(base);
            }
        }
        proof {
            assert forall|base: ObjectId| #[trigger]
                older@.contains(base) <==> !in_push@.contains(base) && exists|j: int|
                    0 <= j < i + 1 && (#[trigger] all@[j]).base == Some(base) by {
                if before.contains(base) {
                    let j = choose|j: int| 0 <= j < i && (#[trigger] all@[j]).base == Some(base);
                    assert(all@[j].base == Some(base));
                }
                if Some(base) == all@[i as int].base {
                    assert(all@[i as int].base == Some(base));
                }
            }
        }
        i += 1;
    }
    proof {
        assert forall|base: ObjectId| #[trigger]
            older@.contains(base) <==> deltas_on(view, base) && !stores(view, base) by {
            if in_push@.contains(base) {
                let j = choose|j: int| 0 <= j < all@.len() && (#[trigger] all@[j]).oid == base;
                assert(all@.contains(all@[j]));
                assert(has_entry(view, all@[j]));
            }
            if stores(view, base) {
                let entry = choose|entry: DeltaEntry| #[trigger]
                    has_entry(view, entry) && entry.oid == base;
                assert(all@.contains(entry));
                let j = choose|j: int| 0 <= j < all@.len() && all@[j] == entry;
                assert(all@[j].oid == base);
            }
            if older@.contains(base) {
                let j = choose|j: int|
                    0 <= j < all@.len() && (#[trigger] all@[j]).base == Some(base);
                assert(all@.contains(all@[j]));
                assert(has_entry(view, all@[j]));
            }
            if deltas_on(view, base) {
                let entry = choose|entry: DeltaEntry| #[trigger]
                    has_entry(view, entry) && entry.base == Some(base);
                assert(all@.contains(entry));
                let j = choose|j: int| 0 <= j < all@.len() && all@[j] == entry;
                assert(all@[j].base == Some(base));
            }
        }
    }
    older.into_vec()
}

/// Whether an entry of the plan stores `oid` as a delta.
pub open spec fn stores_delta(packs: Map<ObjectId, Seq<DeltaEntry>>, oid: ObjectId) -> bool {
    exists|entry: DeltaEntry| #[trigger]
        has_entry(packs, entry) && entry.oid == oid && entry.base is Some
}

/// The objects whose place decides whether a chain can loop, each once: what
/// the plan stores as a delta, and the bases older than it.
pub fn known_objects(packs: &OrdMap<ObjectId, Vec<DeltaEntry>>, older: &[ObjectId]) -> (known: Vec<
    ObjectId,
>)
    ensures
        known@.no_duplicates(),
        forall|oid: ObjectId| #[trigger]
            known@.contains(oid) <==> stores_delta(runs(packs@), oid) || older@.contains(oid),
{
    let all = all_entries(packs);
    let ghost view = runs(packs@);
    let mut known = IdList::new();
    let mut i: usize = 0;
    while i < all.len()
        invariant
            i <= all@.len(),
            forall|oid: ObjectId| #[trigger]
                known@.contains(oid) <==> exists|j: int|
                    0 <= j < i && (#[trigger] all@[j]).oid == oid && all@[j].base is Some,
        decreases all@.len() - i,
    {
        let ghost before = known@;
        if all[i].base.is_some() {
            let _ = known.put(all[i].oid);
        }
        proof {
            assert forall|oid: ObjectId| #[trigger]
                known@.contains(oid) <==> exists|j: int|
                    0 <= j < i + 1 && (#[trigger] all@[j]).oid == oid && all@[j].base is Some by {
                if before.contains(oid) {
                    let j = choose|j: int|
                        0 <= j < i && (#[trigger] all@[j]).oid == oid && all@[j].base is Some;
                    assert(all@[j].oid == oid);
                }
                if oid == all@[i as int].oid {
                    assert(all@[i as int].oid == oid);
                }
            }
        }
        i += 1;
    }
    proof {
        assert forall|oid: ObjectId| #[trigger] known@.contains(oid) <==> stores_delta(
            view,
            oid,
        ) by {
            if known@.contains(oid) {
                let j = choose|j: int|
                    0 <= j < all@.len() && (#[trigger] all@[j]).oid == oid && all@[j].base is Some;
                assert(all@.contains(all@[j]));
                assert(has_entry(view, all@[j]));
            }
            if stores_delta(view, oid) {
                let entry = choose|entry: DeltaEntry| #[trigger]
                    has_entry(view, entry) && entry.oid == oid && entry.base is Some;
                assert(all@.contains(entry));
                let j = choose|j: int| 0 <= j < all@.len() && all@[j] == entry;
                assert(all@[j].oid == oid);
            }
        }
    }
    known.put_all(older);
    known.into_vec()
}

/// Walk the plan in `order`, parents first, storing whole every entry whose
/// chain is past its kind's limit or whose base does not come before it.
///
/// `older_depths` says how long the chains are that stored objects end, and
/// `stored_at` which pack each stored object is in first.
pub fn bound_chains(
    packs: &mut OrdMap<ObjectId, Vec<DeltaEntry>>,
    order: &[ObjectId],
    older_depths: &OrdMap<ObjectId, u32>,
    stored_at: &OrdMap<ObjectId, i64>,
)
    ensures
        runs(final(packs)@) == bound_packs(
            order@,
            runs(old(packs)@),
            older_depths@,
            stored_at@,
        ).0,
{
    let ghost was = runs(packs@);
    let ghost older = older_depths@;
    let ghost stored = stored_at@;
    let mut depth: OrdMap<ObjectId, u32> = OrdMap::new();
    let mut rank: OrdMap<ObjectId, usize> = OrdMap::new();
    let mut i: usize = 0;
    while i < order.len()
        invariant
            i <= order@.len(),
            older == older_depths@,
            stored == stored_at@,
            (runs(packs@), (Walk { depth: depth@, rank: rank@ })) == bound_packs(
                order@.take(i as int),
                was,
                older,
                stored,
            ),
        decreases order@.len() - i,
    {
        let ghost before = packs@;
        let ghost walk_before = Walk { depth: depth@, rank: rank@ };
        let commit = order[i];
        assert(order@.take(i as int + 1).drop_last() =~= order@.take(i as int));
        if let Some(entries) = packs.remove(&commit) {
            assert(runs(before)[commit] == entries@);
            let mut kept: Vec<DeltaEntry> = Vec::new();
            let mut j: usize = 0;
            assert(entries@.take(0) =~= Seq::<DeltaEntry>::empty());
            while j < entries.len()
                invariant
                    j <= entries@.len(),
                    older == older_depths@,
                    stored == stored_at@,
                    (kept@, (Walk { depth: depth@, rank: rank@ })) == bound_pack(
                        entries@.take(j as int),
                        walk_before,
                        older,
                        stored,
                    ),
                decreases entries@.len() - j,
            {
                let ghost walk = Walk { depth: depth@, rank: rank@ };
                let ghost kept_before = kept@;
                assert(entries@.take(j as int + 1).drop_last() =~= entries@.take(j as int));
                let mut entry = entries[j];
                if let Some(base) = entry.base {
                    if let Some(own) = placed(entry.oid, stored_at, &rank, true) {
                        if let Some(at) = placed(base, stored_at, &rank, false) {
                            if !at.is_before(own) {
                                entry = cut(entry);
                            }
                        }
                    }
                }
                assert(entry == walk.unlooped(entries@[j as int], stored));
                let mut reached: u32 = match entry.base {
                    None => 0,
                    Some(base) => match depth.get(&base) {
                        Some(depth) => depth.saturating_add(1),
                        None => match older_depths.get(&base) {
                            Some(depth) => depth.saturating_add(1),
                            None => u32::MAX,
                        },
                    },
                };
                assert(reached == walk.reach(entry, older));
                if reached > max_chain(entry.kind) {
                    entry = cut(entry);
                    reached = 0;
                }
                assert(reached == walk.reach(entry, older));
                assert(entry == walk.kept(entries@[j as int], older, stored));
                if !depth.contains_key(&entry.oid) {
                    let _ = depth.insert(entry.oid, reached);
                }
                if !rank.contains_key(&entry.oid) {
                    let ranked = rank.as_entries();
                    let next: usize = ranked.len();
                    let _ = rank.insert(entry.oid, next);
                }
                kept.push(entry);
                j += 1;
                assert((Walk { depth: depth@, rank: rank@ }) =~= walk.past(entry, older));
                assert(kept@ =~= kept_before.push(entry));
            }
            assert(entries@.take(j as int) =~= entries@);
            let _ = packs.insert(commit, kept);
            assert(runs(packs@) =~= runs(before).insert(commit, kept@));
        } else {
            assert(!runs(before).contains_key(commit));
            assert(runs(packs@) =~= runs(before));
        }
        i += 1;
    }
    assert(order@.take(i as int) =~= order@);
}

impl Walk {
    /// What holds wherever a walk has come.
    pub open spec fn is_sound(self) -> bool {
        &&& self.depth.dom() == self.rank.dom()
        &&& self.rank.dom().finite()
        &&& self.rank.len() <= usize::MAX
        &&& forall|oid: ObjectId| #[trigger]
            self.rank.contains_key(oid) ==> self.rank[oid] < self.rank.len()
    }

    /// Whether `later` knows all that this walk knows.
    pub open spec fn goes_on_to(self, later: Walk) -> bool {
        self.depth.submap_of(later.depth) && self.rank.submap_of(later.rank)
    }
}

/// Whether an entry's base comes strictly before the entry's own object, and
/// leaves the chain that the entry ends within its kind's limit.
pub open spec fn runs_back(
    entry: DeltaEntry,
    walk: Walk,
    older: Map<ObjectId, u32>,
    stored_at: Map<ObjectId, i64>,
) -> bool {
    entry.base is Some ==> {
        let base = entry.base->0;
        let own_place = place(entry.oid, stored_at, walk.rank, true);
        let base_place = place(base, stored_at, walk.rank, true);
        let limit = chain_limit(entry.kind);
        &&& own_place is Some && base_place is Some && base_place->0.precedes(own_place->0)
        &&& {
            ||| walk.depth.contains_key(base) && walk.depth[base] < limit
            ||| older.contains_key(base) && older[base] < limit
        }
    }
}

/// What holds of an entry stays so as the walk goes on.
proof fn lemma_runs_back_later(
    entry: DeltaEntry,
    walk: Walk,
    later: Walk,
    older: Map<ObjectId, u32>,
    stored_at: Map<ObjectId, i64>,
)
    requires
        runs_back(entry, walk, older, stored_at),
        walk.goes_on_to(later),
    ensures
        runs_back(entry, later, older, stored_at),
{
    if entry.base is Some {
        let base = entry.base->0;
        assert(walk.rank.contains_key(base) ==> later.rank.contains_key(base));
        assert(walk.rank.contains_key(entry.oid) ==> later.rank.contains_key(entry.oid));
        assert(walk.depth.contains_key(base) ==> later.depth.contains_key(base));
    }
}

/// One entry further, the walk is sound still, and the entry runs back.
proof fn lemma_one_entry(
    walk: Walk,
    entry: DeltaEntry,
    older: Map<ObjectId, u32>,
    stored_at: Map<ObjectId, i64>,
)
    requires
        walk.is_sound(),
        walk.rank.len() < usize::MAX,
        older.dom().subset_of(stored_at.dom()),
    ensures
        ({
            let kept = walk.kept(entry, older, stored_at);
            let later = walk.past(kept, older);
            &&& later.is_sound()
            &&& walk.goes_on_to(later)
            &&& later.rank.len() <= walk.rank.len() + 1
            &&& runs_back(kept, later, older, stored_at)
        }),
{
    let kept = walk.kept(entry, older, stored_at);
    let later = walk.past(kept, older);
    assert(later.depth.dom() =~= later.rank.dom());
    assert forall|oid: ObjectId| #[trigger] later.rank.contains_key(oid) implies later.rank[oid]
        < later.rank.len() by {
        if walk.rank.contains_key(oid) {
            assert(walk.rank[oid] < walk.rank.len());
        }
    }
    if kept.base is Some {
        let base = kept.base->0;
        assert(walk.depth.contains_key(base) <==> walk.rank.contains_key(base));
        assert(older.contains_key(base) ==> stored_at.contains_key(base));
        assert(!walk.may_loop(kept, stored_at));
    }
}

/// A pack further, the walk is sound still, and every entry of it runs back.
proof fn lemma_one_pack(
    entries: Seq<DeltaEntry>,
    walk: Walk,
    older: Map<ObjectId, u32>,
    stored_at: Map<ObjectId, i64>,
)
    requires
        walk.is_sound(),
        walk.rank.len() + entries.len() <= usize::MAX,
        older.dom().subset_of(stored_at.dom()),
    ensures
        ({
            let (kept, later) = bound_pack(entries, walk, older, stored_at);
            &&& later.is_sound()
            &&& walk.goes_on_to(later)
            &&& later.rank.len() <= walk.rank.len() + entries.len()
            &&& kept.len() == entries.len()
            &&& forall|i: int|
                0 <= i < kept.len() ==> runs_back(#[trigger] kept[i], later, older, stored_at)
        }),
    decreases entries.len(),
{
    if entries.len() > 0 {
        lemma_one_pack(entries.drop_last(), walk, older, stored_at);
        let (earlier, before) = bound_pack(entries.drop_last(), walk, older, stored_at);
        let (kept, later) = bound_pack(entries, walk, older, stored_at);
        lemma_one_entry(before, entries.last(), older, stored_at);
        assert forall|i: int| 0 <= i < kept.len() implies runs_back(
            #[trigger] kept[i],
            later,
            older,
            stored_at,
        ) by {
            if i < earlier.len() {
                assert(kept[i] == earlier[i]);
                lemma_runs_back_later(earlier[i], before, later, older, stored_at);
            }
        }
    }
}

/// How many entries the packs of a run of commits hold together.
pub open spec fn entries_in(order: Seq<ObjectId>, packs: Map<ObjectId, Seq<DeltaEntry>>) -> nat
    decreases order.len(),
{
    if order.len() == 0 {
        0
    } else {
        entries_in(order.drop_last(), packs) + (if packs.contains_key(order.last()) {
            packs[order.last()].len()
        } else {
            0
        })
    }
}

/// Walking a run of commits leaves their packs as many, and as long.
proof fn lemma_same_shape(
    order: Seq<ObjectId>,
    packs: Map<ObjectId, Seq<DeltaEntry>>,
    older: Map<ObjectId, u32>,
    stored_at: Map<ObjectId, i64>,
)
    ensures
        ({
            let bounded = bound_packs(order, packs, older, stored_at).0;
            &&& bounded.dom() == packs.dom()
            &&& forall|commit: ObjectId| #[trigger]
                packs.contains_key(commit) ==> bounded[commit].len() == packs[commit].len()
            &&& forall|commit: ObjectId, i: int|
                packs.contains_key(commit) && 0 <= i < packs[commit].len() ==> {
                    let before = packs[commit][i];
                    let after = #[trigger] bounded[commit][i];
                    after == before || after == whole(before)
                }
        }),
    decreases order.len(),
{
    if order.len() > 0 {
        lemma_same_shape(order.drop_last(), packs, older, stored_at);
        let (earlier, walk) = bound_packs(order.drop_last(), packs, older, stored_at);
        let commit = order.last();
        if earlier.contains_key(commit) {
            lemma_same_pack(earlier[commit], walk, older, stored_at);
            let bounded = bound_packs(order, packs, older, stored_at).0;
            assert(bounded.dom() =~= packs.dom());
            assert forall|other: ObjectId, i: int|
                packs.contains_key(other) && 0 <= i < packs[other].len() implies {
                let before = packs[other][i];
                let after = #[trigger] bounded[other][i];
                after == before || after == whole(before)
            } by {
                let mid = earlier[other][i];
                assert(mid == packs[other][i] || mid == whole(packs[other][i]));
                if other == commit {
                    let after = bound_pack(earlier[commit], walk, older, stored_at).0[i];
                    assert(after == mid || after == whole(mid));
                    assert(whole(whole(packs[other][i])) == whole(packs[other][i]));
                }
            }
        }
    }
}

/// Walking a pack leaves it as long, each entry as it was or whole.
proof fn lemma_same_pack(
    entries: Seq<DeltaEntry>,
    walk: Walk,
    older: Map<ObjectId, u32>,
    stored_at: Map<ObjectId, i64>,
)
    ensures
        ({
            let kept = bound_pack(entries, walk, older, stored_at).0;
            &&& kept.len() == entries.len()
            &&& forall|i: int|
                0 <= i < entries.len() ==> (#[trigger] kept[i] == entries[i] || kept[i] == whole(
                    entries[i],
                ))
        }),
    decreases entries.len(),
{
    if entries.len() > 0 {
        lemma_same_pack(entries.drop_last(), walk, older, stored_at);
        let (earlier, before) = bound_pack(entries.drop_last(), walk, older, stored_at);
        let kept = bound_pack(entries, walk, older, stored_at).0;
        assert forall|i: int| 0 <= i < entries.len() implies (#[trigger] kept[i] == entries[i]
            || kept[i] == whole(entries[i])) by {
            if i < earlier.len() {
                assert(kept[i] == earlier[i]);
                assert(entries.drop_last()[i] == entries[i]);
            } else {
                let entry = entries[i];
                assert(whole(whole(entry)) == whole(entry));
            }
        }
    }
}

/// Bounding chains drops bases and nothing else: every pack keeps its objects
/// in their order, each as it was or whole.
pub proof fn bounding_only_drops_bases(
    order: Seq<ObjectId>,
    packs: Map<ObjectId, Seq<DeltaEntry>>,
    older: Map<ObjectId, u32>,
    stored_at: Map<ObjectId, i64>,
    commit: ObjectId,
    i: int,
)
    requires
        packs.contains_key(commit),
        0 <= i < packs[commit].len(),
    ensures
        ({
            let bounded = bound_packs(order, packs, older, stored_at).0;
            &&& bounded.dom() == packs.dom()
            &&& bounded[commit].len() == packs[commit].len()
            &&& bounded[commit][i] == packs[commit][i] || bounded[commit][i] == whole(
                packs[commit][i],
            )
        }),
{
    lemma_same_shape(order, packs, older, stored_at);
    let bounded = bound_packs(order, packs, older, stored_at).0;
    assert(bounded[commit][i] == packs[commit][i] || bounded[commit][i] == whole(
        packs[commit][i],
    ));
}

/// A walk over any run of commits, by induction.
proof fn lemma_walked(
    order: Seq<ObjectId>,
    packs: Map<ObjectId, Seq<DeltaEntry>>,
    older: Map<ObjectId, u32>,
    stored_at: Map<ObjectId, i64>,
)
    requires
        older.dom().subset_of(stored_at.dom()),
        entries_in(order, packs) <= usize::MAX,
    ensures
        ({
            let (bounded, walk) = bound_packs(order, packs, older, stored_at);
            &&& walk.is_sound()
            &&& walk.rank.len() <= entries_in(order, packs)
            &&& forall|commit: ObjectId, i: int|
                order.contains(commit) && bounded.contains_key(commit) && 0 <= i
                    < bounded[commit].len() ==> runs_back(
                    #[trigger] bounded[commit][i],
                    walk,
                    older,
                    stored_at,
                )
        }),
    decreases order.len(),
{
    if order.len() == 0 {
        let walk = Walk::begin();
        assert(walk.depth.dom() =~= walk.rank.dom());
    } else {
        let shorter = order.drop_last();
        lemma_walked(shorter, packs, older, stored_at);
        lemma_same_shape(shorter, packs, older, stored_at);
        let (earlier, before) = bound_packs(shorter, packs, older, stored_at);
        let (bounded, walk) = bound_packs(order, packs, older, stored_at);
        let last = order.last();
        if earlier.contains_key(last) {
            assert(packs.contains_key(last));
            lemma_one_pack(earlier[last], before, older, stored_at);
        }
        assert forall|commit: ObjectId, i: int|
            order.contains(commit) && bounded.contains_key(commit) && 0 <= i
                < bounded[commit].len() implies runs_back(
            #[trigger] bounded[commit][i],
            walk,
            older,
            stored_at,
        ) by {
            if commit == last {
                assert(earlier.contains_key(last));
                assert(bounded[commit] == bound_pack(earlier[last], before, older, stored_at).0);
            } else {
                let at = choose|at: int| 0 <= at < order.len() && order[at] == commit;
                assert(shorter[at] == commit);
                assert(bounded[commit] == earlier[commit]);
                assert(runs_back(earlier[commit][i], before, older, stored_at));
                lemma_runs_back_later(earlier[commit][i], before, walk, older, stored_at);
            }
        }
    }
}

/// Every base that the plan keeps comes strictly before the object it is the
/// base of, so that no chain can lead back to where it started, and leaves the
/// chain within its kind's limit.
///
/// Where a chain was measured, its object is stored.
pub proof fn chains_run_backwards(
    order: Seq<ObjectId>,
    packs: Map<ObjectId, Seq<DeltaEntry>>,
    older: Map<ObjectId, u32>,
    stored_at: Map<ObjectId, i64>,
    commit: ObjectId,
    i: int,
)
    requires
        older.dom().subset_of(stored_at.dom()),
        entries_in(order, packs) <= usize::MAX,
        order.contains(commit),
        packs.contains_key(commit),
        0 <= i < packs[commit].len(),
    ensures
        ({
            let (bounded, walk) = bound_packs(order, packs, older, stored_at);
            runs_back(bounded[commit][i], walk, older, stored_at)
        }),
{
    lemma_walked(order, packs, older, stored_at);
    lemma_same_shape(order, packs, older, stored_at);
    let (bounded, walk) = bound_packs(order, packs, older, stored_at);
    assert(runs_back(bounded[commit][i], walk, older, stored_at));
}

} // verus!
