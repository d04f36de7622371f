//! What becomes of the deltas of a push: which are kept as they came, how far
//! their chains run, and in which order they are written.

use vstd::prelude::*;

use crate::error::Error;
use crate::ingest::chains::{
    bound_pack, bound_packs, chain_limit, deltas_on, has_entry, place, stores, stores_delta, whole,
    Placed, Walk, MAX_BLOB_CHAIN, MAX_TREE_CHAIN,
};
use crate::ingest::classify::{
    base_sent, commit_source, delta_sent, homes_of, is_asked, is_home, is_reachable,
    is_stored_home, kept_as, plans, Query,
};
use crate::ingest::pack::{first_arrival, EntryBase, WirePack};
use crate::ingest::plan::{DeltaEntry, EntrySource, WireRef};
use crate::object::{Kind, ObjectId};

verus! {

/// Whether an object is what entry `at` of pack `pack` holds.
pub open spec fn holds_at(packs: Seq<WirePack>, pack: int, at: int, oid: ObjectId) -> bool {
    &&& 0 <= pack < packs.len()
    &&& 0 <= at < packs[pack].identified().len()
    &&& packs[pack].identified()[at] == oid
}

/// The entry that an object is taken from is one that holds it, and no earlier
/// one does.
pub proof fn an_object_is_taken_from_where_it_first_arrived(packs: Seq<WirePack>, oid: ObjectId)
    ensures
        first_arrival(packs, oid) matches Some(at) ==> {
            &&& holds_at(packs, at.pack as int, at.at as int, oid)
            &&& forall|pack: usize, i: usize| #[trigger]
                holds_at(packs, pack as int, i as int, oid) ==> at.pack < pack || at.pack == pack
                    && at.at <= i
        },
{
    if let Some(at) = first_arrival(packs, oid) {
        assert(crate::ingest::pack::arrives_first_at(packs, at, oid));
        assert forall|pack: usize, i: usize| #[trigger]
            holds_at(packs, pack as int, i as int, oid) implies at.pack < pack || at.pack == pack
            && at.at <= i by {
            let other = WireRef { pack, at: i };
            assert(crate::ingest::pack::arrives_at(packs, other, oid));
        }
    }
}

/// What an entry deltas against is what the entry says: nothing where it is
/// whole, the object of the entry that it names where that is in its own pack,
/// and else the object that it names.
pub proof fn a_delta_s_base_is_the_one_it_names(packs: Seq<WirePack>, at: WireRef)
    requires
        at.pack < packs.len(),
        at.at < packs[at.pack as int].scanned().len(),
    ensures
        ({
            let pack = packs[at.pack as int];
            let entry = pack.scanned()[at.at as int];
            &&& base_sent(packs, at) == Ok::<Option<ObjectId>, Error>(None) <==> entry.base is Whole
            &&& forall|base: ObjectId|
                base_sent(packs, at) == Ok::<Option<ObjectId>, Error>(Some(base)) <==> {
                    ||| #[trigger] is_ref_to(entry.base, base)
                    ||| entry.base matches EntryBase::InPack(n) && n < pack.identified().len()
                        && pack.identified()[n as int] == base
                }
            &&& base_sent(packs, at) is Err <==> (entry.base matches EntryBase::InPack(n) && n
                >= pack.identified().len())
        }),
{
}

/// Whether a base is named by its id.
pub open spec fn is_ref_to(base: EntryBase, oid: ObjectId) -> bool {
    base matches EntryBase::Ref(named) && named == oid
}

/// Whether a pack is known to hold a base: this push stores it there, or it was
/// stored there before.
pub open spec fn is_home_of(
    home: ObjectId,
    base: ObjectId,
    homes: Map<ObjectId, Seq<ObjectId>>,
    older_homes: Map<ObjectId, ObjectId>,
) -> bool {
    ||| homes.contains_key(base) && homes[base].contains(home)
    ||| older_homes.contains_key(base) && older_homes[base] == home
}

/// The homes of a base are those where this push stores it and the one where it
/// was stored before.
pub proof fn a_base_is_at_home_where_it_is_stored(
    base: ObjectId,
    homes: Map<ObjectId, Seq<ObjectId>>,
    older_homes: Map<ObjectId, ObjectId>,
    home: ObjectId,
)
    ensures
        homes_of(base, homes, older_homes).contains(home) <==> is_home_of(
            home,
            base,
            homes,
            older_homes,
        ),
{
    let stored = if homes.contains_key(base) {
        homes[base]
    } else {
        Seq::empty()
    };
    if older_homes.contains_key(base) {
        crate::ingest::lists::lemma_push_contains(stored, older_homes[base], home);
    }
}

/// Whether a commit's pack may delta against a base: the base is in the pack
/// itself, or in one of a commit that is proven to come before.
pub open spec fn may_delta(
    commit: ObjectId,
    base: ObjectId,
    homes: Map<ObjectId, Seq<ObjectId>>,
    older_homes: Map<ObjectId, ObjectId>,
    proven: Set<Query>,
) -> bool {
    exists|home: ObjectId| #[trigger]
        is_home_of(home, base, homes, older_homes) && (home == commit || proven.contains(
            Query { target: commit, home },
        ))
}

/// A planned entry is stored as it arrived where it arrived whole, or as a delta
/// against what its pack may delta against; it stays as planned where it did not
/// arrive, and where it arrived against anything else.
pub proof fn what_arrived_is_stored_as_it_arrived(
    entry: DeltaEntry,
    commit: ObjectId,
    packs: Seq<WirePack>,
    homes: Map<ObjectId, Seq<ObjectId>>,
    older_homes: Map<ObjectId, ObjectId>,
    proven: Set<Query>,
)
    ensures
        ({
            let kept = kept_as(entry, commit, packs, homes, older_homes, proven);
            match first_arrival(packs, entry.oid) {
                None => kept == Ok::<DeltaEntry, Error>(entry),
                Some(at) => match base_sent(packs, at) {
                    Err(error) => kept == Err::<DeltaEntry, Error>(error),
                    Ok(base) => {
                        &&& kept matches Ok(stored)
                        &&& stored.oid == entry.oid && stored.kind == entry.kind
                        &&& if base is None || may_delta(
                            commit,
                            base->0,
                            homes,
                            older_homes,
                            proven,
                        ) {
                            stored.base == base && stored.source == EntrySource::Wire(at)
                        } else {
                            stored == entry
                        }
                    },
                },
            }
        }),
{
    if let Some(at) = first_arrival(packs, entry.oid) {
        if let Ok(Some(base)) = base_sent(packs, at) {
            let found = homes_of(base, homes, older_homes);
            if is_reachable(commit, base, homes, older_homes, proven) {
                let i = choose|i: int|
                    0 <= i < found.len() && {
                        let home = #[trigger] found[i];
                        home == commit || proven.contains(Query { target: commit, home })
                    };
                assert(found.contains(found[i]));
                a_base_is_at_home_where_it_is_stored(base, homes, older_homes, found[i]);
            }
            if may_delta(commit, base, homes, older_homes, proven) {
                let home = choose|home: ObjectId| #[trigger]
                    is_home_of(home, base, homes, older_homes) && (home == commit
                        || proven.contains(Query { target: commit, home }));
                a_base_is_at_home_where_it_is_stored(base, homes, older_homes, home);
                let i = choose|i: int| 0 <= i < found.len() && found[i] == home;
                assert(found[i] == home);
            }
        }
    }
}

/// What decides whether a delta may be kept is asked about, and nothing else is:
/// for each of the deltas that arrived, whether each home of its base, other
/// than the delta's own pack, comes before.
pub proof fn each_home_of_a_delta_is_asked_about(
    deltas: Seq<(ObjectId, ObjectId)>,
    homes: Map<ObjectId, Seq<ObjectId>>,
    older_homes: Map<ObjectId, ObjectId>,
    query: Query,
)
    ensures
        is_asked(query, deltas, homes, older_homes) <==> query.home != query.target && exists|i: int|
            0 <= i < deltas.len() && (#[trigger] deltas[i]).0 == query.target && is_home_of(
                query.home,
                deltas[i].1,
                homes,
                older_homes,
            ),
{
    assert forall|i: int| 0 <= i < deltas.len() implies homes_of(
        (#[trigger] deltas[i]).1,
        homes,
        older_homes,
    ).contains(query.home) == is_home_of(query.home, deltas[i].1, homes, older_homes) by {
        a_base_is_at_home_where_it_is_stored(deltas[i].1, homes, older_homes, query.home);
    }
}

/// A commit's own entry is the client's where that arrived whole, and is encoded
/// here otherwise: it is never a delta.
pub proof fn a_commit_s_entry_is_whole(packs: Seq<WirePack>, commit: ObjectId)
    ensures
        match commit_source(packs, commit) {
            EntrySource::Wire(at) => {
                &&& first_arrival(packs, commit) == Some(at)
                &&& at.pack < packs.len()
                &&& at.at < packs[at.pack as int].scanned().len()
                &&& packs[at.pack as int].scanned()[at.at as int].base is Whole
            },
            EntrySource::Encoded => first_arrival(packs, commit) matches Some(at)
                ==> at.pack < packs.len() && at.at < packs[at.pack as int].scanned().len()
                ==> !(packs[at.pack as int].scanned()[at.at as int].base is Whole),
        },
{
}

/// What an object arrived against is what its first entry deltas against;
/// nothing where it did not arrive.
pub proof fn a_delta_sent_is_that_of_the_first_arrival(packs: Seq<WirePack>, oid: ObjectId)
    ensures
        first_arrival(packs, oid) is None ==> delta_sent(packs, oid) == Ok::<
            Option<ObjectId>,
            Error,
        >(None),
        first_arrival(packs, oid) matches Some(at) ==> delta_sent(packs, oid) == base_sent(
            packs,
            at,
        ),
{
}

/// A tree's chain is bounded by the trees' limit, and every other by the blobs'.
pub proof fn each_kind_has_its_limit(kind: Kind)
    ensures
        kind is Tree ==> chain_limit(kind) == MAX_TREE_CHAIN,
        !(kind is Tree) ==> chain_limit(kind) == MAX_BLOB_CHAIN,
{
}

/// Of two places one comes before the other, unless they are the same, and
/// everything stored comes before everything in the push.
pub proof fn places_are_in_one_order(a: Placed, b: Placed, c: Placed)
    ensures
        !a.precedes(a),
        a.precedes(b) ==> !b.precedes(a),
        a.precedes(b) && b.precedes(c) ==> a.precedes(c),
        a != b ==> a.precedes(b) || b.precedes(a),
        a is Stored && b is InPush ==> a.precedes(b),
        a matches Placed::Stored(m) && b matches Placed::Stored(n) && m < n ==> a.precedes(b),
        a matches Placed::InPush(m) && b matches Placed::InPush(n) && m < n ==> a.precedes(b),
{
}

/// An object stands where it is stored, or where it is in the push; where it is
/// both, the caller says which counts.
pub proof fn an_object_stands_where_it_is(
    oid: ObjectId,
    stored_at: Map<ObjectId, i64>,
    rank: Map<ObjectId, usize>,
    prefer_stored: bool,
)
    ensures
        place(oid, stored_at, rank, prefer_stored) is None <==> !stored_at.contains_key(oid)
            && !rank.contains_key(oid),
        stored_at.contains_key(oid) && !rank.contains_key(oid) ==> place(
            oid,
            stored_at,
            rank,
            prefer_stored,
        ) == Some(Placed::Stored(stored_at[oid])),
        !stored_at.contains_key(oid) && rank.contains_key(oid) ==> place(
            oid,
            stored_at,
            rank,
            prefer_stored,
        ) == Some(Placed::InPush(rank[oid])),
        stored_at.contains_key(oid) && rank.contains_key(oid) ==> place(
            oid,
            stored_at,
            rank,
            prefer_stored,
        ) == Some(
            if prefer_stored {
                Placed::Stored(stored_at[oid])
            } else {
                Placed::InPush(rank[oid])
            },
        ),
{
}

/// An entry that is made whole is the same object without a base; bytes that
/// were a delta are not kept, and others are.
pub proof fn a_whole_entry_has_no_base(entry: DeltaEntry)
    ensures
        whole(entry).oid == entry.oid,
        whole(entry).kind == entry.kind,
        whole(entry).base is None,
        entry.base is Some ==> whole(entry).source is Encoded,
        entry.base is None ==> whole(entry) == entry,
{
}

/// Whether a base is known to be within a chain that may grow by one more.
pub open spec fn has_room(
    walk: Walk,
    base: ObjectId,
    kind: Kind,
    older: Map<ObjectId, u32>,
) -> bool {
    let limit = if kind is Tree {
        MAX_TREE_CHAIN
    } else {
        MAX_BLOB_CHAIN
    };
    if walk.depth.contains_key(base) {
        walk.depth[base] < limit
    } else {
        older.contains_key(base) && older[base] < limit
    }
}

/// A delta keeps its base exactly where the base's chain has room for it and the
/// base does not stand after it; otherwise it is made whole. What is whole stays
/// as it is.
pub proof fn a_delta_keeps_a_base_with_room(
    walk: Walk,
    entry: DeltaEntry,
    older: Map<ObjectId, u32>,
    stored_at: Map<ObjectId, i64>,
)
    ensures
        ({
            let kept = walk.kept(entry, older, stored_at);
            let own = place(entry.oid, stored_at, walk.rank, true);
            let base = place(entry.base->0, stored_at, walk.rank, false);
            let stands_after = own is Some && base is Some && !base->0.precedes(own->0);
            &&& kept.oid == entry.oid && kept.kind == entry.kind
            &&& entry.base is None ==> kept == entry
            &&& entry.base is Some ==> if has_room(walk, entry.base->0, entry.kind, older)
                && !stands_after {
                kept == entry
            } else {
                kept.base is None && kept.source is Encoded
            }
        }),
{
}

/// What was walked past stands where it was first met, at one more than its
/// base, and after everything met before it; nothing else moves.
pub proof fn an_entry_stands_one_past_its_base(
    walk: Walk,
    kept: DeltaEntry,
    older: Map<ObjectId, u32>,
    other: ObjectId,
)
    ensures
        ({
            let next = walk.past(kept, older);
            &&& next.depth.contains_key(kept.oid) && next.rank.contains_key(kept.oid)
            &&& walk.depth.contains_key(kept.oid) ==> next.depth[kept.oid] == walk.depth[kept.oid]
            &&& walk.rank.contains_key(kept.oid) ==> next.rank[kept.oid] == walk.rank[kept.oid]
            &&& !walk.depth.contains_key(kept.oid) ==> match kept.base {
                None => next.depth[kept.oid] == 0,
                Some(base) => {
                    &&& walk.depth.contains_key(base) && walk.depth[base] < u32::MAX
                        ==> next.depth[kept.oid] == walk.depth[base] + 1
                    &&& !walk.depth.contains_key(base) && older.contains_key(base) && older[base]
                        < u32::MAX ==> next.depth[kept.oid] == older[base] + 1
                },
            }
            &&& !walk.rank.contains_key(kept.oid) && walk.rank.len() <= usize::MAX
                ==> next.rank[kept.oid] == walk.rank.len()
            &&& other != kept.oid ==> {
                &&& next.depth.contains_key(other) <==> walk.depth.contains_key(other)
                &&& next.depth[other] == walk.depth[other]
                &&& next.rank.contains_key(other) <==> walk.rank.contains_key(other)
                &&& next.rank[other] == walk.rank[other]
            }
        }),
{
}

/// Whether a commit's pack has an entry of an object.
pub open spec fn is_stored_by(
    packs: Map<ObjectId, Seq<DeltaEntry>>,
    commit: ObjectId,
    oid: ObjectId,
) -> bool {
    packs.contains_key(commit) && exists|i: int|
        0 <= i < packs[commit].len() && (#[trigger] packs[commit][i]).oid == oid
}

/// The homes of an object in a push are the commits whose packs have an entry of
/// it.
pub proof fn an_object_is_at_home_in_every_pack_that_has_it(
    packs: Map<ObjectId, Seq<DeltaEntry>>,
    oid: ObjectId,
    commit: ObjectId,
)
    ensures
        is_home(packs, oid, commit) <==> is_stored_by(packs, commit, oid),
{
    if is_home(packs, oid, commit) {
        let entry = choose|entry: DeltaEntry| #[trigger]
            plans(packs, commit, entry) && entry.oid == oid;
        let i = choose|i: int| 0 <= i < packs[commit].len() && packs[commit][i] == entry;
        assert(packs[commit][i].oid == oid);
    }
    if is_stored_by(packs, commit, oid) {
        let i = choose|i: int|
            0 <= i < packs[commit].len() && (#[trigger] packs[commit][i]).oid == oid;
        assert(plans(packs, commit, packs[commit][i]));
    }
}

/// An object is stored by a push where a pack of it has an entry of it, as a
/// delta where one has it against a base, and is deltaed against where an entry
/// of a pack is against it.
pub proof fn a_push_stores_what_its_packs_have(
    packs: Map<ObjectId, Seq<DeltaEntry>>,
    oid: ObjectId,
)
    ensures
        stores(packs, oid) <==> exists|commit: ObjectId, i: int|
            packs.contains_key(commit) && 0 <= i < packs[commit].len() && (
            #[trigger] packs[commit][i]).oid == oid,
        stores_delta(packs, oid) <==> exists|commit: ObjectId, i: int|
            packs.contains_key(commit) && 0 <= i < packs[commit].len() && (
            #[trigger] packs[commit][i]).oid == oid && packs[commit][i].base is Some,
        deltas_on(packs, oid) <==> exists|commit: ObjectId, i: int|
            packs.contains_key(commit) && 0 <= i < packs[commit].len() && (
            #[trigger] packs[commit][i]).base == Some(oid),
{
    if stores(packs, oid) {
        let entry = choose|entry: DeltaEntry| #[trigger]
            has_entry(packs, entry) && entry.oid == oid;
        lemma_entry_stands(packs, entry);
    }
    if stores_delta(packs, oid) {
        let entry = choose|entry: DeltaEntry| #[trigger]
            has_entry(packs, entry) && entry.oid == oid && entry.base is Some;
        lemma_entry_stands(packs, entry);
    }
    if deltas_on(packs, oid) {
        let entry = choose|entry: DeltaEntry| #[trigger]
            has_entry(packs, entry) && entry.base == Some(oid);
        lemma_entry_stands(packs, entry);
    }
    assert forall|commit: ObjectId, i: int|
        packs.contains_key(commit) && 0 <= i < packs[commit].len() implies has_entry(
        packs,
        #[trigger] packs[commit][i],
    ) by {
        assert(packs.contains_key(commit) && packs[commit].contains(packs[commit][i]));
    }
}

proof fn lemma_entry_stands(packs: Map<ObjectId, Seq<DeltaEntry>>, entry: DeltaEntry)
    requires
        has_entry(packs, entry),
    ensures
        exists|commit: ObjectId, i: int|
            packs.contains_key(commit) && 0 <= i < packs[commit].len()
                && #[trigger] packs[commit][i] == entry,
{
    let commit = choose|commit: ObjectId| #[trigger]
        packs.contains_key(commit) && packs[commit].contains(entry);
    let i = choose|i: int| 0 <= i < packs[commit].len() && packs[commit][i] == entry;
    assert(packs[commit][i] == entry);
}

/// The homes to look for in the store are those that are asked about and that
/// the push does not bring.
pub proof fn a_home_outside_the_push_is_stored(
    queries: Seq<Query>,
    push: Map<ObjectId, Vec<ObjectId>>,
    home: ObjectId,
)
    ensures
        is_stored_home(queries, push, home) <==> !push.contains_key(home) && exists|i: int|
            0 <= i < queries.len() && (#[trigger] queries[i]).home == home,
{
}

proof fn lemma_pack_walked(
    entries: Seq<DeltaEntry>,
    walk: Walk,
    older: Map<ObjectId, u32>,
    stored_at: Map<ObjectId, i64>,
    oid: ObjectId,
)
    ensures
        ({
            let (kept, after) = bound_pack(entries, walk, older, stored_at);
            &&& kept.len() == entries.len()
            &&& walk.depth.contains_key(oid) ==> after.depth.contains_key(oid) && after.depth[oid]
                == walk.depth[oid]
            &&& walk.rank.contains_key(oid) ==> after.rank.contains_key(oid) && after.rank[oid]
                == walk.rank[oid]
            &&& (exists|i: int| 0 <= i < entries.len() && (#[trigger] entries[i]).oid == oid)
                ==> after.depth.contains_key(oid) && after.rank.contains_key(oid)
        }),
    decreases entries.len(),
{
    if entries.len() > 0 {
        let rest = entries.drop_last();
        lemma_pack_walked(rest, walk, older, stored_at, oid);
        let (_, before) = bound_pack(rest, walk, older, stored_at);
        let kept = before.kept(entries.last(), older, stored_at);
        a_delta_keeps_a_base_with_room(before, entries.last(), older, stored_at);
        an_entry_stands_one_past_its_base(before, kept, older, oid);
        if exists|i: int| 0 <= i < entries.len() && (#[trigger] entries[i]).oid == oid {
            let i = choose|i: int| 0 <= i < entries.len() && (#[trigger] entries[i]).oid == oid;
            if i < rest.len() {
                assert(rest[i].oid == oid);
            }
        }
    }
}

/// What the packs before stored stays at hand for those that follow: bounding
/// one more pack keeps the depth and the place of everything that was met, and
/// everything in the pack has its own.
pub proof fn what_was_met_stays_at_hand(
    order: Seq<ObjectId>,
    commit: ObjectId,
    packs: Map<ObjectId, Seq<DeltaEntry>>,
    older: Map<ObjectId, u32>,
    stored_at: Map<ObjectId, i64>,
    oid: ObjectId,
)
    ensures
        ({
            let before = bound_packs(order, packs, older, stored_at).1;
            let after = bound_packs(order.push(commit), packs, older, stored_at).1;
            &&& before.depth.contains_key(oid) ==> after.depth.contains_key(oid)
                && after.depth[oid] == before.depth[oid]
            &&& before.rank.contains_key(oid) ==> after.rank.contains_key(oid) && after.rank[oid]
                == before.rank[oid]
            &&& packs.contains_key(commit) && (exists|i: int|
                0 <= i < packs[commit].len() && (#[trigger] packs[commit][i]).oid == oid)
                ==> after.depth.contains_key(oid) && after.rank.contains_key(oid)
        }),
{
    let (bounded, walk) = bound_packs(order, packs, older, stored_at);
    assert(order.push(commit).drop_last() =~= order);
    if bounded.contains_key(commit) {
        lemma_pack_walked(bounded[commit], walk, older, stored_at, oid);
    }
    if packs.contains_key(commit) && exists|i: int|
        0 <= i < packs[commit].len() && (#[trigger] packs[commit][i]).oid == oid {
        let i = choose|i: int|
            0 <= i < packs[commit].len() && (#[trigger] packs[commit][i]).oid == oid;
        crate::ingest::chains::bounding_only_drops_bases(
            order,
            packs,
            older,
            stored_at,
            commit,
            i,
        );
        a_whole_entry_has_no_base(packs[commit][i]);
        assert(bounded[commit][i].oid == oid);
    }
}

} // verus!
