//! Where the bytes of each entry come from.

use vstd::prelude::*;

use crate::error::Error;
use crate::ingest::lists::{distinct, IdList};
use crate::ingest::pack::{WirePack, WirePacks};
use crate::ingest::plan::{DeltaEntry, DeltaPlan, EntrySource, WireRef};
use crate::ingest::progress::as_u64;
use crate::ingest::staging::encodings::{
    place_fits, staged, StagedEncodings, StagedObjectLocation,
};
use crate::model::ObjectMeta;
use crate::object::{Kind, ObjectId};
use crate::objects::location::Ulid;
use crate::ordmap::{stands_at, OrdMap};

verus! {

/// Where an entry's bytes come from.
#[derive(Clone, Copy, Debug, PartialEq, Eq, Structural)]
pub enum Body {
    /// Kept from the pack that the client sent, which is in memory.
    Wire {
        at: WireRef,
        /// What it inflates to.
        length: u64,
        compressed_len: u64,
    },
    /// Staged by this push.
    Staged {
        chunk_id: u32,
        from: usize,
        to: usize,
        /// What it inflates to.
        length: u64,
    },
    /// Stored by an earlier push: the whole entry is passed on as it is, and
    /// says for itself what it inflates to.
    Indexed { segment: Ulid, start: u64, entry_len: u64 },
}

/// One entry of an image, with the encoding that it got.
#[derive(Clone, Copy, Debug, PartialEq, Eq, Structural)]
pub struct Chosen {
    pub oid: ObjectId,
    pub kind: Kind,
    pub base: Option<ObjectId>,
    pub body: Body,
}

/// One commit's image, before its bytes have places.
#[derive(Clone, Copy, Debug)]
pub struct PlannedCommit<'a> {
    pub commit_oid: ObjectId,
    /// Where the commit's own entry comes from.
    pub source: EntrySource,
    /// The other entries, in the order in which they are written.
    pub entries: &'a [DeltaEntry],
}

/// The three places an entry's bytes can come from, in the order in which they
/// are asked.
#[derive(Clone, Copy, Debug)]
pub struct Sources<'a> {
    pub wire: &'a WirePacks,
    pub chunk_index: &'a OrdMap<ObjectId, StagedEncodings>,
    pub prefetched: &'a OrdMap<ObjectId, ObjectMeta>,
}

/// What is staged for an entry, and what that deltas against: the encoding that
/// the plan asks for, else the object itself, which was staged instead where
/// the delta would have been no shorter.
pub open spec fn staged_for(
    held: Map<Option<ObjectId>, StagedObjectLocation>,
    base: Option<ObjectId>,
) -> Option<(Option<ObjectId>, StagedObjectLocation)> {
    if held.contains_key(base) {
        Some((base, held[base]))
    } else if held.contains_key(None) {
        Some((None, held[None]))
    } else {
        None
    }
}

/// What is staged of an object.
pub open spec fn staged_of(
    index: Map<ObjectId, Map<Option<ObjectId>, StagedObjectLocation>>,
    oid: ObjectId,
) -> Map<Option<ObjectId>, StagedObjectLocation> {
    if index.contains_key(oid) {
        index[oid]
    } else {
        Map::empty()
    }
}

/// Whether no place that is staged runs past what can be counted.
pub open spec fn fit(
    index: Map<ObjectId, Map<Option<ObjectId>, StagedObjectLocation>>,
) -> bool {
    forall|oid: ObjectId, base: Option<ObjectId>| #[trigger]
        staged_of(index, oid).contains_key(base) ==> place_fits(staged_of(index, oid)[base])
}

/// Whether no place that is staged runs past what can be counted.
pub fn all_fit(index: &OrdMap<ObjectId, StagedEncodings>) -> (fits: bool)
    ensures
        fits == fit(staged(index@)),
{
    let pairs = index.as_entries();
    let ghost held = staged(index@);
    let mut i: usize = 0;
    while i < pairs.len()
        invariant
            i <= pairs@.len(),
            held == staged(index@),
            forall|k: int|
                0 <= k < pairs@.len() ==> index@.contains_key((#[trigger] pairs@[k]).0)
                    && index@[pairs@[k].0] == pairs@[k].1,
            forall|k: int, base: Option<ObjectId>|
                0 <= k < i && #[trigger] pairs@[k].1@.contains_key(base) ==> place_fits(
                    pairs@[k].1@[base],
                ),
        decreases pairs@.len() - i,
    {
        if !pairs[i].1.fits() {
            proof {
                let (oid, encodings) = pairs@[i as int];
                let base = choose|base: Option<ObjectId>| #[trigger]
                    encodings@.contains_key(base) && !place_fits(encodings@[base]);
                assert(staged_of(held, oid) == encodings@);
                assert(staged_of(held, oid).contains_key(base));
            }
            return false;
        }
        i += 1;
    }
    proof {
        assert forall|oid: ObjectId, base: Option<ObjectId>| #[trigger]
            staged_of(held, oid).contains_key(base) implies place_fits(
            staged_of(held, oid)[base],
        ) by {
            assert(index@.contains_key(oid));
            let k = choose|k: int| stands_at(pairs@, oid, k);
            assert(pairs@[k].0 == oid);
            assert(pairs@[k].1@.contains_key(base));
        }
    }
    true
}

/// What is chosen for an entry that the client's bytes are kept of.
pub open spec fn wire_choice(
    entry: DeltaEntry,
    at: WireRef,
    packs: Seq<WirePack>,
) -> Result<Chosen, Error> {
    if at.pack >= packs.len() {
        Err(Error::NoSuchPack)
    } else {
        match packs[at.pack as int].body_of(at.at) {
            Err(error) => Err(error),
            Ok(body) => Ok(
                Chosen {
                    oid: entry.oid,
                    kind: entry.kind,
                    base: entry.base,
                    body: Body::Wire {
                        at,
                        length: packs[at.pack as int].scanned()[at.at as int].decompressed_size,
                        compressed_len: body.len() as u64,
                    },
                },
            ),
        }
    }
}

/// What is chosen for an entry that only an earlier push has.
pub open spec fn stored_choice(entry: DeltaEntry, metas: Map<ObjectId, ObjectMeta>) -> Result<
    Chosen,
    Error,
> {
    if !metas.contains_key(entry.oid) {
        Err(Error::ObjectUnplaced)
    } else {
        match metas[entry.oid].location {
            None => Err(Error::ObjectUnlocated),
            Some(location) => if location.image.base is Some {
                Err(Error::StoredAsDelta)
            } else if location.segment.base_offset + location.image.offset > u64::MAX {
                Err(Error::PackOffset)
            } else {
                Ok(
                    Chosen {
                        oid: entry.oid,
                        kind: entry.kind,
                        base: None,
                        body: Body::Indexed {
                            segment: location.segment.id,
                            start: (location.segment.base_offset + location.image.offset) as u64,
                            entry_len: location.image.entry_len,
                        },
                    },
                )
            },
        }
    }
}

/// What is chosen for an entry, or why nothing can be.
pub open spec fn choice(
    entry: DeltaEntry,
    packs: Seq<WirePack>,
    index: Map<ObjectId, Map<Option<ObjectId>, StagedObjectLocation>>,
    metas: Map<ObjectId, ObjectMeta>,
) -> Result<Chosen, Error> {
    match entry.source {
        EntrySource::Wire(at) => wire_choice(entry, at, packs),
        EntrySource::Encoded => match staged_for(staged_of(index, entry.oid), entry.base) {
            Some((base, loc)) => Ok(
                Chosen {
                    oid: entry.oid,
                    kind: entry.kind,
                    base,
                    body: Body::Staged {
                        chunk_id: loc.chunk_id,
                        from: loc.offset,
                        to: (loc.offset + loc.compressed_len) as usize,
                        length: loc.decompressed_len as u64,
                    },
                },
            ),
            None => stored_choice(entry, metas),
        },
    }
}

/// Choose for an entry that is kept from the client's pack.
///
/// A delta's bytes do not say what it deltas against, only an entry's header
/// does: naming another base rewrites the header and leaves the body as it is.
fn plan_wire_entry(entry: DeltaEntry, at: WireRef, wire: &WirePacks) -> (chosen: Result<
    Chosen,
    Error,
>)
    ensures
        chosen == wire_choice(entry, at, wire@),
{
    let body = match wire.body(at) {
        Ok(body) => body,
        Err(error) => {
            return Err(error);
        },
    };
    // Of a delta this is the length of its instructions, as in the pack.
    let length: u64 = match wire.entry(at) {
        Ok(entry) => entry.decompressed_size,
        Err(error) => {
            return Err(error);
        },
    };
    Ok(
        Chosen {
            oid: entry.oid,
            kind: entry.kind,
            base: entry.base,
            body: Body::Wire { at, length, compressed_len: as_u64(body.len()) },
        },
    )
}

/// Choose where an entry's bytes come from.
pub fn plan_entry(entry: DeltaEntry, index: &Sources<'_>) -> (chosen: Result<Chosen, Error>)
    requires
        fit(staged(index.chunk_index@)),
    ensures
        chosen == choice(
            entry,
            index.wire@,
            staged(index.chunk_index@),
            index.prefetched@,
        ),
{
    if let EntrySource::Wire(at) = entry.source {
        return plan_wire_entry(entry, at, index.wire);
    }
    let ghost held = staged_of(staged(index.chunk_index@), entry.oid);
    let found = match index.chunk_index.get(&entry.oid) {
        Some(encodings) => match encodings.against(entry.base) {
            Some(loc) => Some((entry.base, loc)),
            None => match encodings.whole() {
                Some(loc) => Some((None, loc)),
                None => None,
            },
        },
        None => None,
    };
    assert(found == staged_for(held, entry.base));
    if let Some((base, loc)) = found {
        assert(held.contains_key(base));
        return Ok(
            Chosen {
                oid: entry.oid,
                kind: entry.kind,
                base,
                body: Body::Staged {
                    chunk_id: loc.chunk_id,
                    from: loc.offset,
                    to: loc.offset + loc.compressed_len,
                    length: as_u64(loc.decompressed_len),
                },
            },
        );
    }
    let location = match index.prefetched.get(&entry.oid) {
        Some(meta) => match meta.location {
            Some(location) => location,
            None => {
                return Err(Error::ObjectUnlocated);
            },
        },
        None => {
            return Err(Error::ObjectUnplaced);
        },
    };
    // Passing a stored entry on passes its base on, which need not be an
    // ancestor of this commit. What is stored as a delta was to be staged
    // whole.
    if location.image.base.is_some() {
        return Err(Error::StoredAsDelta);
    }
    let start: u64 = match location.segment.base_offset.checked_add(location.image.offset) {
        Some(start) => start,
        None => {
            return Err(Error::PackOffset);
        },
    };
    Ok(
        Chosen {
            oid: entry.oid,
            kind: entry.kind,
            base: None,
            body: Body::Indexed {
                segment: location.segment.id,
                start,
                entry_len: location.image.entry_len,
            },
        },
    )
}

/// Whether a planned commit is what the plan says of it.
pub open spec fn is_planned(
    commits: Map<ObjectId, EntrySource>,
    packs: Map<ObjectId, Vec<DeltaEntry>>,
    oid: ObjectId,
    planned: PlannedCommit<'_>,
) -> bool {
    &&& planned.commit_oid == oid
    &&& planned.source == (if commits.contains_key(oid) {
        commits[oid]
    } else {
        EntrySource::Encoded
    })
    &&& planned.entries@ == (if packs.contains_key(oid) {
        packs[oid]@
    } else {
        Seq::empty()
    })
}

/// Each commit with what the plan says of it. One whose bytes the push never
/// received comes back out of staging.
pub fn planned_commits<'a>(ordered: &[ObjectId], plan: &'a DeltaPlan) -> (planned: Vec<
    PlannedCommit<'a>,
>)
    ensures
        planned@.len() == ordered@.len(),
        forall|i: int|
            0 <= i < ordered@.len() ==> is_planned(
                plan.commits@,
                plan.packs@,
                ordered@[i],
                #[trigger] planned@[i],
            ),
{
    let mut planned: Vec<PlannedCommit<'a>> = Vec::new();
    let mut i: usize = 0;
    while i < ordered.len()
        invariant
            i <= ordered@.len(),
            planned@.len() == i,
            forall|k: int|
                0 <= k < i ==> is_planned(
                    plan.commits@,
                    plan.packs@,
                    ordered@[k],
                    #[trigger] planned@[k],
                ),
        decreases ordered@.len() - i,
    {
        let commit_oid = ordered[i];
        let source = match plan.commits.get(&commit_oid) {
            Some(source) => *source,
            None => EntrySource::Encoded,
        };
        let entries: &'a [DeltaEntry] = match plan.packs.get(&commit_oid) {
            Some(entries) => entries.as_slice(),
            None => {
                let none: &'a [DeltaEntry] = &[];
                assert(none@ =~= Seq::<DeltaEntry>::empty());
                none
            },
        };
        planned.push(PlannedCommit { commit_oid, source, entries });
        i += 1;
    }
    planned
}

/// The entries of a commit's image: the commit itself, always whole, leads.
pub open spec fn image_entries(commit: PlannedCommit<'_>) -> Seq<DeltaEntry> {
    seq![
        DeltaEntry {
            oid: commit.commit_oid,
            kind: Kind::Commit,
            base: None,
            source: commit.source,
        },
    ] + commit.entries@
}

/// What is chosen for a run of entries, or why the first that cannot be had
/// cannot.
pub open spec fn choices(
    entries: Seq<DeltaEntry>,
    packs: Seq<WirePack>,
    index: Map<ObjectId, Map<Option<ObjectId>, StagedObjectLocation>>,
    metas: Map<ObjectId, ObjectMeta>,
) -> Result<Seq<Chosen>, Error>
    decreases entries.len(),
{
    if entries.len() == 0 {
        Ok(Seq::empty())
    } else {
        match choices(entries.drop_last(), packs, index, metas) {
            Err(error) => Err(error),
            Ok(chosen) => match choice(entries.last(), packs, index, metas) {
                Err(error) => Err(error),
                Ok(last) => Ok(chosen.push(last)),
            },
        }
    }
}

proof fn lemma_choices_refused(
    entries: Seq<DeltaEntry>,
    packs: Seq<WirePack>,
    index: Map<ObjectId, Map<Option<ObjectId>, StagedObjectLocation>>,
    metas: Map<ObjectId, ObjectMeta>,
    n: int,
    error: Error,
)
    requires
        0 <= n <= entries.len(),
        choices(entries.take(n), packs, index, metas) == Err::<Seq<Chosen>, Error>(error),
    ensures
        choices(entries, packs, index, metas) == Err::<Seq<Chosen>, Error>(error),
    decreases entries.len() - n,
{
    if n < entries.len() {
        assert(entries.take(n + 1).drop_last() =~= entries.take(n));
        lemma_choices_refused(entries, packs, index, metas, n + 1, error);
    } else {
        assert(entries.take(n) =~= entries);
    }
}

/// Choose for every entry of a commit's image.
pub fn choose_entries(commit: &PlannedCommit<'_>, index: &Sources<'_>) -> (chosen: Result<
    Vec<Chosen>,
    Error,
>)
    requires
        fit(staged(index.chunk_index@)),
    ensures
        match chosen {
            Ok(chosen) => choices(
                image_entries(*commit),
                index.wire@,
                staged(index.chunk_index@),
                index.prefetched@,
            ) == Ok::<Seq<Chosen>, Error>(chosen@),
            Err(error) => choices(
                image_entries(*commit),
                index.wire@,
                staged(index.chunk_index@),
                index.prefetched@,
            ) == Err::<Seq<Chosen>, Error>(error),
        },
{
    let ghost all = image_entries(*commit);
    let ghost packs = index.wire@;
    let ghost held = staged(index.chunk_index@);
    let ghost metas = index.prefetched@;
    let mut chosen: Vec<Chosen> = Vec::new();
    let own = DeltaEntry {
        oid: commit.commit_oid,
        kind: Kind::Commit,
        base: None,
        source: commit.source,
    };
    assert(all.take(1).drop_last() =~= Seq::<DeltaEntry>::empty());
    assert(all.take(1).last() == own);
    assert(choices(Seq::empty(), packs, held, metas) == Ok::<Seq<Chosen>, Error>(Seq::empty()));
    match plan_entry(own, index) {
        Ok(entry) => {
            chosen.push(entry);
        },
        Err(error) => {
            proof {
                lemma_choices_refused(all, packs, held, metas, 1, error);
            }
            return Err(error);
        },
    }
    assert(chosen@ =~= Seq::<Chosen>::empty().push(chosen@[0]));
    let mut i: usize = 0;
    while i < commit.entries.len()
        invariant
            i <= commit.entries@.len(),
            all == image_entries(*commit),
            packs == index.wire@,
            held == staged(index.chunk_index@),
            metas == index.prefetched@,
            fit(held),
            choices(all.take(i as int + 1), packs, held, metas) == Ok::<Seq<Chosen>, Error>(
                chosen@,
            ),
        decreases commit.entries@.len() - i,
    {
        proof {
            assert(all.take(i as int + 2).drop_last() =~= all.take(i as int + 1));
            assert(all.take(i as int + 2).last() == commit.entries@[i as int]);
        }
        match plan_entry(commit.entries[i], index) {
            Ok(entry) => {
                chosen.push(entry);
            },
            Err(error) => {
                proof {
                    lemma_choices_refused(all, packs, held, metas, i as int + 2, error);
                }
                return Err(error);
            },
        }
        i += 1;
    }
    assert(all.take(i as int + 1) =~= all);
    Ok(chosen)
}

/// Whether an entry may have to be read from where an earlier push stored it:
/// neither the client's bytes are kept nor is the encoding staged.
pub open spec fn may_be_stored(
    entry: DeltaEntry,
    index: Map<ObjectId, Map<Option<ObjectId>, StagedObjectLocation>>,
) -> bool {
    !(entry.source is Wire) && !staged_of(index, entry.oid).contains_key(entry.base)
}

/// The objects to look up for a commit's entries, in their order.
pub open spec fn to_look_up(
    entries: Seq<DeltaEntry>,
    index: Map<ObjectId, Map<Option<ObjectId>, StagedObjectLocation>>,
) -> Seq<ObjectId> {
    entries.filter(|entry: DeltaEntry| may_be_stored(entry, index)).map_values(
        |entry: DeltaEntry| entry.oid,
    )
}

/// The objects to look up for a run of commits.
pub open spec fn all_to_look_up(
    commits: Seq<PlannedCommit<'_>>,
    index: Map<ObjectId, Map<Option<ObjectId>, StagedObjectLocation>>,
) -> Seq<ObjectId>
    decreases commits.len(),
{
    if commits.len() == 0 {
        Seq::empty()
    } else {
        all_to_look_up(commits.drop_last(), index) + to_look_up(commits.last().entries@, index)
    }
}

/// The objects of a run of commits to look up in the index, each once.
pub fn preexisting(
    commits: &[PlannedCommit<'_>],
    chunk_index: &OrdMap<ObjectId, StagedEncodings>,
) -> (oids: Vec<ObjectId>)
    ensures
        oids@ == distinct(all_to_look_up(commits@, staged(chunk_index@))),
{
    let ghost index = staged(chunk_index@);
    let ghost keep = |entry: DeltaEntry| may_be_stored(entry, index);
    let ghost with = |entry: DeltaEntry| entry.oid;
    let mut oids = IdList::new();
    let mut i: usize = 0;
    while i < commits.len()
        invariant
            i <= commits@.len(),
            index == staged(chunk_index@),
            keep == (|entry: DeltaEntry| may_be_stored(entry, index)),
            with == (|entry: DeltaEntry| entry.oid),
            oids@ == distinct(all_to_look_up(commits@.take(i as int), index)),
        decreases commits@.len() - i,
    {
        let ghost before = all_to_look_up(commits@.take(i as int), index);
        let entries = commits[i].entries;
        let mut k: usize = 0;
        assert(before + entries@.take(0).filter(keep).map_values(with) =~= before) by {
            reveal(Seq::filter);
        }
        while k < entries.len()
            invariant
                k <= entries@.len(),
                index == staged(chunk_index@),
                keep == (|entry: DeltaEntry| may_be_stored(entry, index)),
                with == (|entry: DeltaEntry| entry.oid),
                oids@ == distinct(before + entries@.take(k as int).filter(keep).map_values(with)),
            decreases entries@.len() - k,
        {
            let entry = entries[k];
            let ghost so_far = before + entries@.take(k as int).filter(keep).map_values(with);
            proof {
                reveal(Seq::filter);
                assert(entries@.take(k as int + 1).drop_last() =~= entries@.take(k as int));
            }
            let kept = match entry.source {
                EntrySource::Wire(_) => true,
                EntrySource::Encoded => match chunk_index.get(&entry.oid) {
                    Some(encodings) => encodings.against(entry.base).is_some(),
                    None => false,
                },
            };
            assert(kept == !may_be_stored(entry, index));
            if !kept {
                let _ = oids.put(entry.oid);
                assert(so_far.push(entry.oid).drop_last() =~= so_far);
                assert(before + entries@.take(k as int + 1).filter(keep).map_values(with)
                    =~= so_far.push(entry.oid));
            }
            k += 1;
        }
        assert(entries@.take(k as int) =~= entries@);
        assert(commits@.take(i as int + 1).drop_last() =~= commits@.take(i as int));
        i += 1;
    }
    assert(commits@.take(i as int) =~= commits@);
    oids.into_vec()
}

} // verus!
