//! What is written of a push, once everything it names has its number.

use vstd::prelude::*;

use crate::error::Error;
use crate::ingest::append::model::{NewCommit, NewObject, Pack, RecordedCommit};
use crate::ingest::append::objects::Relevant;

use crate::model::{ObjectSeq, PackImageLocation};
use crate::object::{Kind, ObjectId};
use crate::objects::location::{Location, SegmentLocation, Ulid};

use crate::ordmap::{OrdMap, OrdSet};
use crate::seqs::{ObjectSeqs, SeqSets};

verus! {

/// The number of an entry's base: none where the entry is whole.
///
/// A base is numbered where the entry is, since git never deltas across kinds:
/// one that is not would read back as another object.
pub open spec fn base_number(
    base: Option<ObjectId>,
    kind: Kind,
    seq_of: Map<ObjectId, ObjectSeq>,
) -> Result<Option<u64>, Error> {
    match base {
        None => Ok(None),
        Some(base) => if !seq_of.contains_key(base) {
            Err(Error::BaseUnnumbered)
        } else if seq_of[base].its_kind() != kind {
            Err(Error::BaseOfOtherKind)
        } else {
            Ok(Some(seq_of[base].its_seq()))
        },
    }
}

/// The place that an object gained, as the index records it; none where its
/// pack is not among those that are recorded.
pub open spec fn place_gained(
    place: PackImageLocation,
    kind: Kind,
    commits: Map<ObjectId, NewCommit>,
    commit_seq_of: Map<ObjectId, i64>,
    seq_of: Map<ObjectId, ObjectSeq>,
) -> Result<Option<Location>, Error> {
    if !commit_seq_of.contains_key(place.pack_sha) || !commits.contains_key(place.pack_sha) {
        Ok(None)
    } else {
        match base_number(place.base, kind, seq_of) {
            Err(error) => Err(error),
            Ok(base_seq) => Ok(
                Some(
                    Location {
                        pack_seq: commit_seq_of[place.pack_sha],
                        pack_oid: place.pack_sha,
                        segment: commits[place.pack_sha].segment,
                        offset: place.offset,
                        entry_len: place.entry_len,
                        base_seq,
                    },
                ),
            ),
        }
    }
}

/// The places that an object gained, in their order, or the first error.
pub open spec fn places_gained(
    fresh: Seq<PackImageLocation>,
    kind: Kind,
    commits: Map<ObjectId, NewCommit>,
    commit_seq_of: Map<ObjectId, i64>,
    seq_of: Map<ObjectId, ObjectSeq>,
) -> Result<Seq<Location>, Error>
    decreases fresh.len(),
{
    if fresh.len() == 0 {
        Ok(Seq::empty())
    } else {
        match places_gained(fresh.drop_last(), kind, commits, commit_seq_of, seq_of) {
            Err(error) => Err(error),
            Ok(earlier) => match place_gained(
                fresh.last(),
                kind,
                commits,
                commit_seq_of,
                seq_of,
            ) {
                Err(error) => Err(error),
                Ok(None) => Ok(earlier),
                Ok(Some(place)) => Ok(earlier.push(place)),
            },
        }
    }
}

/// An error among the first places stays one.
proof fn lemma_places_error(
    fresh: Seq<PackImageLocation>,
    n: int,
    kind: Kind,
    commits: Map<ObjectId, NewCommit>,
    commit_seq_of: Map<ObjectId, i64>,
    seq_of: Map<ObjectId, ObjectSeq>,
)
    requires
        0 <= n <= fresh.len(),
        places_gained(fresh.take(n), kind, commits, commit_seq_of, seq_of) is Err,
    ensures
        places_gained(fresh, kind, commits, commit_seq_of, seq_of) == places_gained(
            fresh.take(n),
            kind,
            commits,
            commit_seq_of,
            seq_of,
        ),
    decreases fresh.len() - n,
{
    if n < fresh.len() {
        assert(fresh.take(n + 1).drop_last() =~= fresh.take(n));
        lemma_places_error(fresh, n + 1, kind, commits, commit_seq_of, seq_of);
    } else {
        assert(fresh.take(n) =~= fresh);
    }
}

/// The places that one object gained this push, as the index records them.
pub fn locations_of(
    kind: Kind,
    fresh: &[PackImageLocation],
    new_commits: &OrdMap<ObjectId, NewCommit>,
    commit_seq_of: &OrdMap<ObjectId, i64>,
    seq_of: &OrdMap<ObjectId, ObjectSeq>,
) -> (locations: Result<Vec<Location>, Error>)
    ensures
        match locations {
            Ok(locations) => places_gained(
                fresh@,
                kind,
                new_commits@,
                commit_seq_of@,
                seq_of@,
            ) == Ok::<Seq<Location>, Error>(locations@),
            Err(error) => places_gained(
                fresh@,
                kind,
                new_commits@,
                commit_seq_of@,
                seq_of@,
            ) == Err::<Seq<Location>, Error>(error),
        },
{
    let mut locations: Vec<Location> = Vec::new();
    let mut i: usize = 0;
    assert(fresh@.take(0) =~= Seq::<PackImageLocation>::empty());
    while i < fresh.len()
        invariant
            i <= fresh@.len(),
            places_gained(
                fresh@.take(i as int),
                kind,
                new_commits@,
                commit_seq_of@,
                seq_of@,
            ) == Ok::<Seq<Location>, Error>(locations@),
        decreases fresh@.len() - i,
    {
        let place = fresh[i];
        let ghost next = fresh@.take(i as int + 1);
        assert(next.drop_last() =~= fresh@.take(i as int));
        let pack_seq = commit_seq_of.get(&place.pack_sha);
        let pack = new_commits.get(&place.pack_sha);
        if let (Some(pack_seq), Some(pack)) = (pack_seq, pack) {
            let base_seq: Option<u64> = match place.base {
                None => None,
                Some(base) => match seq_of.get(&base) {
                    None => {
                        proof {
                            lemma_places_error(
                                fresh@,
                                i as int + 1,
                                kind,
                                new_commits@,
                                commit_seq_of@,
                                seq_of@,
                            );
                        }
                        return Err(Error::BaseUnnumbered);
                    },
                    Some(number) => {
                        if number.kind() != kind {
                            proof {
                                lemma_places_error(
                                    fresh@,
                                    i as int + 1,
                                    kind,
                                    new_commits@,
                                    commit_seq_of@,
                                    seq_of@,
                                );
                            }
                            return Err(Error::BaseOfOtherKind);
                        }
                        Some(number.seq())
                    },
                },
            };
            locations.push(
                Location {
                    pack_seq: *pack_seq,
                    pack_oid: place.pack_sha,
                    segment: pack.segment,
                    offset: place.offset,
                    entry_len: place.entry_len,
                    base_seq,
                },
            );
        }
        i += 1;
    }
    assert(fresh@.take(i as int) =~= fresh@);
    Ok(locations)
}

/// A tree's own entries by number, or the first error.
pub open spec fn children_numbered(
    children: Seq<ObjectId>,
    seq_of: Map<ObjectId, ObjectSeq>,
) -> Result<SeqSets, Error>
    decreases children.len(),
{
    if children.len() == 0 {
        Ok(SeqSets::empty())
    } else {
        match children_numbered(children.drop_last(), seq_of) {
            Err(error) => Err(error),
            Ok(earlier) => if !seq_of.contains_key(children.last()) {
                Err(Error::ChildUnnumbered)
            } else {
                match seq_of[children.last()] {
                    ObjectSeq::Tree(seq) => Ok(
                        SeqSets { trees: earlier.trees.insert(seq), ..earlier },
                    ),
                    ObjectSeq::Blob(seq) => Ok(
                        SeqSets { blobs: earlier.blobs.insert(seq), ..earlier },
                    ),
                    ObjectSeq::Tag(_) => Err(Error::ChildIsTag),
                }
            },
        }
    }
}

proof fn lemma_children_error(
    children: Seq<ObjectId>,
    n: int,
    seq_of: Map<ObjectId, ObjectSeq>,
)
    requires
        0 <= n <= children.len(),
        children_numbered(children.take(n), seq_of) is Err,
    ensures
        children_numbered(children, seq_of) == children_numbered(children.take(n), seq_of),
    decreases children.len() - n,
{
    if n < children.len() {
        assert(children.take(n + 1).drop_last() =~= children.take(n));
        lemma_children_error(children, n + 1, seq_of);
    } else {
        assert(children.take(n) =~= children);
    }
}

/// An object's own entries by number: only a tree has any.
pub open spec fn own_entries(object: NewObject, seq_of: Map<ObjectId, ObjectSeq>) -> Result<
    SeqSets,
    Error,
> {
    if object.kind == Kind::Tree {
        children_numbered(object.children@, seq_of)
    } else {
        Ok(SeqSets::empty())
    }
}

/// A tree's own entries, as the numbers that the index holds them by.
pub fn children_of(object: &NewObject, seq_of: &OrdMap<ObjectId, ObjectSeq>) -> (children: Result<
    ObjectSeqs,
    Error,
>)
    ensures
        match children {
            Ok(children) => own_entries(*object, seq_of@) == Ok::<SeqSets, Error>(children@),
            Err(error) => own_entries(*object, seq_of@) == Err::<SeqSets, Error>(error),
        },
{
    let mut children = ObjectSeqs::new();
    if object.kind != Kind::Tree {
        return Ok(children);
    }
    let mut i: usize = 0;
    assert(object.children@.take(0) =~= Seq::<ObjectId>::empty());
    while i < object.children.len()
        invariant
            i <= object.children@.len(),
            object.kind == Kind::Tree,
            children_numbered(object.children@.take(i as int), seq_of@) == Ok::<SeqSets, Error>(
                children@,
            ),
        decreases object.children@.len() - i,
    {
        assert(object.children@.take(i as int + 1).drop_last() =~= object.children@.take(i as int));
        match seq_of.get(&object.children[i]) {
            None => {
                proof {
                    lemma_children_error(object.children@, i as int + 1, seq_of@);
                }
                return Err(Error::ChildUnnumbered);
            },
            Some(ObjectSeq::Tree(seq)) => {
                children.insert_tree(*seq);
            },
            Some(ObjectSeq::Blob(seq)) => {
                children.insert_blob(*seq);
            },
            Some(ObjectSeq::Tag(_)) => {
                proof {
                    lemma_children_error(object.children@, i as int + 1, seq_of@);
                }
                return Err(Error::ChildIsTag);
            },
        }
        i += 1;
    }
    assert(object.children@.take(i as int) =~= object.children@);
    Ok(children)
}

/// The segments that the packs to record were written to, each once: those are
/// registered in the write that refers to them.
pub open spec fn segments_of(
    to_insert: Seq<ObjectId>,
    commits: Map<ObjectId, NewCommit>,
) -> Seq<Ulid>
    decreases to_insert.len(),
{
    if to_insert.len() == 0 {
        Seq::empty()
    } else {
        let earlier = segments_of(to_insert.drop_last(), commits);
        let last = to_insert.last();
        if commits.contains_key(last) && !earlier.contains(commits[last].segment.id) {
            earlier.push(commits[last].segment.id)
        } else {
            earlier
        }
    }
}

/// The segments that the packs to record were written to, each once.
pub fn fresh_segments(to_insert: &[ObjectId], new_commits: &OrdMap<ObjectId, NewCommit>) -> (
segments: Vec<Ulid>)
    ensures
        segments@ == segments_of(to_insert@, new_commits@),
{
    let mut seen: OrdSet<Ulid> = OrdSet::new();
    let mut segments: Vec<Ulid> = Vec::new();
    let mut i: usize = 0;
    assert(to_insert@.take(0) =~= Seq::<ObjectId>::empty());
    while i < to_insert.len()
        invariant
            i <= to_insert@.len(),
            segments@ == segments_of(to_insert@.take(i as int), new_commits@),
            forall|id: Ulid| #[trigger] seen@.contains(id) <==> segments@.contains(id),
        decreases to_insert@.len() - i,
    {
        assert(to_insert@.take(i as int + 1).drop_last() =~= to_insert@.take(i as int));
        let ghost before = segments@;
        if let Some(commit) = new_commits.get(&to_insert[i]) {
            let id = commit.segment.id;
            if seen.insert(id) {
                segments.push(id);
                proof {
                    assert forall|other: Ulid| #[trigger]
                        seen@.contains(other) <==> segments@.contains(other) by {
                        if before.contains(other) {
                            let k = choose|k: int| 0 <= k < before.len() && before[k] == other;
                            assert(segments@[k] == other);
                        }
                        if other == id {
                            assert(segments@[before.len() as int] == other);
                        }
                    }
                }
            }
        }
        i += 1;
    }
    assert(to_insert@.take(i as int) =~= to_insert@);
    segments
}

/// Sets of numbers by commit.
pub open spec fn stored_sets(map: Map<ObjectId, ObjectSeqs>) -> Map<ObjectId, SeqSets> {
    Map::new(|oid: ObjectId| map.contains_key(oid), |oid: ObjectId| map[oid]@)
}

/// What is said so far to be in a commit's pack.
pub open spec fn set_of(map: Map<ObjectId, SeqSets>, oid: ObjectId) -> SeqSets {
    if map.contains_key(oid) {
        map[oid]
    } else {
        SeqSets::empty()
    }
}

/// A set with a number put in; a tag's is in none.
pub open spec fn with_number(set: SeqSets, seq: ObjectSeq) -> SeqSets {
    match seq {
        ObjectSeq::Tree(seq) => SeqSets { trees: set.trees.insert(seq), ..set },
        ObjectSeq::Blob(seq) => SeqSets { blobs: set.blobs.insert(seq), ..set },
        ObjectSeq::Tag(_) => set,
    }
}

/// The packs' sets with one object's number put into each pack that holds it.
pub open spec fn with_packed(
    map: Map<ObjectId, SeqSets>,
    fresh: Seq<PackImageLocation>,
    seq: ObjectSeq,
) -> Map<ObjectId, SeqSets>
    decreases fresh.len(),
{
    if fresh.len() == 0 {
        map
    } else {
        let earlier = with_packed(map, fresh.drop_last(), seq);
        let pack = fresh.last().pack_sha;
        earlier.insert(pack, with_number(set_of(earlier, pack), seq))
    }
}

/// What each pack to record stores, by number, or the first error.
pub open spec fn packed(
    relevant: Seq<Relevant>,
    objects: Seq<NewObject>,
    seq_of: Map<ObjectId, ObjectSeq>,
) -> Result<Map<ObjectId, SeqSets>, Error>
    decreases relevant.len(),
{
    if relevant.len() == 0 {
        Ok(Map::empty())
    } else {
        match packed(relevant.drop_last(), objects, seq_of) {
            Err(error) => Err(error),
            Ok(earlier) => {
                let work = relevant.last();
                let oid = objects[work.at as int].oid;
                if work.fresh@.len() == 0 {
                    Ok(earlier)
                } else if !seq_of.contains_key(oid) {
                    Err(Error::ObjectUnnumbered)
                } else if seq_of[oid] is Tag {
                    Err(Error::TagPacked)
                } else {
                    Ok(with_packed(earlier, work.fresh@, seq_of[oid]))
                }
            },
        }
    }
}

proof fn lemma_packed_error(
    relevant: Seq<Relevant>,
    n: int,
    objects: Seq<NewObject>,
    seq_of: Map<ObjectId, ObjectSeq>,
)
    requires
        0 <= n <= relevant.len(),
        packed(relevant.take(n), objects, seq_of) is Err,
    ensures
        packed(relevant, objects, seq_of) == packed(relevant.take(n), objects, seq_of),
    decreases relevant.len() - n,
{
    if n < relevant.len() {
        assert(relevant.take(n + 1).drop_last() =~= relevant.take(n));
        lemma_packed_error(relevant, n + 1, objects, seq_of);
    } else {
        assert(relevant.take(n) =~= relevant);
    }
}

/// What each pack to record stores, by number, under its commit.
pub fn accumulate_pack_bitmaps(
    new_objects: &[NewObject],
    relevant: &[Relevant],
    seq_of: &OrdMap<ObjectId, ObjectSeq>,
) -> (bitmaps: Result<OrdMap<ObjectId, ObjectSeqs>, Error>)
    requires
        forall|i: int| 0 <= i < relevant@.len() ==> (#[trigger] relevant@[i]).at < new_objects@.len(),
    ensures
        match bitmaps {
            Ok(bitmaps) => packed(relevant@, new_objects@, seq_of@) == Ok::<
                Map<ObjectId, SeqSets>,
                Error,
            >(stored_sets(bitmaps@)),
            Err(error) => packed(relevant@, new_objects@, seq_of@) == Err::<
                Map<ObjectId, SeqSets>,
                Error,
            >(error),
        },
{
    let mut bitmaps: OrdMap<ObjectId, ObjectSeqs> = OrdMap::new();
    let mut i: usize = 0;
    proof {
        assert(relevant@.take(0) =~= Seq::<Relevant>::empty());
        assert(stored_sets(bitmaps@) =~= Map::<ObjectId, SeqSets>::empty());
    }
    while i < relevant.len()
        invariant
            i <= relevant@.len(),
            forall|k: int|
                0 <= k < relevant@.len() ==> (#[trigger] relevant@[k]).at < new_objects@.len(),
            packed(relevant@.take(i as int), new_objects@, seq_of@) == Ok::<
                Map<ObjectId, SeqSets>,
                Error,
            >(stored_sets(bitmaps@)),
        decreases relevant@.len() - i,
    {
        assert(relevant@.take(i as int + 1).drop_last() =~= relevant@.take(i as int));
        let work = &relevant[i];
        if work.fresh.len() > 0 {
            let seq = match seq_of.get(&new_objects[work.at].oid) {
                Some(seq) => *seq,
                None => {
                    proof {
                        lemma_packed_error(relevant@, i as int + 1, new_objects@, seq_of@);
                    }
                    return Err(Error::ObjectUnnumbered);
                },
            };
            if let ObjectSeq::Tag(_) = seq {
                proof {
                    lemma_packed_error(relevant@, i as int + 1, new_objects@, seq_of@);
                }
                return Err(Error::TagPacked);
            }
            let ghost earlier = stored_sets(bitmaps@);
            let mut k: usize = 0;
            assert(work.fresh@.take(0) =~= Seq::<PackImageLocation>::empty());
            while k < work.fresh.len()
                invariant
                    k <= work.fresh@.len(),
                    !(seq is Tag),
                    stored_sets(bitmaps@) == with_packed(
                        earlier,
                        work.fresh@.take(k as int),
                        seq,
                    ),
                decreases work.fresh@.len() - k,
            {
                let ghost before = stored_sets(bitmaps@);
                assert(work.fresh@.take(k as int + 1).drop_last() =~= work.fresh@.take(k as int));
                let pack = work.fresh[k].pack_sha;
                let mut set = match bitmaps.remove(&pack) {
                    Some(set) => set,
                    None => ObjectSeqs::new(),
                };
                assert(set@ == set_of(before, pack));
                match seq {
                    ObjectSeq::Tree(seq) => {
                        set.insert_tree(seq);
                    },
                    ObjectSeq::Blob(seq) => {
                        set.insert_blob(seq);
                    },
                    ObjectSeq::Tag(_) => {},
                }
                let ghost put = set@;
                let _ = bitmaps.insert(pack, set);
                assert(stored_sets(bitmaps@) =~= before.insert(pack, put));
                k += 1;
            }
            assert(work.fresh@.take(k as int) =~= work.fresh@);
        }
        i += 1;
    }
    assert(relevant@.take(i as int) =~= relevant@);
    Ok(bitmaps)
}

/// One commit, as the commit graph records it.
#[verifier::ext_equal]
pub struct CommitView {
    pub seq: i64,
    pub oid: ObjectId,
    pub parents: Seq<i64>,
    pub root_tree_seq: u64,
    pub committer_date: i64,
    pub entry_len: u64,
    pub blob_offset: u64,
    pub segment: SegmentLocation,
    pub stored: SeqSets,
}

impl View for RecordedCommit {
    type V = CommitView;

    open spec fn view(&self) -> CommitView {
        CommitView {
            seq: self.seq,
            oid: self.oid,
            parents: self.parents@,
            root_tree_seq: self.root_tree_seq,
            committer_date: self.committer_date,
            entry_len: self.pack.entry_len,
            blob_offset: self.pack.blob_offset,
            segment: self.pack.segment,
            stored: self.pack.stored@,
        }
    }
}

/// What is recorded of one commit, or why it cannot be.
pub open spec fn commit_recorded(
    oid: ObjectId,
    commits: Map<ObjectId, NewCommit>,
    commit_seq_of: Map<ObjectId, i64>,
    seq_of: Map<ObjectId, ObjectSeq>,
    bitmaps: Map<ObjectId, SeqSets>,
) -> Result<CommitView, Error> {
    let commit = commits[oid];
    let parents = commit.parents@;
    if !commits.contains_key(oid) {
        Err(Error::CommitUnknown)
    } else if exists|i: int|
        0 <= i < parents.len() && !commit_seq_of.contains_key(#[trigger] parents[i]) {
        Err(Error::ParentUnnumbered)
    } else if !commit_seq_of.contains_key(oid) {
        Err(Error::CommitUnnumbered)
    } else if !(seq_of.contains_key(commit.root_tree) && seq_of[commit.root_tree] is Tree) {
        Err(Error::RootTreeUnnumbered)
    } else {
        Ok(
            CommitView {
                seq: commit_seq_of[oid],
                oid,
                parents: parents.map_values(|parent: ObjectId| commit_seq_of[parent]),
                root_tree_seq: seq_of[commit.root_tree].its_seq(),
                committer_date: commit.committer_date,
                entry_len: commit.entry_len,
                blob_offset: commit.blob_offset,
                segment: commit.segment,
                stored: set_of(bitmaps, oid),
            },
        )
    }
}

/// One commit as the commit graph records it.
pub fn build_commit(
    oid: ObjectId,
    new_commits: &OrdMap<ObjectId, NewCommit>,
    commit_seq_of: &OrdMap<ObjectId, i64>,
    seq_of: &OrdMap<ObjectId, ObjectSeq>,
    bitmaps: &OrdMap<ObjectId, ObjectSeqs>,
) -> (commit: Result<RecordedCommit, Error>)
    ensures
        match commit {
            Ok(commit) => commit_recorded(
                oid,
                new_commits@,
                commit_seq_of@,
                seq_of@,
                stored_sets(bitmaps@),
            ) == Ok::<CommitView, Error>(commit@),
            Err(error) => commit_recorded(
                oid,
                new_commits@,
                commit_seq_of@,
                seq_of@,
                stored_sets(bitmaps@),
            ) == Err::<CommitView, Error>(error),
        },
        commit matches Ok(commit) ==> {
            let parents = new_commits@[oid].parents@;
            &&& commit.parents@.len() == parents.len()
            &&& forall|k: int|
                0 <= k < parents.len() ==> #[trigger] commit.parents@[k]
                    == commit_seq_of@[parents[k]]
        },
{
    let commit = match new_commits.get(&oid) {
        Some(commit) => commit,
        None => {
            return Err(Error::CommitUnknown);
        },
    };
    let ghost number = |parent: ObjectId| commit_seq_of@[parent];
    let mut parents: Vec<i64> = Vec::new();
    let mut i: usize = 0;
    while i < commit.parents.len()
        invariant
            i <= commit.parents@.len(),
            new_commits@.contains_key(oid),
            *commit == new_commits@[oid],
            number == (|parent: ObjectId| commit_seq_of@[parent]),
            parents@ == commit.parents@.take(i as int).map_values(number),
            forall|k: int|
                0 <= k < i ==> commit_seq_of@.contains_key(#[trigger] commit.parents@[k]),
        decreases commit.parents@.len() - i,
    {
        match commit_seq_of.get(&commit.parents[i]) {
            Some(seq) => {
                parents.push(*seq);
            },
            None => {
                assert(!commit_seq_of@.contains_key(new_commits@[oid].parents@[i as int]));
                return Err(Error::ParentUnnumbered);
            },
        }
        i += 1;
        assert(parents@ =~= commit.parents@.take(i as int).map_values(number));
    }
    assert(commit.parents@.take(i as int) =~= commit.parents@);
    let seq: i64 = match commit_seq_of.get(&oid) {
        Some(seq) => *seq,
        None => {
            return Err(Error::CommitUnnumbered);
        },
    };
    let root_tree_seq: u64 = match seq_of.get(&commit.root_tree) {
        Some(ObjectSeq::Tree(seq)) => *seq,
        _ => {
            return Err(Error::RootTreeUnnumbered);
        },
    };
    let stored = match bitmaps.get(&oid) {
        Some(stored) => stored.duplicate(),
        None => ObjectSeqs::new(),
    };
    Ok(
        RecordedCommit {
            seq,
            oid,
            parents,
            root_tree_seq,
            committer_date: commit.committer_date,
            pack: Pack {
                entry_len: commit.entry_len,
                blob_offset: commit.blob_offset,
                segment: commit.segment,
                stored,
            },
        },
    )
}

} // verus!
