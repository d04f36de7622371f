//! One attempt at recording a push, put together.

use vstd::prelude::*;

use crate::error::Error;
use crate::ingest::append::model::{NewCommit, NewObject, RecordedCommit};
use crate::ingest::append::objects::Relevant;
use crate::ingest::append::records::{
    accumulate_pack_bitmaps, build_commit, children_of, commit_recorded, fresh_segments,
    locations_of, own_entries, packed, places_gained, segments_of, stored_sets, CommitView,
};
use crate::ingest::lists::{lemma_filtered, IdList};
use crate::model::{Identity, ObjectSeq};
use crate::object::{Kind, ObjectId};
use crate::objects::location::{Location, Ulid};
use crate::objects::write::Recorded;
use crate::ordmap::OrdMap;
use crate::seqs::{ObjectSeqs, SeqSets};

verus! {

/// How many attempts recording a push is worth: one retry is all that losing a
/// race needs.
pub const MAX_APPEND_ATTEMPTS: u32 = 5;

/// Whether an attempt trusts what was read before the push started.
///
/// A retry is a push that lost a race: what it was told was absent is what the
/// winner just recorded, so that it reads everything again.
pub fn trusts_known(attempt: u32) -> (trusts: bool)
    ensures
        trusts == (attempt == 0),
{
    attempt == 0
}

/// Whether another attempt follows one that lost a race or did not.
pub fn tries_again(attempt: u32, raced: bool) -> (again: bool)
    ensures
        again == (raced && attempt + 1 < MAX_APPEND_ATTEMPTS),
{
    raced && attempt < MAX_APPEND_ATTEMPTS - 1
}

/// What planning settled of a push.
pub struct AppendPlan {
    /// The commits to record, parents first.
    pub to_insert: Vec<ObjectId>,
    /// The number of every commit that the push names.
    pub commit_seq_of: OrdMap<ObjectId, i64>,
    /// The commits that this push numbered.
    pub commits_numbered_here: Vec<ObjectId>,
    /// The objects with work.
    pub relevant: Vec<Relevant>,
    /// The number of every object that recording names.
    pub seq_of: OrdMap<ObjectId, ObjectSeq>,
    /// The objects that appear for the first time.
    pub fresh: Vec<ObjectId>,
    /// The objects that this push numbered. One that is recorded again keeps
    /// its number, and writing that again would be a race lost.
    pub numbered_here: Vec<ObjectId>,
}

impl AppendPlan {
    /// Whether the objects with work are among those that the push brought.
    pub open spec fn wf(self, objects: Seq<NewObject>) -> bool {
        forall|i: int|
            0 <= i < self.relevant@.len() ==> (#[trigger] self.relevant@[i]).at < objects.len()
    }
}

/// One object, as the index records it.
#[verifier::ext_equal]
pub struct RecordedView {
    pub seq: u64,
    pub oid: ObjectId,
    pub kind: Kind,
    pub locations: Seq<Location>,
    pub children: SeqSets,
}

/// One object, as the index records it.
pub open spec fn recorded_view(object: Recorded) -> RecordedView {
    RecordedView {
        seq: object.seq,
        oid: object.oid,
        kind: object.kind,
        locations: object.locations@,
        children: object.children@,
    }
}

/// Objects, as the index records them.
pub open spec fn recorded_views(objects: Seq<Recorded>) -> Seq<RecordedView> {
    objects.map_values(|object: Recorded| recorded_view(object))
}

/// What a push writes to the object index.
#[verifier::ext_equal]
pub struct ObjectWrites {
    /// The objects that appear for the first time.
    pub fresh: Seq<RecordedView>,
    /// The places that known objects gained.
    pub added: Seq<(u64, Kind, Location)>,
}

/// What the objects with work come to, in their order, or the first error.
pub open spec fn object_writes(
    relevant: Seq<Relevant>,
    objects: Seq<NewObject>,
    fresh: Seq<ObjectId>,
    commits: Map<ObjectId, NewCommit>,
    commit_seq_of: Map<ObjectId, i64>,
    seq_of: Map<ObjectId, ObjectSeq>,
) -> Result<ObjectWrites, Error>
    decreases relevant.len(),
{
    if relevant.len() == 0 {
        Ok(ObjectWrites { fresh: Seq::empty(), added: Seq::empty() })
    } else {
        match object_writes(
            relevant.drop_last(),
            objects,
            fresh,
            commits,
            commit_seq_of,
            seq_of,
        ) {
            Err(error) => Err(error),
            Ok(earlier) => one_more_write(
                earlier,
                relevant.last(),
                objects,
                fresh,
                commits,
                commit_seq_of,
                seq_of,
            ),
        }
    }
}

/// What one object with work adds.
pub open spec fn one_more_write(
    earlier: ObjectWrites,
    work: Relevant,
    objects: Seq<NewObject>,
    fresh: Seq<ObjectId>,
    commits: Map<ObjectId, NewCommit>,
    commit_seq_of: Map<ObjectId, i64>,
    seq_of: Map<ObjectId, ObjectSeq>,
) -> Result<ObjectWrites, Error> {
    let object = objects[work.at as int];
    if !seq_of.contains_key(object.oid) {
        Err(Error::ObjectUnnumbered)
    } else {
        let seq = seq_of[object.oid].its_seq();
        match places_gained(work.fresh@, object.kind, commits, commit_seq_of, seq_of) {
            Err(error) => Err(error),
            Ok(locations) => if fresh.contains(object.oid) {
                match own_entries(object, seq_of) {
                    Err(error) => Err(error),
                    Ok(children) => Ok(
                        ObjectWrites {
                            fresh: earlier.fresh.push(
                                RecordedView {
                                    seq,
                                    oid: object.oid,
                                    kind: object.kind,
                                    locations,
                                    children,
                                },
                            ),
                            ..earlier
                        },
                    ),
                }
            } else {
                Ok(
                    ObjectWrites {
                        added: earlier.added + locations.map_values(
                            |place: Location| (seq, object.kind, place),
                        ),
                        ..earlier
                    },
                )
            },
        }
    }
}

proof fn lemma_writes_error(
    relevant: Seq<Relevant>,
    n: int,
    objects: Seq<NewObject>,
    fresh: Seq<ObjectId>,
    commits: Map<ObjectId, NewCommit>,
    commit_seq_of: Map<ObjectId, i64>,
    seq_of: Map<ObjectId, ObjectSeq>,
)
    requires
        0 <= n <= relevant.len(),
        object_writes(relevant.take(n), objects, fresh, commits, commit_seq_of, seq_of) is Err,
    ensures
        object_writes(relevant, objects, fresh, commits, commit_seq_of, seq_of) == object_writes(
            relevant.take(n),
            objects,
            fresh,
            commits,
            commit_seq_of,
            seq_of,
        ),
    decreases relevant.len() - n,
{
    if n < relevant.len() {
        assert(relevant.take(n + 1).drop_last() =~= relevant.take(n));
        lemma_writes_error(relevant, n + 1, objects, fresh, commits, commit_seq_of, seq_of);
    } else {
        assert(relevant.take(n) =~= relevant);
    }
}

/// What the objects with work come to: those that appear for the first time,
/// and the places that known ones gained.
fn write_objects(
    plan: &AppendPlan,
    new_objects: &[NewObject],
    new_commits: &OrdMap<ObjectId, NewCommit>,
) -> (writes: Result<(Vec<Recorded>, Vec<(u64, Kind, Location)>), Error>)
    requires
        plan.wf(new_objects@),
    ensures
        match writes {
            Ok((fresh, added)) => object_writes(
                plan.relevant@,
                new_objects@,
                plan.fresh@,
                new_commits@,
                plan.commit_seq_of@,
                plan.seq_of@,
            ) == Ok::<ObjectWrites, Error>(
                (ObjectWrites { fresh: recorded_views(fresh@), added: added@ }),
            ),
            Err(error) => object_writes(
                plan.relevant@,
                new_objects@,
                plan.fresh@,
                new_commits@,
                plan.commit_seq_of@,
                plan.seq_of@,
            ) == Err::<ObjectWrites, Error>(error),
        },
{
    let mut first_seen = IdList::new();
    first_seen.put_all(plan.fresh.as_slice());
    let mut fresh: Vec<Recorded> = Vec::new();
    let mut added: Vec<(u64, Kind, Location)> = Vec::new();
    let ghost relevant = plan.relevant@;
    let ghost objects = new_objects@;
    let ghost commits = new_commits@;
    let ghost numbers = plan.commit_seq_of@;
    let ghost seq_of = plan.seq_of@;
    let mut i: usize = 0;
    proof {
        assert(relevant.take(0) =~= Seq::<Relevant>::empty());
        assert(recorded_views(fresh@) =~= Seq::<RecordedView>::empty());
    }
    while i < plan.relevant.len()
        invariant
            i <= relevant.len(),
            plan.wf(objects),
            relevant == plan.relevant@,
            objects == new_objects@,
            commits == new_commits@,
            numbers == plan.commit_seq_of@,
            seq_of == plan.seq_of@,
            forall|oid: ObjectId| #[trigger]
                first_seen@.contains(oid) <==> plan.fresh@.contains(oid),
            object_writes(
                relevant.take(i as int),
                objects,
                plan.fresh@,
                commits,
                numbers,
                seq_of,
            ) == Ok::<ObjectWrites, Error>(
                (ObjectWrites { fresh: recorded_views(fresh@), added: added@ }),
            ),
        decreases relevant.len() - i,
    {
        let work = &plan.relevant[i];
        let object = &new_objects[work.at];
        let ghost next = relevant.take(i as int + 1);
        let ghost earlier = ObjectWrites { fresh: recorded_views(fresh@), added: added@ };
        proof {
            assert(next.drop_last() =~= relevant.take(i as int));
            assert(next.last() == *work);
            if one_more_write(
                earlier,
                *work,
                objects,
                plan.fresh@,
                commits,
                numbers,
                seq_of,
            ) is Err {
                lemma_writes_error(
                    relevant,
                    i as int + 1,
                    objects,
                    plan.fresh@,
                    commits,
                    numbers,
                    seq_of,
                );
            }
        }
        let seq: u64 = match plan.seq_of.get(&object.oid) {
            Some(seq) => seq.seq(),
            None => {
                return Err(Error::ObjectUnnumbered);
            },
        };
        let locations = match locations_of(
            object.kind,
            work.fresh.as_slice(),
            new_commits,
            &plan.commit_seq_of,
            &plan.seq_of,
        ) {
            Ok(locations) => locations,
            Err(error) => {
                return Err(error);
            },
        };
        if first_seen.contains(object.oid) {
            let children = match children_of(object, &plan.seq_of) {
                Ok(children) => children,
                Err(error) => {
                    return Err(error);
                },
            };
            let ghost before = fresh@;
            let record = Recorded {
                seq,
                oid: object.oid,
                kind: object.kind,
                locations,
                children,
            };
            let ghost shown = recorded_view(record);
            fresh.push(record);
            assert(recorded_views(fresh@) =~= recorded_views(before).push(shown));
        } else {
            let ghost before = added@;
            let ghost tagged = locations@.map_values(
                |place: Location| (seq, object.kind, place),
            );
            let mut k: usize = 0;
            while k < locations.len()
                invariant
                    k <= locations@.len(),
                    tagged == locations@.map_values(
                        |place: Location| (seq, object.kind, place),
                    ),
                    added@ == before + tagged.take(k as int),
                decreases locations@.len() - k,
            {
                added.push((seq, object.kind, locations[k]));
                k += 1;
                assert(added@ =~= before + tagged.take(k as int));
            }
            assert(tagged.take(k as int) =~= tagged);
        }
        i += 1;
    }
    assert(relevant.take(i as int) =~= relevant);
    Ok((fresh, added))
}

/// Commits, as the commit graph records them.
pub open spec fn commit_views(commits: Seq<RecordedCommit>) -> Seq<CommitView> {
    commits.map_values(|commit: RecordedCommit| commit@)
}

/// What is recorded of every commit, in their order, or the first error.
pub open spec fn commits_recorded(
    to_insert: Seq<ObjectId>,
    commits: Map<ObjectId, NewCommit>,
    commit_seq_of: Map<ObjectId, i64>,
    seq_of: Map<ObjectId, ObjectSeq>,
    bitmaps: Map<ObjectId, SeqSets>,
) -> Result<Seq<CommitView>, Error>
    decreases to_insert.len(),
{
    if to_insert.len() == 0 {
        Ok(Seq::empty())
    } else {
        match commits_recorded(to_insert.drop_last(), commits, commit_seq_of, seq_of, bitmaps) {
            Err(error) => Err(error),
            Ok(earlier) => match commit_recorded(
                to_insert.last(),
                commits,
                commit_seq_of,
                seq_of,
                bitmaps,
            ) {
                Err(error) => Err(error),
                Ok(commit) => Ok(earlier.push(commit)),
            },
        }
    }
}

proof fn lemma_commits_error(
    to_insert: Seq<ObjectId>,
    n: int,
    commits: Map<ObjectId, NewCommit>,
    commit_seq_of: Map<ObjectId, i64>,
    seq_of: Map<ObjectId, ObjectSeq>,
    bitmaps: Map<ObjectId, SeqSets>,
)
    requires
        0 <= n <= to_insert.len(),
        commits_recorded(to_insert.take(n), commits, commit_seq_of, seq_of, bitmaps) is Err,
    ensures
        commits_recorded(to_insert, commits, commit_seq_of, seq_of, bitmaps) == commits_recorded(
            to_insert.take(n),
            commits,
            commit_seq_of,
            seq_of,
            bitmaps,
        ),
    decreases to_insert.len() - n,
{
    if n < to_insert.len() {
        assert(to_insert.take(n + 1).drop_last() =~= to_insert.take(n));
        lemma_commits_error(to_insert, n + 1, commits, commit_seq_of, seq_of, bitmaps);
    } else {
        assert(to_insert.take(n) =~= to_insert);
    }
}

/// What is recorded of every commit.
fn write_commits(
    plan: &AppendPlan,
    new_commits: &OrdMap<ObjectId, NewCommit>,
    bitmaps: &OrdMap<ObjectId, ObjectSeqs>,
) -> (commits: Result<Vec<RecordedCommit>, Error>)
    ensures
        match commits {
            Ok(commits) => commits_recorded(
                plan.to_insert@,
                new_commits@,
                plan.commit_seq_of@,
                plan.seq_of@,
                stored_sets(bitmaps@),
            ) == Ok::<Seq<CommitView>, Error>(commit_views(commits@)),
            Err(error) => commits_recorded(
                plan.to_insert@,
                new_commits@,
                plan.commit_seq_of@,
                plan.seq_of@,
                stored_sets(bitmaps@),
            ) == Err::<Seq<CommitView>, Error>(error),
        },
{
    let mut commits: Vec<RecordedCommit> = Vec::new();
    let ghost to_insert = plan.to_insert@;
    let ghost sets = stored_sets(bitmaps@);
    let mut i: usize = 0;
    proof {
        assert(to_insert.take(0) =~= Seq::<ObjectId>::empty());
        assert(commit_views(commits@) =~= Seq::<CommitView>::empty());
    }
    while i < plan.to_insert.len()
        invariant
            i <= to_insert.len(),
            to_insert == plan.to_insert@,
            sets == stored_sets(bitmaps@),
            commits_recorded(
                to_insert.take(i as int),
                new_commits@,
                plan.commit_seq_of@,
                plan.seq_of@,
                sets,
            ) == Ok::<Seq<CommitView>, Error>(commit_views(commits@)),
        decreases to_insert.len() - i,
    {
        assert(to_insert.take(i as int + 1).drop_last() =~= to_insert.take(i as int));
        let ghost before = commits@;
        match build_commit(
            plan.to_insert[i],
            new_commits,
            &plan.commit_seq_of,
            &plan.seq_of,
            bitmaps,
        ) {
            Ok(commit) => {
                let ghost shown = commit@;
                commits.push(commit);
                assert(commit_views(commits@) =~= commit_views(before).push(shown));
            },
            Err(error) => {
                proof {
                    lemma_commits_error(
                        to_insert,
                        i as int + 1,
                        new_commits@,
                        plan.commit_seq_of@,
                        plan.seq_of@,
                        sets,
                    );
                }
                return Err(error);
            },
        }
        i += 1;
    }
    assert(to_insert.take(i as int) =~= to_insert);
    Ok(commits)
}

/// What is written of the numbers of commits: of those that this push numbered.
pub open spec fn commit_names(commits: Seq<CommitView>, numbered: Seq<ObjectId>) -> Seq<
    (ObjectId, Identity),
> {
    commits.filter(|commit: CommitView| numbered.contains(commit.oid)).map_values(
        |commit: CommitView| (commit.oid, Identity { seq: commit.seq, kind: Kind::Commit }),
    )
}

/// What is written of the numbers of objects: of those that appear for the
/// first time and that this push numbered.
pub open spec fn object_names(objects: Seq<RecordedView>, numbered: Seq<ObjectId>) -> Result<
    Seq<(ObjectId, Identity)>,
    Error,
>
    decreases objects.len(),
{
    if objects.len() == 0 {
        Ok(Seq::empty())
    } else {
        match object_names(objects.drop_last(), numbered) {
            Err(error) => Err(error),
            Ok(earlier) => {
                let object = objects.last();
                if !numbered.contains(object.oid) {
                    Ok(earlier)
                } else if object.seq > i64::MAX {
                    Err(Error::SeqTooLarge)
                } else {
                    Ok(
                        earlier.push(
                            (object.oid, Identity { seq: object.seq as i64, kind: object.kind }),
                        ),
                    )
                }
            },
        }
    }
}

proof fn lemma_names_error(objects: Seq<RecordedView>, n: int, numbered: Seq<ObjectId>)
    requires
        0 <= n <= objects.len(),
        object_names(objects.take(n), numbered) is Err,
    ensures
        object_names(objects, numbered) == object_names(objects.take(n), numbered),
    decreases objects.len() - n,
{
    if n < objects.len() {
        assert(objects.take(n + 1).drop_last() =~= objects.take(n));
        lemma_names_error(objects, n + 1, numbered);
    } else {
        assert(objects.take(n) =~= objects);
    }
}

/// Everything that is written of numbers, commits first.
pub open spec fn names_written(
    commits: Seq<CommitView>,
    commits_numbered: Seq<ObjectId>,
    objects: Seq<RecordedView>,
    numbered: Seq<ObjectId>,
) -> Result<Seq<(ObjectId, Identity)>, Error> {
    match object_names(objects, numbered) {
        Err(error) => Err(error),
        Ok(names) => Ok(commit_names(commits, commits_numbered) + names),
    }
}

/// Everything that is written of numbers.
fn write_names(plan: &AppendPlan, commits: &[RecordedCommit], objects: &[Recorded]) -> (named:
    Result<Vec<(ObjectId, Identity)>, Error>)
    ensures
        match named {
            Ok(named) => names_written(
                commit_views(commits@),
                plan.commits_numbered_here@,
                recorded_views(objects@),
                plan.numbered_here@,
            ) == Ok::<Seq<(ObjectId, Identity)>, Error>(named@),
            Err(error) => names_written(
                commit_views(commits@),
                plan.commits_numbered_here@,
                recorded_views(objects@),
                plan.numbered_here@,
            ) == Err::<Seq<(ObjectId, Identity)>, Error>(error),
        },
{
    let mut own_commits = IdList::new();
    own_commits.put_all(plan.commits_numbered_here.as_slice());
    let mut own_objects = IdList::new();
    own_objects.put_all(plan.numbered_here.as_slice());
    let ghost views = commit_views(commits@);
    let ghost shown = recorded_views(objects@);
    let ghost keep = |commit: CommitView| plan.commits_numbered_here@.contains(commit.oid);
    let ghost with = |commit: CommitView|
        (commit.oid, Identity { seq: commit.seq, kind: Kind::Commit });
    let mut named: Vec<(ObjectId, Identity)> = Vec::new();
    let mut i: usize = 0;
    assert(named@ =~= views.take(0).filter(keep).map_values(with)) by {
        reveal(Seq::filter);
    }
    while i < commits.len()
        invariant
            i <= commits@.len(),
            views == commit_views(commits@),
            keep == (|commit: CommitView| plan.commits_numbered_here@.contains(commit.oid)),
            with == (|commit: CommitView|
                (commit.oid, Identity { seq: commit.seq, kind: Kind::Commit })),
            forall|oid: ObjectId| #[trigger]
                own_commits@.contains(oid) <==> plan.commits_numbered_here@.contains(oid),
            named@ == views.take(i as int).filter(keep).map_values(with),
        decreases commits@.len() - i,
    {
        proof {
            reveal(Seq::filter);
            assert(views.take(i as int + 1).drop_last() =~= views.take(i as int));
        }
        let commit = &commits[i];
        if own_commits.contains(commit.oid) {
            named.push((commit.oid, Identity { seq: commit.seq, kind: Kind::Commit }));
        }
        i += 1;
        assert(named@ =~= views.take(i as int).filter(keep).map_values(with));
    }
    assert(views.take(i as int) =~= views);
    let ghost first = named@;
    let mut i: usize = 0;
    let ghost mut later: Seq<(ObjectId, Identity)> = Seq::empty();
    proof {
        assert(shown.take(0) =~= Seq::<RecordedView>::empty());
        assert(named@ =~= first + later);
    }
    while i < objects.len()
        invariant
            i <= objects@.len(),
            views == commit_views(commits@),
            shown == recorded_views(objects@),
            first == commit_names(views, plan.commits_numbered_here@),
            forall|oid: ObjectId| #[trigger]
                own_objects@.contains(oid) <==> plan.numbered_here@.contains(oid),
            object_names(shown.take(i as int), plan.numbered_here@) == Ok::<
                Seq<(ObjectId, Identity)>,
                Error,
            >(later),
            named@ == first + later,
        decreases objects@.len() - i,
    {
        assert(shown.take(i as int + 1).drop_last() =~= shown.take(i as int));
        let object = &objects[i];
        assert(shown[i as int] == recorded_view(*object));
        if own_objects.contains(object.oid) {
            if object.seq > 0x7fff_ffff_ffff_ffff {
                proof {
                    lemma_names_error(shown, i as int + 1, plan.numbered_here@);
                }
                return Err(Error::SeqTooLarge);
            }
            let pair = (object.oid, Identity { seq: object.seq as i64, kind: object.kind });
            named.push(pair);
            proof {
                later = later.push(pair);
                assert(named@ =~= first + later);
            }
        }
        i += 1;
    }
    assert(shown.take(i as int) =~= shown);
    Ok(named)
}

/// Everything that one attempt writes.
pub struct Assembly {
    /// The numbers to write first and alone.
    pub named: Vec<(ObjectId, Identity)>,
    /// The segments to register.
    pub segments: Vec<Ulid>,
    /// The objects to record in the index.
    pub fresh_objects: Vec<Recorded>,
    /// The places to add to objects that the index holds.
    pub added_packs: Vec<(u64, Kind, Location)>,
    /// The commits to record in the graph.
    pub commits: Vec<RecordedCommit>,
}

/// Everything that one attempt writes.
#[verifier::ext_equal]
pub struct AssemblyView {
    pub named: Seq<(ObjectId, Identity)>,
    pub segments: Seq<Ulid>,
    pub objects: ObjectWrites,
    pub commits: Seq<CommitView>,
}

impl View for Assembly {
    type V = AssemblyView;

    open spec fn view(&self) -> AssemblyView {
        AssemblyView {
            named: self.named@,
            segments: self.segments@,
            objects: ObjectWrites {
                fresh: recorded_views(self.fresh_objects@),
                added: self.added_packs@,
            },
            commits: commit_views(self.commits@),
        }
    }
}

/// Everything that one attempt writes, or the first error: the packs' sets come
/// first, then the objects, the commits and the numbers.
pub open spec fn assembled(
    plan: AppendPlan,
    commits: Map<ObjectId, NewCommit>,
    objects: Seq<NewObject>,
) -> Result<AssemblyView, Error> {
    match packed(plan.relevant@, objects, plan.seq_of@) {
        Err(error) => Err(error),
        Ok(sets) => match object_writes(
            plan.relevant@,
            objects,
            plan.fresh@,
            commits,
            plan.commit_seq_of@,
            plan.seq_of@,
        ) {
            Err(error) => Err(error),
            Ok(writes) => match commits_recorded(
                plan.to_insert@,
                commits,
                plan.commit_seq_of@,
                plan.seq_of@,
                sets,
            ) {
                Err(error) => Err(error),
                Ok(recorded) => match names_written(
                    recorded,
                    plan.commits_numbered_here@,
                    writes.fresh,
                    plan.numbered_here@,
                ) {
                    Err(error) => Err(error),
                    Ok(named) => Ok(
                        AssemblyView {
                            named,
                            segments: segments_of(plan.to_insert@, commits),
                            objects: writes,
                            commits: recorded,
                        },
                    ),
                },
            },
        },
    }
}

/// Put together what one attempt at recording a push writes.
pub fn assemble(
    plan: &AppendPlan,
    new_commits: &OrdMap<ObjectId, NewCommit>,
    new_objects: &[NewObject],
) -> (assembly: Result<Assembly, Error>)
    requires
        plan.wf(new_objects@),
    ensures
        match assembly {
            Ok(assembly) => assembled(*plan, new_commits@, new_objects@) == Ok::<
                AssemblyView,
                Error,
            >(assembly@),
            Err(error) => assembled(*plan, new_commits@, new_objects@) == Err::<
                AssemblyView,
                Error,
            >(error),
        },
{
    let bitmaps = match accumulate_pack_bitmaps(
        new_objects,
        plan.relevant.as_slice(),
        &plan.seq_of,
    ) {
        Ok(bitmaps) => bitmaps,
        Err(error) => {
            return Err(error);
        },
    };
    let (fresh_objects, added_packs) = match write_objects(plan, new_objects, new_commits) {
        Ok(writes) => writes,
        Err(error) => {
            return Err(error);
        },
    };
    let commits = match write_commits(plan, new_commits, &bitmaps) {
        Ok(commits) => commits,
        Err(error) => {
            return Err(error);
        },
    };
    let named = match write_names(plan, commits.as_slice(), fresh_objects.as_slice()) {
        Ok(named) => named,
        Err(error) => {
            return Err(error);
        },
    };
    let segments = fresh_segments(plan.to_insert.as_slice(), new_commits);
    Ok(Assembly { named, segments, fresh_objects, added_packs, commits })
}

/// The numbers of the commits to record, and those of all their parents: what
/// the graph is asked to rank.
pub fn ranked(commits: &[RecordedCommit]) -> (seqs: (Vec<i64>, Vec<i64>))
    ensures
        seqs.0@ == commits@.map_values(|commit: RecordedCommit| commit.seq),
        seqs.1@ == all_parents(commits@),
{
    let mut mine: Vec<i64> = Vec::new();
    let mut parents: Vec<i64> = Vec::new();
    let ghost seq = |commit: RecordedCommit| commit.seq;
    let mut i: usize = 0;
    assert(commits@.take(0) =~= Seq::<RecordedCommit>::empty());
    while i < commits.len()
        invariant
            i <= commits@.len(),
            seq == (|commit: RecordedCommit| commit.seq),
            mine@ == commits@.take(i as int).map_values(seq),
            parents@ == all_parents(commits@.take(i as int)),
        decreases commits@.len() - i,
    {
        assert(commits@.take(i as int + 1).drop_last() =~= commits@.take(i as int));
        mine.push(commits[i].seq);
        let own = &commits[i].parents;
        let ghost before = parents@;
        let mut k: usize = 0;
        while k < own.len()
            invariant
                k <= own@.len(),
                parents@ == before + own@.take(k as int),
            decreases own@.len() - k,
        {
            parents.push(own[k]);
            k += 1;
            assert(parents@ =~= before + own@.take(k as int));
        }
        assert(own@.take(k as int) =~= own@);
        i += 1;
        assert(mine@ =~= commits@.take(i as int).map_values(seq));
    }
    assert(commits@.take(i as int) =~= commits@);
    (mine, parents)
}

/// The numbers of all parents, commit after commit.
pub open spec fn all_parents(commits: Seq<RecordedCommit>) -> Seq<i64>
    decreases commits.len(),
{
    if commits.len() == 0 {
        Seq::empty()
    } else {
        all_parents(commits.drop_last()) + commits.last().parents@
    }
}

/// Only what this push numbered is written with its number: writing one that
/// was there before would lose a race against itself.
pub proof fn only_own_numbers_are_written(
    plan: AppendPlan,
    commits: Map<ObjectId, NewCommit>,
    objects: Seq<NewObject>,
    i: int,
)
    requires
        assembled(plan, commits, objects) is Ok,
        0 <= i < assembled(plan, commits, objects)->Ok_0.named.len(),
    ensures
        ({
            let (oid, identity) = assembled(plan, commits, objects)->Ok_0.named[i];
            plan.commits_numbered_here@.contains(oid) || plan.numbered_here@.contains(oid)
        }),
{
    let view = assembled(plan, commits, objects)->Ok_0;
    let first = commit_names(view.commits, plan.commits_numbered_here@);
    if i < first.len() {
        let keep = |commit: CommitView| plan.commits_numbered_here@.contains(commit.oid);
        lemma_filtered(view.commits, keep);
        let kept = view.commits.filter(keep);
        assert(kept.contains(kept[i]));
    } else {
        lemma_object_names(view.objects.fresh, plan.numbered_here@);
        let names = object_names(view.objects.fresh, plan.numbered_here@)->Ok_0;
        assert(plan.numbered_here@.contains(names[i - first.len()].0));
    }
}

proof fn lemma_object_names(objects: Seq<RecordedView>, numbered: Seq<ObjectId>)
    ensures
        object_names(objects, numbered) matches Ok(names) ==> forall|i: int|
            0 <= i < names.len() ==> numbered.contains((#[trigger] names[i]).0),
    decreases objects.len(),
{
    if objects.len() > 0 {
        lemma_object_names(objects.drop_last(), numbered);
    }
}

} // verus!
