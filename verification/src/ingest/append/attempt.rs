//! One attempt at recording a push, from what the stores answered it.
//!
//! The stores are asked in turn, and each question follows from the answers
//! before it. What the attempt writes follows from all of them.

use vstd::prelude::*;

use crate::error::Error;
use crate::ingest::append::assemble::{
    assemble, assembled, commit_names, commits_recorded, object_names, object_writes, trusts_known,
    AppendPlan, Assembly, AssemblyView, ObjectWrites, RecordedView,
};
use crate::ingest::append::commits::{
    commit_questions, is_in_graph, known_commit, names_commit, number_commits, numbered_from,
    take_commits, to_insert, to_number,
};
use crate::ingest::append::model::{NewCommit, NewObject};
use crate::ingest::append::objects::{
    all_placed, check_packs, fresh, fresh_places, given_out, insertable, is_kind, is_relevant,
    is_root, known_seq, lacking, missing, nth_seq, number_objects, object_questions, of_kind,
    relevant, take_found, taking, wanted_objects, with_found, work_names, work_oids, work_places,
    Relevant,
};
use crate::ingest::append::records::{packed, segments_of, CommitView};
use crate::ingest::identities::{found_as, KnownIdentities};
use crate::ingest::lists::{lemma_filtered, lemma_push_contains};
use crate::model::{Identity, ObjectMeta, ObjectSeq, PackImageLocation};
use crate::object::{Kind, ObjectId};
use crate::ordmap::OrdMap;
use crate::seqs::SeqSets;

verus! {

/// The commits of a push, planned.
pub struct CommitPlan {
    /// The commits to record, parents first.
    pub to_insert: Vec<ObjectId>,
    /// The number of every commit that the push names.
    pub seq_of: OrdMap<ObjectId, i64>,
    /// The commits that this push numbered.
    pub numbered_here: Vec<ObjectId>,
}

/// The numbers of the commits that a push names, before any is taken: what was
/// known, and what was found of the rest.
pub open spec fn commits_at_hand(
    order: Seq<ObjectId>,
    commits: Map<ObjectId, NewCommit>,
    known: Map<ObjectId, Option<Identity>>,
    found: Map<ObjectId, i64>,
) -> Map<ObjectId, i64> {
    Map::new(
        |oid: ObjectId| names_commit(order, commits, oid) && known_commit(known, oid),
        |oid: ObjectId| found_as(known, oid)->0.seq,
    ).union_prefer_right(found)
}

/// The commits that an attempt numbers: those to record that have no number.
pub open spec fn commits_to_number(
    order: Seq<ObjectId>,
    metas: Map<ObjectId, ObjectMeta>,
    at_hand: Map<ObjectId, i64>,
) -> Seq<ObjectId> {
    order.filter(|oid: ObjectId| !is_in_graph(metas, oid)).filter(
        |oid: ObjectId| !at_hand.contains_key(oid),
    )
}

/// Every commit that a push adds, and the number of every commit that it names.
///
/// `found` is what the numbers of the commits to ask about came to, `metas` what
/// the graph holds of those with a number, and `start` where the range that was
/// allocated begins.
pub fn plan_commits(
    order: &[ObjectId],
    new_commits: &OrdMap<ObjectId, NewCommit>,
    known: &KnownIdentities,
    found: &OrdMap<ObjectId, i64>,
    metas: &OrdMap<ObjectId, ObjectMeta>,
    start: i64,
) -> (plan: CommitPlan)
    requires
        start + commits_to_number(
            order@,
            metas@,
            commits_at_hand(order@, new_commits@, known@, found@),
        ).len() <= i64::MAX + 1,
    ensures
        plan.to_insert@ == order@.filter(|oid: ObjectId| !is_in_graph(metas@, oid)),
        plan.numbered_here@ == commits_to_number(
            order@,
            metas@,
            commits_at_hand(order@, new_commits@, known@, found@),
        ),
        plan.seq_of@ == numbered_from(
            commits_at_hand(order@, new_commits@, known@, found@),
            plan.numbered_here@,
            start,
        ),
{
    let questions = commit_questions(order, new_commits, known);
    let mut seq_of = questions.seq_of;
    take_commits(&mut seq_of, found);
    let to_insert = to_insert(order, metas);
    let numbered_here = to_number(&to_insert, &seq_of);
    number_commits(&mut seq_of, &numbered_here, start);
    CommitPlan { to_insert, seq_of, numbered_here }
}

/// The objects of a push, planned.
pub struct ObjectPlan {
    /// The objects with work.
    pub relevant: Vec<Relevant>,
    /// The number of every object that recording names.
    pub seq_of: OrdMap<ObjectId, ObjectSeq>,
    /// The objects that appear for the first time.
    pub fresh: Vec<ObjectId>,
    /// The objects that this push numbered.
    pub numbered_here: Vec<ObjectId>,
}

/// Where the ranges that were allocated begin: each kind is counted by itself.
#[derive(Clone, Copy, Debug)]
pub struct Starts {
    pub trees: i64,
    pub blobs: i64,
    pub tags: i64,
}

/// The numbers of the objects that recording names, before any is taken: what
/// was known, and what was found of the rest.
pub open spec fn objects_at_hand(
    work: Seq<Relevant>,
    objects: Seq<NewObject>,
    to_insert: Seq<ObjectId>,
    commits: Map<ObjectId, NewCommit>,
    known: Map<ObjectId, Option<Identity>>,
    found: Map<ObjectId, Identity>,
) -> Map<ObjectId, ObjectSeq> {
    with_found(
        Map::new(
            |oid: ObjectId|
                (work_names(work, objects, oid) || is_root(to_insert, commits, oid)) && known_seq(
                    known,
                    oid,
                ) is Some,
            |oid: ObjectId| known_seq(known, oid)->0,
        ),
        found,
    )
}

/// Whether a range holds a number for each of `n` objects of a kind.
pub open spec fn counts(kind: Kind, start: i64, n: nat) -> bool {
    forall|k: int| 0 <= k < n ==> #[trigger] nth_seq(kind, start, k as nat) is Some
}

/// Whether the ranges hold a number for each object that lacks one.
pub open spec fn all_counted(lacking: Seq<(ObjectId, Kind)>, starts: Starts) -> bool {
    &&& counts(Kind::Tree, starts.trees, of_kind(lacking, Kind::Tree).len())
    &&& counts(Kind::Blob, starts.blobs, of_kind(lacking, Kind::Blob).len())
    &&& counts(Kind::Tag, starts.tags, of_kind(lacking, Kind::Tag).len())
}

/// The numbers once each object that lacked one has its own.
pub open spec fn all_given_out(
    at_hand: Map<ObjectId, ObjectSeq>,
    lacking: Seq<(ObjectId, Kind)>,
    starts: Starts,
) -> Map<ObjectId, ObjectSeq> {
    let trees = given_out(at_hand, of_kind(lacking, Kind::Tree), Kind::Tree, starts.trees);
    let blobs = given_out(trees, of_kind(lacking, Kind::Blob), Kind::Blob, starts.blobs);
    given_out(blobs, of_kind(lacking, Kind::Tag), Kind::Tag, starts.tags)
}

/// Give every object that lacks a number its own, kind by kind.
fn allocate_object_seqs(
    seq_of: &mut OrdMap<ObjectId, ObjectSeq>,
    lacking: &[(ObjectId, Kind)],
    starts: Starts,
) -> (r: Result<(), Error>)
    ensures
        match r {
            Ok(_) => all_counted(lacking@, starts) && final(seq_of)@ == all_given_out(
                old(seq_of)@,
                lacking@,
                starts,
            ),
            Err(error) => error == Error::NotCounted && !all_counted(lacking@, starts),
        },
{
    let trees = taking(lacking, Kind::Tree);
    let blobs = taking(lacking, Kind::Blob);
    let tags = taking(lacking, Kind::Tag);
    match number_objects(seq_of, &trees, Kind::Tree, starts.trees) {
        Err(error) => {
            return Err(error);
        },
        Ok(_) => {},
    }
    match number_objects(seq_of, &blobs, Kind::Blob, starts.blobs) {
        Err(error) => {
            return Err(error);
        },
        Ok(_) => {},
    }
    number_objects(seq_of, &tags, Kind::Tag, starts.tags)
}

/// The objects of a push with work, the number of each that recording names,
/// and which of them are new.
///
/// `found` is what the objects to ask about came to, `metas` what the index
/// holds of those with work and a number, and `starts` where the ranges that
/// were allocated begin. Fails where a range holds a number below zero.
pub fn plan_objects(
    new_objects: &[NewObject],
    to_insert: &[ObjectId],
    new_commits: &OrdMap<ObjectId, NewCommit>,
    known: &KnownIdentities,
    found: &OrdMap<ObjectId, Identity>,
    metas: &OrdMap<ObjectId, ObjectMeta>,
    starts: Starts,
) -> (plan: Result<ObjectPlan, Error>)
    ensures
        match plan {
            Ok(plan) => {
                let at_hand = objects_at_hand(
                    plan.relevant@,
                    new_objects@,
                    to_insert@,
                    new_commits@,
                    known@,
                    found@,
                );
                let lacked = lacking(plan.relevant@, new_objects@, at_hand);
                &&& is_relevant(plan.relevant@, new_objects@, to_insert@)
                &&& all_counted(lacked, starts)
                &&& plan.seq_of@ == all_given_out(at_hand, lacked, starts)
                &&& plan.fresh@ == work_oids(plan.relevant@, new_objects@).filter(
                    |oid: ObjectId| !is_in_graph(metas@, oid),
                )
                &&& plan.numbered_here@ == lacked.map_values(|pair: (ObjectId, Kind)| pair.0)
            },
            Err(error) => {
                &&& error == Error::NotCounted
                &&& exists|work: Seq<Relevant>| #[trigger]
                    is_relevant(work, new_objects@, to_insert@) && !all_counted(
                        lacking(
                            work,
                            new_objects@,
                            objects_at_hand(
                                work,
                                new_objects@,
                                to_insert@,
                                new_commits@,
                                known@,
                                found@,
                            ),
                        ),
                        starts,
                    )
            },
        },
{
    let work = relevant(new_objects, to_insert);
    let wanted = wanted_objects(new_objects, &work, to_insert, new_commits);
    let oids = insertable(new_objects, &work);
    let questions = object_questions(&wanted, known, &oids);
    let mut seq_of = questions.seq_of;
    take_found(&mut seq_of, found);
    let ghost at_hand = seq_of@;
    assert(at_hand =~= objects_at_hand(
        work@,
        new_objects@,
        to_insert@,
        new_commits@,
        known@,
        found@,
    ));
    let absent = missing(new_objects, &work, &seq_of);
    assert(absent@ == lacking(work@, new_objects@, at_hand));
    match allocate_object_seqs(&mut seq_of, &absent, starts) {
        Err(error) => {
            return Err(error);
        },
        Ok(_) => {},
    }
    let ghost first = |pair: (ObjectId, Kind)| pair.0;
    let mut numbered_here: Vec<ObjectId> = Vec::new();
    let mut i: usize = 0;
    while i < absent.len()
        invariant
            i <= absent@.len(),
            first == (|pair: (ObjectId, Kind)| pair.0),
            numbered_here@ == absent@.map_values(first).take(i as int),
        decreases absent@.len() - i,
    {
        numbered_here.push(absent[i].0);
        i += 1;
        assert(numbered_here@ =~= absent@.map_values(first).take(i as int));
    }
    assert(numbered_here@ =~= absent@.map_values(first));
    let new = fresh(&oids, metas);
    Ok(ObjectPlan { relevant: work, seq_of, fresh: new, numbered_here })
}

/// What the stores answered one attempt.
pub struct Answers {
    /// The numbers of the commits that were asked about.
    pub commit_seqs: OrdMap<ObjectId, i64>,
    /// What the graph holds of the commits that have a number.
    pub commit_metas: OrdMap<ObjectId, ObjectMeta>,
    /// Where the range that was allocated to commits begins.
    pub commit_start: i64,
    /// What the objects that were asked about are.
    pub identities: OrdMap<ObjectId, Identity>,
    /// What the index holds of the objects with work that have a number.
    pub metas: OrdMap<ObjectId, ObjectMeta>,
    /// Where the ranges that were allocated to objects begin.
    pub starts: Starts,
}

/// Whether `plan` is what planning settles of a push.
pub open spec fn is_planned(
    plan: AppendPlan,
    order: Seq<ObjectId>,
    commits: Map<ObjectId, NewCommit>,
    objects: Seq<NewObject>,
    known: Map<ObjectId, Option<Identity>>,
    answers: Answers,
) -> bool {
    let commits_held = commits_at_hand(order, commits, known, answers.commit_seqs@);
    let recording = plan.to_insert@;
    let at_hand = objects_at_hand(
        plan.relevant@,
        objects,
        recording,
        commits,
        known,
        answers.identities@,
    );
    let lacked = lacking(plan.relevant@, objects, at_hand);
    &&& recording == order.filter(|oid: ObjectId| !is_in_graph(answers.commit_metas@, oid))
    &&& plan.commits_numbered_here@ == commits_to_number(order, answers.commit_metas@, commits_held)
    &&& plan.commit_seq_of@ == numbered_from(
        commits_held,
        plan.commits_numbered_here@,
        answers.commit_start,
    )
    &&& is_relevant(plan.relevant@, objects, recording)
    &&& all_counted(lacked, answers.starts)
    &&& plan.seq_of@ == all_given_out(at_hand, lacked, answers.starts)
    &&& plan.fresh@ == work_oids(plan.relevant@, objects).filter(
        |oid: ObjectId| !is_in_graph(answers.metas@, oid),
    )
    &&& plan.numbered_here@ == lacked.map_values(|pair: (ObjectId, Kind)| pair.0)
}

/// Whether a range that was allocated to objects holds no number for one of
/// them.
pub open spec fn is_uncounted(
    order: Seq<ObjectId>,
    commits: Map<ObjectId, NewCommit>,
    objects: Seq<NewObject>,
    known: Map<ObjectId, Option<Identity>>,
    answers: Answers,
) -> bool {
    let recording = order.filter(|oid: ObjectId| !is_in_graph(answers.commit_metas@, oid));
    exists|work: Seq<Relevant>| #[trigger]
        is_relevant(work, objects, recording) && !all_counted(
            lacking(
                work,
                objects,
                objects_at_hand(
                    work,
                    objects,
                    recording,
                    commits,
                    known,
                    answers.identities@,
                ),
            ),
            answers.starts,
        )
}

/// Everything that one attempt at recording a push writes: the numbers, which
/// come first and alone, and then what the journal carries.
///
/// Fails where an object is said to be in a pack that the push does not bring,
/// where a range that was allocated holds no number, and where what is to be
/// written names something without a number.
pub fn append_once(
    order: &[ObjectId],
    new_commits: &OrdMap<ObjectId, NewCommit>,
    new_objects: &[NewObject],
    known: &KnownIdentities,
    answers: &Answers,
) -> (assembly: Result<Assembly, Error>)
    requires
        answers.commit_start + commits_to_number(
            order@,
            answers.commit_metas@,
            commits_at_hand(order@, new_commits@, known@, answers.commit_seqs@),
        ).len() <= i64::MAX + 1,
    ensures
        match assembly {
            Ok(assembly) => all_placed(new_objects@, new_commits@) && exists|plan: AppendPlan|
                #[trigger]
                is_planned(plan, order@, new_commits@, new_objects@, known@, *answers)
                    && assembled(plan, new_commits@, new_objects@) == Ok::<AssemblyView, Error>(
                    assembly@,
                ),
            Err(error) => if !all_placed(new_objects@, new_commits@) {
                error == Error::PackAbsent
            } else {
                ||| error == Error::NotCounted && is_uncounted(
                    order@,
                    new_commits@,
                    new_objects@,
                    known@,
                    *answers,
                )
                ||| exists|plan: AppendPlan| #[trigger]
                    is_planned(plan, order@, new_commits@, new_objects@, known@, *answers)
                        && assembled(plan, new_commits@, new_objects@) == Err::<
                        AssemblyView,
                        Error,
                    >(error)
            },
        },
{
    match check_packs(new_objects, new_commits) {
        Err(error) => {
            return Err(error);
        },
        Ok(_) => {},
    }
    let commits = plan_commits(
        order,
        new_commits,
        known,
        &answers.commit_seqs,
        &answers.commit_metas,
        answers.commit_start,
    );
    let objects = match plan_objects(
        new_objects,
        &commits.to_insert,
        new_commits,
        known,
        &answers.identities,
        &answers.metas,
        answers.starts,
    ) {
        Ok(objects) => objects,
        Err(error) => {
            assert(is_uncounted(order@, new_commits@, new_objects@, known@, *answers));
            return Err(error);
        },
    };
    let plan = AppendPlan {
        to_insert: commits.to_insert,
        commit_seq_of: commits.seq_of,
        commits_numbered_here: commits.numbered_here,
        relevant: objects.relevant,
        seq_of: objects.seq_of,
        fresh: objects.fresh,
        numbered_here: objects.numbered_here,
    };
    assert(is_planned(plan, order@, new_commits@, new_objects@, known@, *answers));
    assemble(&plan, new_commits, new_objects)
}

/// Taking numbers gives each commit one, and leaves those that have one alone.
/// What attempt `tried` goes by of what was read before the push started: all
/// of it at first, and nothing once a race was lost.
pub open spec fn trusted(known: Map<ObjectId, Option<Identity>>, tried: u32) -> Map<
    ObjectId,
    Option<Identity>,
> {
    if tried == 0 {
        known
    } else {
        Map::empty()
    }
}

/// Whether a push brings nothing at all.
pub open spec fn brings_nothing(
    commits: Map<ObjectId, NewCommit>,
    objects: Seq<NewObject>,
) -> bool {
    commits == Map::<ObjectId, NewCommit>::empty() && objects.len() == 0
}

/// Whether a push brings nothing but commits that the graph holds and what is in
/// their packs.
pub open spec fn is_repeated(
    order: Seq<ObjectId>,
    commits: Map<ObjectId, NewCommit>,
    objects: Seq<NewObject>,
    metas: Map<ObjectId, ObjectMeta>,
) -> bool {
    &&& forall|i: int| 0 <= i < order.len() ==> is_in_graph(metas, #[trigger] order[i])
    &&& forall|i: int| 0 <= i < objects.len() ==> (#[trigger] objects[i]).locations@.len() > 0
    &&& all_placed(objects, commits)
}

/// What attempt `tried` at recording a push writes; none where the push brings
/// nothing.
///
/// A commit that the graph holds is not written again, whatever was read before
/// the push started: it keeps its number and its place. A push of nothing else
/// succeeds and writes nothing.
pub fn append(
    order: &[ObjectId],
    new_commits: &OrdMap<ObjectId, NewCommit>,
    new_objects: &[NewObject],
    known: &KnownIdentities,
    tried: u32,
    answers: &Answers,
) -> (assembly: Result<Option<Assembly>, Error>)
    requires
        answers.commit_start + commits_to_number(
            order@,
            answers.commit_metas@,
            commits_at_hand(order@, new_commits@, trusted(known@, tried), answers.commit_seqs@),
        ).len() <= i64::MAX + 1,
    ensures
        match assembly {
            Ok(None) => brings_nothing(new_commits@, new_objects@),
            Ok(Some(assembly)) => {
                &&& !brings_nothing(new_commits@, new_objects@)
                &&& all_placed(new_objects@, new_commits@)
                &&& exists|plan: AppendPlan| #[trigger]
                    is_planned(
                        plan,
                        order@,
                        new_commits@,
                        new_objects@,
                        trusted(known@, tried),
                        *answers,
                    ) && assembled(plan, new_commits@, new_objects@) == Ok::<AssemblyView, Error>(
                        assembly@,
                    )
                &&& forall|j: int|
                    0 <= j < assembly@.commits.len() ==> {
                        &&& order@.contains((#[trigger] assembly@.commits[j]).oid)
                        &&& !is_in_graph(answers.commit_metas@, assembly@.commits[j].oid)
                    }
            },
            Err(error) => {
                &&& !brings_nothing(new_commits@, new_objects@)
                &&& if !all_placed(new_objects@, new_commits@) {
                    error == Error::PackAbsent
                } else {
                    ||| error == Error::NotCounted && is_uncounted(
                        order@,
                        new_commits@,
                        new_objects@,
                        trusted(known@, tried),
                        *answers,
                    )
                    ||| exists|plan: AppendPlan| #[trigger]
                        is_planned(
                            plan,
                            order@,
                            new_commits@,
                            new_objects@,
                            trusted(known@, tried),
                            *answers,
                        ) && assembled(plan, new_commits@, new_objects@) == Err::<
                            AssemblyView,
                            Error,
                        >(error)
                }
            },
        },
        is_repeated(order@, new_commits@, new_objects@, answers.commit_metas@)
            ==> match assembly {
            Ok(None) => true,
            Ok(Some(assembly)) => assembly@ == nothing_written(),
            Err(_) => false,
        },
{
    if new_commits.is_empty() && new_objects.len() == 0 {
        return Ok(None);
    }
    let reread = KnownIdentities::nothing();
    let reading = if trusts_known(tried) {
        known
    } else {
        &reread
    };
    assert(reading@ == trusted(known@, tried));
    let written = append_once(order, new_commits, new_objects, reading, answers);
    proof {
        if is_repeated(order@, new_commits@, new_objects@, answers.commit_metas@) {
            a_repeated_push_writes_nothing(
                order@,
                new_commits@,
                new_objects@,
                reading@,
                *answers,
            );
        }
    }
    match written {
        Err(error) => Err(error),
        Ok(assembly) => {
            proof {
                let plan = choose|plan: AppendPlan| #[trigger]
                    is_planned(plan, order@, new_commits@, new_objects@, reading@, *answers)
                        && assembled(plan, new_commits@, new_objects@) == Ok::<
                        AssemblyView,
                        Error,
                    >(assembly@);
                lemma_recorded_anew(
                    plan,
                    order@,
                    new_commits@,
                    new_objects@,
                    reading@,
                    *answers,
                    assembly@,
                );
            }
            Ok(Some(assembly))
        },
    }
}

proof fn lemma_recorded_anew(
    plan: AppendPlan,
    order: Seq<ObjectId>,
    commits: Map<ObjectId, NewCommit>,
    objects: Seq<NewObject>,
    known: Map<ObjectId, Option<Identity>>,
    answers: Answers,
    written: AssemblyView,
)
    requires
        is_planned(plan, order, commits, objects, known, answers),
        assembled(plan, commits, objects) == Ok::<AssemblyView, Error>(written),
    ensures
        forall|j: int|
            0 <= j < written.commits.len() ==> {
                &&& plan.to_insert@.contains((#[trigger] written.commits[j]).oid)
                &&& order.contains(written.commits[j].oid)
                &&& !is_in_graph(answers.commit_metas@, written.commits[j].oid)
            },
{
    let recording = plan.to_insert@;
    let open = |oid: ObjectId| !is_in_graph(answers.commit_metas@, oid);
    lemma_filtered(order, open);
    let sets = packed(plan.relevant@, objects, plan.seq_of@)->Ok_0;
    lemma_recorded_oids(recording, commits, plan.commit_seq_of@, plan.seq_of@, sets);
    let oid_of = |commit: CommitView| commit.oid;
    assert forall|j: int| 0 <= j < written.commits.len() implies {
        &&& recording.contains((#[trigger] written.commits[j]).oid)
        &&& order.contains(written.commits[j].oid)
        &&& !is_in_graph(answers.commit_metas@, written.commits[j].oid)
    } by {
        assert(written.commits.map_values(oid_of)[j] == recording[j]);
    }
}

proof fn lemma_numbered(at_hand: Map<ObjectId, i64>, taking: Seq<ObjectId>, start: i64)
    ensures
        forall|oid: ObjectId| #[trigger]
            numbered_from(at_hand, taking, start).contains_key(oid) <==> at_hand.contains_key(oid)
                || taking.contains(oid),
        forall|oid: ObjectId|
            !taking.contains(oid) ==> #[trigger] numbered_from(at_hand, taking, start)[oid]
                == at_hand[oid],
    decreases taking.len(),
{
    if taking.len() > 0 {
        let rest = taking.drop_last();
        let earlier = numbered_from(at_hand, rest, start);
        lemma_numbered(at_hand, rest, start);
        assert(rest.push(taking.last()) =~= taking);
        assert forall|oid: ObjectId| #[trigger]
            numbered_from(at_hand, taking, start).contains_key(oid) <==> at_hand.contains_key(oid)
                || taking.contains(oid) by {
            lemma_push_contains(rest, taking.last(), oid);
            assert(earlier.contains_key(oid) <==> at_hand.contains_key(oid) || rest.contains(oid));
        }
        assert forall|oid: ObjectId| !taking.contains(oid) implies #[trigger] numbered_from(
            at_hand,
            taking,
            start,
        )[oid] == at_hand[oid] by {
            lemma_push_contains(rest, taking.last(), oid);
            assert(earlier[oid] == at_hand[oid]);
        }
    }
}

/// A commit keeps the number that it has, and every commit to record has one:
/// an attempt after a lost race writes the entry under the number that won.
pub proof fn a_commit_keeps_its_number(
    order: Seq<ObjectId>,
    metas: Map<ObjectId, ObjectMeta>,
    at_hand: Map<ObjectId, i64>,
    start: i64,
)
    ensures
        forall|oid: ObjectId|
            at_hand.contains_key(oid) ==> #[trigger] numbered_from(
                at_hand,
                commits_to_number(order, metas, at_hand),
                start,
            )[oid] == at_hand[oid],
        forall|oid: ObjectId|
            order.contains(oid) && !is_in_graph(metas, oid) ==> #[trigger] numbered_from(
                at_hand,
                commits_to_number(order, metas, at_hand),
                start,
            ).contains_key(oid),
{
    let taking = commits_to_number(order, metas, at_hand);
    let held = |oid: ObjectId| !is_in_graph(metas, oid);
    let bare = |oid: ObjectId| !at_hand.contains_key(oid);
    lemma_numbered(at_hand, taking, start);
    lemma_filtered(order, held);
    lemma_filtered(order.filter(held), bare);
    assert forall|oid: ObjectId| at_hand.contains_key(oid) implies #[trigger] numbered_from(
        at_hand,
        taking,
        start,
    )[oid] == at_hand[oid] by {
        assert(!bare(oid));
        assert(!taking.contains(oid));
    }
    assert forall|oid: ObjectId| order.contains(oid) && !is_in_graph(metas, oid) implies
        #[trigger] numbered_from(at_hand, taking, start).contains_key(oid) by {
        assert(held(oid));
        assert(order.filter(held).contains(oid));
        assert(bare(oid) ==> taking.contains(oid));
    }
}

proof fn lemma_recorded_oids(
    to_insert: Seq<ObjectId>,
    commits: Map<ObjectId, NewCommit>,
    commit_seq_of: Map<ObjectId, i64>,
    seq_of: Map<ObjectId, ObjectSeq>,
    bitmaps: Map<ObjectId, SeqSets>,
)
    ensures
        commits_recorded(to_insert, commits, commit_seq_of, seq_of, bitmaps) matches Ok(recorded)
            ==> recorded.map_values(|commit: CommitView| commit.oid) == to_insert,
    decreases to_insert.len(),
{
    if to_insert.len() > 0 {
        lemma_recorded_oids(to_insert.drop_last(), commits, commit_seq_of, seq_of, bitmaps);
        if let Ok(recorded) = commits_recorded(
            to_insert,
            commits,
            commit_seq_of,
            seq_of,
            bitmaps,
        ) {
            let oid_of = |commit: CommitView| commit.oid;
            assert(recorded.drop_last().map_values(oid_of) == to_insert.drop_last());
            assert forall|i: int| 0 <= i < to_insert.len() implies recorded.map_values(oid_of)[i]
                == #[trigger] to_insert[i] by {
                if i < to_insert.len() - 1 {
                    assert(recorded.drop_last().map_values(oid_of)[i] == to_insert.drop_last()[i]);
                }
            }
            assert(recorded.map_values(oid_of) =~= to_insert);
        }
    }
}

proof fn lemma_write_kinds(
    relevant: Seq<Relevant>,
    objects: Seq<NewObject>,
    fresh: Seq<ObjectId>,
    commits: Map<ObjectId, NewCommit>,
    commit_seq_of: Map<ObjectId, i64>,
    seq_of: Map<ObjectId, ObjectSeq>,
)
    requires
        forall|i: int| 0 <= i < objects.len() ==> (#[trigger] objects[i]).kind != Kind::Commit,
        forall|i: int| 0 <= i < relevant.len() ==> (#[trigger] relevant[i]).at < objects.len(),
    ensures
        object_writes(relevant, objects, fresh, commits, commit_seq_of, seq_of) matches Ok(writes)
            ==> forall|i: int|
            0 <= i < writes.fresh.len() ==> (#[trigger] writes.fresh[i]).kind != Kind::Commit,
    decreases relevant.len(),
{
    if relevant.len() > 0 {
        let rest = relevant.drop_last();
        assert forall|i: int| 0 <= i < rest.len() implies (#[trigger] rest[i]).at
            < objects.len() by {
            assert(rest[i] == relevant[i]);
        }
        lemma_write_kinds(rest, objects, fresh, commits, commit_seq_of, seq_of);
        assert(relevant.last().at < objects.len());
    }
}

proof fn lemma_name_kinds(objects: Seq<RecordedView>, numbered: Seq<ObjectId>)
    requires
        forall|i: int| 0 <= i < objects.len() ==> (#[trigger] objects[i]).kind != Kind::Commit,
    ensures
        object_names(objects, numbered) matches Ok(names) ==> forall|i: int|
            0 <= i < names.len() ==> (#[trigger] names[i]).1.kind != Kind::Commit,
    decreases objects.len(),
{
    if objects.len() > 0 {
        lemma_name_kinds(objects.drop_last(), numbered);
        assert(objects.last().kind != Kind::Commit);
    }
}

/// What an earlier push recorded stays as it is: a later push that names the
/// same commits, in whichever segments it wrote them and whatever it was told
/// of them before it started, records none of them again, gives none of them a
/// number, and adds no place in one of their packs.
pub proof fn what_was_recorded_stays(
    earlier: AssemblyView,
    plan: AppendPlan,
    order: Seq<ObjectId>,
    commits: Map<ObjectId, NewCommit>,
    objects: Seq<NewObject>,
    known: Map<ObjectId, Option<Identity>>,
    answers: Answers,
    later: AssemblyView,
)
    requires
        is_planned(plan, order, commits, objects, known, answers),
        assembled(plan, commits, objects) == Ok::<AssemblyView, Error>(later),
        forall|i: int| 0 <= i < objects.len() ==> (#[trigger] objects[i]).kind != Kind::Commit,
        forall|i: int|
            0 <= i < earlier.commits.len() ==> is_in_graph(
                answers.commit_metas@,
                (#[trigger] earlier.commits[i]).oid,
            ),
    ensures
        forall|i: int, j: int|
            0 <= i < earlier.commits.len() && 0 <= j < later.commits.len() ==> (
            #[trigger] earlier.commits[i]).oid != (#[trigger] later.commits[j]).oid,
        forall|i: int, j: int|
            0 <= i < earlier.commits.len() && 0 <= j < later.named.len()
                && later.named[j].1.kind == Kind::Commit ==> (#[trigger] earlier.commits[i]).oid
                != (#[trigger] later.named[j]).0,
        later.segments == segments_of(plan.to_insert@, commits),
        forall|i: int|
            0 <= i < earlier.commits.len() ==> !plan.to_insert@.contains(
                (#[trigger] earlier.commits[i]).oid,
            ),
        forall|i: int, j: int, k: int|
            0 <= i < earlier.commits.len() && 0 <= j < plan.relevant@.len() && 0 <= k
                < plan.relevant@[j].fresh@.len() ==> (#[trigger] earlier.commits[i]).oid != (
            #[trigger] plan.relevant@[j].fresh@[k]).pack_sha,
{
    let recording = plan.to_insert@;
    let open = |oid: ObjectId| !is_in_graph(answers.commit_metas@, oid);
    lemma_filtered(order, open);
    lemma_recorded_anew(plan, order, commits, objects, known, answers, later);
    assert forall|i: int| 0 <= i < earlier.commits.len() implies !recording.contains(
        (#[trigger] earlier.commits[i]).oid,
    ) by {
        assert(!open(earlier.commits[i].oid));
    }
    let numbering = |commit: CommitView| plan.commits_numbered_here@.contains(commit.oid);
    let naming = |commit: CommitView|
        (commit.oid, Identity { seq: commit.seq, kind: Kind::Commit });
    let own = later.commits.filter(numbering);
    lemma_filtered(later.commits, numbering);
    lemma_write_kinds(
        plan.relevant@,
        objects,
        plan.fresh@,
        commits,
        plan.commit_seq_of@,
        plan.seq_of@,
    );
    lemma_name_kinds(later.objects.fresh, plan.numbered_here@);
    let names = object_names(later.objects.fresh, plan.numbered_here@)->Ok_0;
    assert(later.named == own.map_values(naming) + names);
    assert forall|j: int|
        0 <= j < later.named.len() && later.named[j].1.kind == Kind::Commit implies recording.contains(
        (#[trigger] later.named[j]).0,
    ) by {
        if j < own.len() {
            assert(own.contains(own[j]));
            assert(later.commits.contains(own[j]));
            let m = choose|m: int| 0 <= m < later.commits.len() && later.commits[m] == own[j];
            assert(recording.contains(later.commits[m].oid));
        } else {
            assert(later.named[j] == names[j - own.len()]);
        }
    }
    assert forall|j: int, k: int|
        0 <= j < plan.relevant@.len() && 0 <= k < plan.relevant@[j].fresh@.len() implies recording.contains(
        (#[trigger] plan.relevant@[j].fresh@[k]).pack_sha,
    ) by {
        let work = plan.relevant@[j];
        let object = objects[work.at as int];
        let held = |place: PackImageLocation| recording.contains(place.pack_sha);
        lemma_filtered(object.locations@, held);
        assert(work.fresh@ == object.locations@.filter(held));
        assert(work.fresh@.contains(work.fresh@[k]));
    }
}

proof fn lemma_no_work(objects: Seq<NewObject>)
    requires
        forall|i: int| 0 <= i < objects.len() ==> (#[trigger] objects[i]).locations@.len() > 0,
    ensures
        work_places(objects, Seq::empty()).len() == 0,
    decreases objects.len(),
{
    if objects.len() > 0 {
        let rest = objects.drop_last();
        assert forall|i: int| 0 <= i < rest.len() implies (
        #[trigger] rest[i]).locations@.len() > 0 by {
            assert(objects[i].locations@.len() > 0);
        }
        lemma_no_work(rest);
        let last = objects[objects.len() - 1];
        assert(last.locations@.len() > 0);
        let held = |place: PackImageLocation| Seq::<ObjectId>::empty().contains(place.pack_sha);
        lemma_filtered(last.locations@, held);
        if fresh_places(last, Seq::empty()).len() > 0 {
            assert(last.locations@.filter(held).contains(last.locations@.filter(held)[0]));
        }
    }
}

/// An attempt that writes nothing.
pub open spec fn nothing_written() -> AssemblyView {
    AssemblyView {
        named: Seq::empty(),
        segments: Seq::empty(),
        objects: ObjectWrites { fresh: Seq::empty(), added: Seq::empty() },
        commits: Seq::empty(),
    }
}

/// A push of nothing but commits that the graph holds, and of what is in their
/// packs, succeeds and writes nothing, whatever it was told before it started.
pub proof fn a_repeated_push_writes_nothing(
    order: Seq<ObjectId>,
    commits: Map<ObjectId, NewCommit>,
    objects: Seq<NewObject>,
    known: Map<ObjectId, Option<Identity>>,
    answers: Answers,
)
    requires
        forall|i: int|
            0 <= i < order.len() ==> is_in_graph(answers.commit_metas@, #[trigger] order[i]),
        forall|i: int| 0 <= i < objects.len() ==> (#[trigger] objects[i]).locations@.len() > 0,
    ensures
        !is_uncounted(order, commits, objects, known, answers),
        forall|plan: AppendPlan| #[trigger]
            is_planned(plan, order, commits, objects, known, answers) ==> assembled(
                plan,
                commits,
                objects,
            ) == Ok::<AssemblyView, Error>(nothing_written()),
{
    let open = |oid: ObjectId| !is_in_graph(answers.commit_metas@, oid);
    let recording = order.filter(open);
    lemma_filtered(order, open);
    if recording.len() > 0 {
        assert(recording.contains(recording[0]));
    }
    assert(recording =~= Seq::<ObjectId>::empty());
    lemma_no_work(objects);
    assert forall|work: Seq<Relevant>| #[trigger] is_relevant(work, objects, recording) implies work
        == Seq::<Relevant>::empty() by {
        assert(work =~= Seq::<Relevant>::empty());
    }
    assert forall|plan: AppendPlan| #[trigger]
        is_planned(plan, order, commits, objects, known, answers) implies assembled(
        plan,
        commits,
        objects,
    ) == Ok::<AssemblyView, Error>(nothing_written()) by {
        assert(plan.relevant@ == Seq::<Relevant>::empty());
        let names = commit_names(Seq::empty(), plan.commits_numbered_here@);
        reveal(Seq::filter);
        assert(names =~= Seq::<(ObjectId, Identity)>::empty());
        assert(names + Seq::<(ObjectId, Identity)>::empty() =~= Seq::empty());
    }
}

/// The numbers that an attempt takes for commits are its range, one each, in
/// the order that the commits are recorded in.
pub proof fn commits_take_a_range(
    order: Seq<ObjectId>,
    metas: Map<ObjectId, ObjectMeta>,
    at_hand: Map<ObjectId, i64>,
    start: i64,
    i: int,
)
    requires
        order.no_duplicates(),
        start + commits_to_number(order, metas, at_hand).len() <= i64::MAX + 1,
        0 <= i < commits_to_number(order, metas, at_hand).len(),
    ensures
        numbered_from(at_hand, commits_to_number(order, metas, at_hand), start)[commits_to_number(
            order,
            metas,
            at_hand,
        )[i]] == start + i,
{
    let held = |oid: ObjectId| !is_in_graph(metas, oid);
    let bare = |oid: ObjectId| !at_hand.contains_key(oid);
    lemma_filter_distinct(order, held);
    lemma_filter_distinct(order.filter(held), bare);
    lemma_range(at_hand, commits_to_number(order, metas, at_hand), start, i);
}

/// What is distinct stays so.
proof fn lemma_filter_distinct(s: Seq<ObjectId>, keep: spec_fn(ObjectId) -> bool)
    requires
        s.no_duplicates(),
    ensures
        s.filter(keep).no_duplicates(),
    decreases s.len(),
{
    reveal(Seq::filter);
    if s.len() > 0 {
        let rest = s.drop_last();
        let kept = rest.filter(keep);
        lemma_filter_distinct(rest, keep);
        lemma_filtered(rest, keep);
        assert forall|a: int, b: int|
            0 <= a < s.filter(keep).len() && 0 <= b < s.filter(keep).len() && a != b implies
            s.filter(keep)[a] != s.filter(keep)[b] by {
            assert forall|k: int| 0 <= k < kept.len() implies kept[k] != s.last() by {
                assert(kept.contains(kept[k]));
                let i = choose|i: int| 0 <= i < rest.len() && rest[i] == kept[k];
                assert(s[i] == kept[k]);
            }
        }
    }
}

proof fn lemma_range(at_hand: Map<ObjectId, i64>, taking: Seq<ObjectId>, start: i64, i: int)
    requires
        taking.no_duplicates(),
        start + taking.len() <= i64::MAX + 1,
        0 <= i < taking.len(),
    ensures
        numbered_from(at_hand, taking, start)[taking[i]] == start + i,
    decreases taking.len(),
{
    if i < taking.len() - 1 {
        lemma_range(at_hand, taking.drop_last(), start, i);
        assert(taking.drop_last()[i] == taking[i]);
        assert(taking[i] != taking.last());
    }
}

/// Giving numbers out gives each object one, and leaves the others alone.
proof fn lemma_given_out(
    at_hand: Map<ObjectId, ObjectSeq>,
    taking: Seq<ObjectId>,
    kind: Kind,
    start: i64,
)
    ensures
        forall|oid: ObjectId| #[trigger]
            given_out(at_hand, taking, kind, start).contains_key(oid) <==> at_hand.contains_key(oid)
                || taking.contains(oid),
        forall|oid: ObjectId|
            !taking.contains(oid) ==> #[trigger] given_out(at_hand, taking, kind, start)[oid]
                == at_hand[oid],
    decreases taking.len(),
{
    if taking.len() > 0 {
        let rest = taking.drop_last();
        let earlier = given_out(at_hand, rest, kind, start);
        lemma_given_out(at_hand, rest, kind, start);
        assert(rest.push(taking.last()) =~= taking);
        assert forall|oid: ObjectId| #[trigger]
            given_out(at_hand, taking, kind, start).contains_key(oid) <==> at_hand.contains_key(oid)
                || taking.contains(oid) by {
            lemma_push_contains(rest, taking.last(), oid);
            assert(earlier.contains_key(oid) <==> at_hand.contains_key(oid) || rest.contains(oid));
        }
        assert forall|oid: ObjectId| !taking.contains(oid) implies #[trigger] given_out(
            at_hand,
            taking,
            kind,
            start,
        )[oid] == at_hand[oid] by {
            lemma_push_contains(rest, taking.last(), oid);
            assert(earlier[oid] == at_hand[oid]);
        }
    }
}

/// Whether an object has work and lacks a number.
spec fn lacks(
    work: Seq<Relevant>,
    objects: Seq<NewObject>,
    at_hand: Map<ObjectId, ObjectSeq>,
    oid: ObjectId,
    kind: Kind,
) -> bool {
    exists|i: int|
        0 <= i < work.len() && objects[(#[trigger] work[i]).at as int].oid == oid
            && objects[work[i].at as int].kind == kind && !at_hand.contains_key(oid)
}

proof fn lemma_lacking(
    work: Seq<Relevant>,
    objects: Seq<NewObject>,
    at_hand: Map<ObjectId, ObjectSeq>,
    kind: Kind,
)
    ensures
        forall|oid: ObjectId| #[trigger]
            of_kind(lacking(work, objects, at_hand), kind).contains(oid) <==> lacks(
                work,
                objects,
                at_hand,
                oid,
                kind,
            ),
{
    let bare = |one: Relevant| !at_hand.contains_key(objects[one.at as int].oid);
    let pair = |one: Relevant| (objects[one.at as int].oid, objects[one.at as int].kind);
    let kept = work.filter(bare);
    let pairs = lacking(work, objects, at_hand);
    assert(pairs =~= kept.map_values(pair));
    let picked = pairs.filter(is_kind(kind));
    lemma_filtered(work, bare);
    lemma_filtered(pairs, is_kind(kind));
    assert forall|oid: ObjectId| #[trigger] of_kind(pairs, kind).contains(oid) <==> lacks(
        work,
        objects,
        at_hand,
        oid,
        kind,
    ) by {
        let oids = of_kind(pairs, kind);
        if oids.contains(oid) {
            let i = choose|i: int| 0 <= i < oids.len() && oids[i] == oid;
            assert(picked[i].0 == oid);
            assert(picked.contains(picked[i]));
            let k = choose|k: int| 0 <= k < pairs.len() && pairs[k] == picked[i];
            assert(pairs[k] == pair(kept[k]));
            assert(kept.contains(kept[k]));
            let w = choose|w: int| 0 <= w < work.len() && work[w] == kept[k];
            assert(objects[work[w].at as int].oid == oid);
        }
        if lacks(work, objects, at_hand, oid, kind) {
            let w = choose|w: int|
                0 <= w < work.len() && objects[(#[trigger] work[w]).at as int].oid == oid
                    && objects[work[w].at as int].kind == kind && !at_hand.contains_key(oid);
            assert(work.contains(work[w]) && bare(work[w]));
            assert(kept.contains(work[w]));
            let k = choose|k: int| 0 <= k < kept.len() && kept[k] == work[w];
            assert(pairs[k] == pair(kept[k]));
            assert(pairs.contains((oid, kind)));
            assert(picked.contains((oid, kind)));
            let i = choose|i: int| 0 <= i < picked.len() && picked[i] == (oid, kind);
            assert(oids[i] == oid);
        }
    }
}

/// An object keeps the number that it has, and every tree, blob and tag with
/// work has one.
pub proof fn an_object_keeps_its_number(
    work: Seq<Relevant>,
    objects: Seq<NewObject>,
    at_hand: Map<ObjectId, ObjectSeq>,
    starts: Starts,
)
    ensures
        forall|oid: ObjectId|
            at_hand.contains_key(oid) ==> #[trigger] all_given_out(
                at_hand,
                lacking(work, objects, at_hand),
                starts,
            )[oid] == at_hand[oid],
        forall|i: int|
            0 <= i < work.len() && objects[(#[trigger] work[i]).at as int].kind != Kind::Commit
                ==> all_given_out(
                at_hand,
                lacking(work, objects, at_hand),
                starts,
            ).contains_key(objects[work[i].at as int].oid),
{
    let lacked = lacking(work, objects, at_hand);
    let trees = given_out(at_hand, of_kind(lacked, Kind::Tree), Kind::Tree, starts.trees);
    let blobs = given_out(trees, of_kind(lacked, Kind::Blob), Kind::Blob, starts.blobs);
    lemma_lacking(work, objects, at_hand, Kind::Tree);
    lemma_lacking(work, objects, at_hand, Kind::Blob);
    lemma_lacking(work, objects, at_hand, Kind::Tag);
    lemma_given_out(at_hand, of_kind(lacked, Kind::Tree), Kind::Tree, starts.trees);
    lemma_given_out(trees, of_kind(lacked, Kind::Blob), Kind::Blob, starts.blobs);
    lemma_given_out(blobs, of_kind(lacked, Kind::Tag), Kind::Tag, starts.tags);
    assert forall|oid: ObjectId| at_hand.contains_key(oid) implies #[trigger] all_given_out(
        at_hand,
        lacked,
        starts,
    )[oid] == at_hand[oid] by {
        assert(!of_kind(lacked, Kind::Tree).contains(oid));
        assert(!of_kind(lacked, Kind::Blob).contains(oid));
        assert(!of_kind(lacked, Kind::Tag).contains(oid));
        assert(trees[oid] == at_hand[oid]);
        assert(blobs[oid] == trees[oid]);
    }
    assert forall|i: int|
        0 <= i < work.len() && objects[(#[trigger] work[i]).at as int].kind
            != Kind::Commit implies all_given_out(at_hand, lacked, starts).contains_key(
        objects[work[i].at as int].oid,
    ) by {
        let oid = objects[work[i].at as int].oid;
        let kind = objects[work[i].at as int].kind;
        if !at_hand.contains_key(oid) {
            assert(lacks(work, objects, at_hand, oid, kind));
            assert(of_kind(lacked, kind).contains(oid));
        }
        assert(trees.contains_key(oid) || kind == Kind::Blob || kind == Kind::Tag);
        assert(blobs.contains_key(oid) || kind == Kind::Tag);
    }
}

} // verus!
