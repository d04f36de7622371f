use enroute_git::error::Error;
use enroute_git::ingest::append::assemble::{
    assemble, ranked, tries_again, trusts_known, AppendPlan, MAX_APPEND_ATTEMPTS,
};
use enroute_git::ingest::append::attempt::{append, append_once, plan_commits, Answers, Starts};
use enroute_git::ingest::append::commits::{
    commit_identities, commit_questions, commits_named, number_commits, take_commits, to_insert,
    to_number,
};
use enroute_git::ingest::append::model::{NewCommit, NewObject};
use enroute_git::ingest::append::objects::{
    check_packs, fresh, held_objects, insertable, missing, number_objects, numbered,
    object_questions, relevant, take_found, taking, wanted_objects,
};
use enroute_git::ingest::identities::KnownIdentities;
use enroute_git::model::{CommitPackLocation, Identity, ObjectMeta, ObjectSeq, PackImageLocation};
use enroute_git::object::{Kind, ObjectId};
use enroute_git::objects::location::{SegmentLocation, Ulid};
use enroute_git::ordmap::OrdMap;

fn oid(n: u8) -> ObjectId {
    ObjectId::from_bytes(&[n; 20])
}

fn segment(id: u128) -> SegmentLocation {
    SegmentLocation { id: Ulid(id), base_offset: 5, image_len: 50 }
}

fn new_commit(root: u8, parents: &[u8], id: u128) -> NewCommit {
    NewCommit {
        root_tree: oid(root),
        parents: parents.iter().map(|n| oid(*n)).collect(),
        entry_len: 9,
        blob_offset: 20,
        committer_date: 1234,
        segment: segment(id),
    }
}

fn place(pack: u8, base: Option<u8>) -> PackImageLocation {
    PackImageLocation { pack_sha: oid(pack), offset: 30, entry_len: 7, base: base.map(oid) }
}

fn new_object(n: u8, kind: Kind, places: Vec<PackImageLocation>, children: &[u8]) -> NewObject {
    NewObject {
        oid: oid(n),
        kind,
        locations: places,
        children: children.iter().map(|n| oid(*n)).collect(),
    }
}

fn map<V>(pairs: Vec<(u8, V)>) -> OrdMap<ObjectId, V> {
    let mut map = OrdMap::new();
    for (n, value) in pairs {
        map.insert(oid(n), value);
    }
    map
}

/// Two commits, the second on the first, and what they store: each its tree,
/// and the first the one blob of both.
fn pushed() -> (Vec<ObjectId>, OrdMap<ObjectId, NewCommit>, Vec<NewObject>) {
    let commits = map(vec![(1, new_commit(11, &[], 5)), (2, new_commit(12, &[1], 5))]);
    let objects = vec![
        new_object(11, Kind::Tree, vec![place(1, None)], &[20]),
        new_object(12, Kind::Tree, vec![place(2, Some(11))], &[20]),
        new_object(20, Kind::Blob, vec![place(1, None)], &[]),
    ];
    (vec![oid(1), oid(2)], commits, objects)
}

/// A plan for a push of which nothing was known.
fn planned() -> (AppendPlan, OrdMap<ObjectId, NewCommit>, Vec<NewObject>) {
    let (order, commits, objects) = pushed();
    let known = KnownIdentities::nothing();
    let mut commit_seq_of = commit_questions(&order, &commits, &known).seq_of;
    let inserting = to_insert(&order, &OrdMap::new());
    let commits_numbered_here = to_number(&inserting, &commit_seq_of);
    number_commits(&mut commit_seq_of, &commits_numbered_here, 100);

    let work = relevant(&objects, &inserting);
    let wanted = wanted_objects(&objects, &work, &inserting, &commits);
    let oids = insertable(&objects, &work);
    let mut seq_of = object_questions(&wanted, &known, &oids).seq_of;
    let absent = missing(&objects, &work, &seq_of);
    let mut numbered_here = Vec::new();
    for kind in [Kind::Tree, Kind::Blob, Kind::Tag] {
        let given = taking(&absent, kind);
        number_objects(&mut seq_of, &given, kind, 7).expect("a kind that is counted");
        numbered_here.extend(given);
    }
    let fresh = fresh(&oids, &OrdMap::new());
    let plan = AppendPlan {
        to_insert: inserting,
        commit_seq_of,
        commits_numbered_here,
        relevant: work,
        seq_of,
        fresh,
        numbered_here,
    };
    (plan, commits, objects)
}

#[test]
fn a_first_push_is_numbered_and_recorded() {
    let (plan, commits, objects) = planned();
    let assembly = assemble(&plan, &commits, &objects).expect("a whole plan");
    assert_eq!(assembly.segments, vec![Ulid(5)], "one segment, registered once");
    assert_eq!(assembly.named.len(), 5);
    assert!(assembly.named.contains(&(oid(2), Identity { seq: 101, kind: Kind::Commit })));
    assert!(assembly.named.contains(&(oid(12), Identity { seq: 8, kind: Kind::Tree })));
    assert!(assembly.named.contains(&(oid(20), Identity { seq: 7, kind: Kind::Blob })));
    assert!(assembly.added_packs.is_empty());

    let tree = &assembly.fresh_objects[1];
    assert_eq!((tree.oid, tree.seq), (oid(12), 8));
    assert_eq!(tree.locations.len(), 1);
    assert_eq!(tree.locations[0].pack_seq, 101);
    assert_eq!(tree.locations[0].pack_oid, oid(2));
    assert_eq!(tree.locations[0].segment, segment(5));
    assert_eq!(tree.locations[0].base_seq, Some(7), "its base, by the number of the first tree");
    assert_eq!(tree.children.blobs.iter().collect::<Vec<u64>>(), vec![7]);

    let second = &assembly.commits[1];
    assert_eq!((second.seq, second.oid), (101, oid(2)));
    assert_eq!(second.parents, vec![100]);
    assert_eq!(second.root_tree_seq, 8);
    assert_eq!(second.committer_date, 1234);
    assert_eq!((second.pack.entry_len, second.pack.blob_offset), (9, 20));
    assert_eq!(second.pack.stored.trees.iter().collect::<Vec<u64>>(), vec![8]);
    assert!(second.pack.stored.blobs.is_empty(), "the blob is in the first pack");
    assert_eq!(ranked(&assembly.commits), (vec![100, 101], vec![100]));
}

fn answers(starts: Starts) -> Answers {
    Answers {
        commit_seqs: OrdMap::new(),
        commit_metas: OrdMap::new(),
        commit_start: 100,
        identities: OrdMap::new(),
        metas: OrdMap::new(),
        starts,
    }
}

#[test]
fn an_attempt_writes_what_its_plan_settles() {
    let (order, commits, objects) = pushed();
    let known = KnownIdentities::nothing();
    let starts = Starts { trees: 7, blobs: 7, tags: 7 };
    let written = append_once(&order, &commits, &objects, &known, &answers(starts)).unwrap();
    let (plan, _, _) = planned();
    let settled = assemble(&plan, &commits, &objects).unwrap();
    assert_eq!(written.named, settled.named);
    assert_eq!(written.fresh_objects, settled.fresh_objects);
    assert_eq!(written.commits.len(), 2);

    let below = Starts { trees: 7, blobs: -1, tags: 7 };
    assert!(matches!(
        append_once(&order, &commits, &objects, &known, &answers(below)),
        Err(Error::NotCounted)
    ));
}

#[test]
fn a_retry_takes_the_number_that_won() {
    let (order, commits, objects) = pushed();
    let mut found = answers(Starts { trees: 7, blobs: 7, tags: 7 });
    found.commit_seqs = map(vec![(1, 40)]);
    found.identities = map(vec![(20, Identity { seq: 3, kind: Kind::Blob })]);
    let known = KnownIdentities::nothing();
    let plan =
        plan_commits(&order, &commits, &known, &found.commit_seqs, &OrdMap::new(), 100);
    assert_eq!(plan.to_insert, order, "a number alone is no entry");
    assert_eq!(plan.numbered_here, vec![oid(2)]);
    assert_eq!((plan.seq_of.get(&oid(1)), plan.seq_of.get(&oid(2))), (Some(&40), Some(&100)));

    let written = append_once(&order, &commits, &objects, &known, &found).unwrap();
    assert!(!written.named.iter().any(|(named, _)| *named == oid(1) || *named == oid(20)));
    assert!(written.fresh_objects.iter().any(|one| one.oid == oid(20) && one.seq == 3));
    assert_eq!(written.commits[0].seq, 40);

    let mut seq_of = map(vec![(1, 1i64), (2, 2)]);
    take_commits(&mut seq_of, &map(vec![(2, 9), (3, 3)]));
    assert_eq!(
        [1u8, 2, 3].map(|n| *seq_of.get(&oid(n)).unwrap()),
        [1, 9, 3],
        "what was found counts"
    );
}

#[test]
fn a_commit_in_the_graph_is_not_recorded_again() {
    let (order, commits, objects) = pushed();
    let metas = map(vec![(
        1,
        ObjectMeta {
            kind: Kind::Commit,
            location: Some(CommitPackLocation { image: place(1, None), segment: segment(5) }),
            object_seq: None,
        },
    )]);
    let inserting = to_insert(&order, &metas);
    assert_eq!(inserting, vec![oid(2)]);
    let work = relevant(&objects, &inserting);
    assert_eq!(insertable(&objects, &work), vec![oid(12)], "the rest lies in a known pack");
    assert_eq!(fresh(&[oid(1), oid(12)], &metas), vec![oid(12)]);
}

#[test]
fn a_pack_that_the_push_does_not_bring_is_refused() {
    let (order, commits, mut objects) = pushed();
    assert_eq!(check_packs(&objects, &commits), Ok(()));
    objects[2].locations.push(place(3, None));
    assert_eq!(check_packs(&objects, &commits), Err(Error::PackAbsent));
    let starts = Starts { trees: 7, blobs: 7, tags: 7 };
    let known = KnownIdentities::nothing();
    assert!(matches!(
        append_once(&order, &commits, &objects, &known, &answers(starts)),
        Err(Error::PackAbsent)
    ));

    let (_, _, mut objects) = pushed();
    objects[0].locations.clear();
    assert_eq!(check_packs(&objects, &commits), Ok(()), "an object in no pack names none");
    assert_eq!(check_packs(&objects[1..2], &OrdMap::new()), Err(Error::PackAbsent));
}

#[test]
fn a_later_push_of_the_same_commits_leaves_what_was_recorded() {
    let (order, commits, objects) = pushed();
    let starts = Starts { trees: 7, blobs: 7, tags: 7 };
    let known = KnownIdentities::nothing();
    let earlier = append_once(&order, &commits, &objects, &known, &answers(starts)).unwrap();

    let commits = map(vec![(1, new_commit(11, &[], 6)), (2, new_commit(12, &[1], 6))]);
    let held = |n: u8| ObjectMeta {
        kind: Kind::Commit,
        location: Some(CommitPackLocation { image: place(n, None), segment: segment(5) }),
        object_seq: None,
    };
    let mut found = answers(starts);
    found.commit_seqs = map(vec![(1, earlier.commits[0].seq), (2, earlier.commits[1].seq)]);
    found.commit_metas = map(vec![(1, held(1)), (2, held(2))]);
    let stale = KnownIdentities::new(map(vec![(1, None), (2, None), (20, None)]));
    for known in [&known, &stale] {
        let later = append(&order, &commits, &objects, known, 0, &found).unwrap().unwrap();
        assert!(later.commits.is_empty() && later.named.is_empty());
        assert!(later.segments.is_empty(), "its own segment holds nothing that is read");
        assert!(later.fresh_objects.is_empty() && later.added_packs.is_empty());
    }
}

#[test]
fn an_attempt_after_a_lost_race_reads_everything_again() {
    let (order, commits, objects) = pushed();
    let starts = Starts { trees: 7, blobs: 7, tags: 7 };
    let stale = Identity { seq: 4, kind: Kind::Commit };
    let known = KnownIdentities::new(map(vec![(1, Some(stale))]));
    let first = append(&order, &commits, &objects, &known, 0, &answers(starts)).unwrap().unwrap();
    assert_eq!((first.commits[0].seq, first.commits[1].seq), (4, 100));
    let second = append(&order, &commits, &objects, &known, 1, &answers(starts)).unwrap().unwrap();
    assert_eq!((second.commits[0].seq, second.commits[1].seq), (100, 101));

    let nothing = OrdMap::new();
    assert!(append(&[], &nothing, &[], &known, 0, &answers(starts)).unwrap().is_none());
    assert!(matches!(
        append(&[], &nothing, &objects, &known, 0, &answers(starts)),
        Err(Error::PackAbsent)
    ));
}

#[test]
fn a_known_object_gains_a_place_and_keeps_its_number() {
    let (mut plan, commits, objects) = planned();
    plan.fresh.retain(|one| *one != oid(20));
    plan.numbered_here.retain(|one| *one != oid(20));
    let assembly = assemble(&plan, &commits, &objects).expect("a whole plan");
    assert_eq!(assembly.added_packs.len(), 1);
    let (seq, kind, gained) = &assembly.added_packs[0];
    assert_eq!((*seq, *kind, gained.pack_seq), (7, Kind::Blob, 100));
    assert!(!assembly.named.iter().any(|(named, _)| *named == oid(20)), "its number is not ours");
    assert!(!assembly.fresh_objects.iter().any(|object| object.oid == oid(20)));
}

#[test]
fn only_what_the_scan_did_not_answer_is_asked() {
    let (order, commits, objects) = pushed();
    let commit = Identity { seq: 4, kind: Kind::Commit };
    let known = KnownIdentities::new(map(vec![(1, Some(commit)), (20, None)]));
    let questions = commit_questions(&order, &commits, &known);
    assert_eq!(questions.asking, vec![oid(2)]);
    assert_eq!(questions.seq_of.get(&oid(1)), Some(&4));
    assert_eq!(commit_identities(&questions.seq_of), vec![(oid(1), commit)]);
    assert_eq!(to_number(&order, &questions.seq_of), vec![oid(2)]);
    assert_eq!(commits_named(&order, &commits).len(), 2, "parents count too, and each once");

    let work = relevant(&objects, &order);
    let wanted = wanted_objects(&objects, &work, &order, &commits);
    let questions = object_questions(&wanted, &known, &insertable(&objects, &work));
    assert!(!questions.unknown.contains(&oid(20)), "known to be absent");
    let mut seq_of = questions.seq_of;
    take_found(
        &mut seq_of,
        &map(vec![
            (11, Identity { seq: 3, kind: Kind::Tree }),
            (12, Identity { seq: 4, kind: Kind::Commit }),
        ]),
    );
    assert_eq!(seq_of.get(&oid(11)), Some(&ObjectSeq::Tree(3)));
    assert_eq!(seq_of.get(&oid(12)), None, "a commit is numbered elsewhere");
    assert_eq!(
        held_objects(&objects, &work, &seq_of),
        vec![(oid(11), Identity { seq: 3, kind: Kind::Tree })]
    );
    assert_eq!(numbered(Identity { seq: 3, kind: Kind::Blob }), Some(ObjectSeq::Blob(3)));
    assert_eq!(numbered(commit), None);
}

#[test]
fn commits_take_no_number_of_objects() {
    let mut seq_of = OrdMap::new();
    assert_eq!(
        number_objects(&mut seq_of, &[oid(1)], Kind::Commit, 7),
        Err(Error::NotCounted)
    );
    assert_eq!(number_objects(&mut seq_of, &[], Kind::Commit, 7), Ok(()));
    assert!(seq_of.is_empty());
}

#[test]
fn a_plan_that_lacks_a_number_is_refused() {
    let refused = |change: &dyn Fn(&mut AppendPlan, &mut OrdMap<ObjectId, NewCommit>, &mut Vec<NewObject>)| {
        let (mut plan, mut commits, mut objects) = planned();
        change(&mut plan, &mut commits, &mut objects);
        assemble(&plan, &commits, &objects).err()
    };
    assert_eq!(
        refused(&|plan, _, _| {
            plan.seq_of.remove(&oid(20));
        }),
        Some(Error::ObjectUnnumbered)
    );
    assert_eq!(
        refused(&|plan, _, _| plan.relevant[1].fresh[0].base = Some(oid(99))),
        Some(Error::BaseUnnumbered)
    );
    assert_eq!(
        refused(&|plan, _, _| plan.relevant[1].fresh[0].base = Some(oid(20))),
        Some(Error::BaseOfOtherKind)
    );
    assert_eq!(
        refused(&|_, _, objects| objects[0].children.push(oid(99))),
        Some(Error::ChildUnnumbered)
    );
    assert_eq!(
        refused(&|plan, _, objects| {
            plan.seq_of.insert(oid(30), ObjectSeq::Tag(1));
            objects[0].children.push(oid(30));
        }),
        Some(Error::ChildIsTag)
    );
    assert_eq!(
        refused(&|plan, _, _| {
            plan.seq_of.insert(oid(20), ObjectSeq::Tag(1));
        }),
        Some(Error::TagPacked)
    );
    assert_eq!(
        refused(&|plan, _, _| plan.to_insert.push(oid(9))),
        Some(Error::CommitUnknown)
    );
    assert_eq!(
        refused(&|_, commits, _| {
            commits.insert(oid(2), new_commit(12, &[99], 5));
        }),
        Some(Error::ParentUnnumbered)
    );
    assert_eq!(
        refused(&|_, commits, _| {
            commits.insert(oid(2), new_commit(99, &[1], 5));
        }),
        Some(Error::RootTreeUnnumbered)
    );
    assert_eq!(
        refused(&|plan, commits, _| {
            commits.insert(oid(9), new_commit(12, &[], 5));
            plan.to_insert.push(oid(9));
        }),
        Some(Error::CommitUnnumbered)
    );
}

#[test]
fn a_lost_race_is_tried_again_until_it_is_not() {
    assert!(trusts_known(0) && !trusts_known(1));
    assert!(!tries_again(0, false));
    assert!(tries_again(0, true));
    assert!(tries_again(MAX_APPEND_ATTEMPTS - 2, true));
    assert!(!tries_again(MAX_APPEND_ATTEMPTS - 1, true));
}
