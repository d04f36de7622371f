use enroute_git::ingest::connectivity::{all_recorded, sort_connectivity, walk};
use enroute_git::ingest::graph::{ObjectRefs, TreeChild};
use enroute_git::ingest::hooks::{
    commands_for, first_few, force_of, is_real_update, judge, landed, Actor, NoHooks, RefCommand,
    RefJudgement, Verdict,
};
use enroute_git::ingest::ref_updates::{
    already_out, build_pre_rejected, extend_rejected, nff_rejected_refs, not_among,
    refname_rejections, resolve_ref_updates, to_apply, to_check, Ingested, PushRejection,
    RefUpdateOutcome,
};
use enroute_git::ingest::session::{carries_pack, conclude, screen};
use enroute_git::metadata::refs::{RefUpdate, RefUpdateRejection, RefUpdateResult};
use enroute_git::model::{CommitPackLocation, ObjectMeta, PackImageLocation};
use enroute_git::object::{Kind, ObjectId};
use enroute_git::objects::location::{SegmentLocation, Ulid};
use enroute_git::ordmap::{OrdMap, OrdSet};

fn oid(n: u8) -> ObjectId {
    ObjectId::from_bytes(&[n; 20])
}

fn null() -> ObjectId {
    ObjectId::null()
}

fn hex(n: u8) -> String {
    format!("{n:02x}").repeat(20)
}

fn update(refname: &str, old: ObjectId, new: ObjectId) -> RefUpdate {
    RefUpdate { refname: refname.to_string(), old_id: old, new_id: new }
}

fn commit(root: u8, parents: &[u8]) -> ObjectRefs {
    ObjectRefs::Commit {
        root_tree: oid(root),
        parents: parents.iter().map(|n| oid(*n)).collect(),
        committer_date: 0,
    }
}

fn tree(blob: u8) -> ObjectRefs {
    let child = TreeChild { oid: oid(blob), is_tree: false, is_commit: false, name: vec![b'f'] };
    ObjectRefs::Tree(vec![child])
}

fn push(objects: Vec<(u8, ObjectRefs)>) -> OrdMap<ObjectId, ObjectRefs> {
    let mut map = OrdMap::new();
    for (n, refs) in objects {
        map.insert(oid(n), refs);
    }
    map
}

/// A commit over a tree with one blob.
fn root_commit() -> OrdMap<ObjectId, ObjectRefs> {
    push(vec![(1, commit(2, &[])), (2, tree(3)), (3, ObjectRefs::Blob)])
}

fn refs(pairs: &[(&str, u8)]) -> OrdMap<String, String> {
    let mut map = OrdMap::new();
    for (name, n) in pairs {
        map.insert(name.to_string(), hex(*n));
    }
    map
}

/// Screen a push and check what is left of it against `stored`.
fn finalize(
    updates: &[RefUpdate],
    existing: &OrdMap<String, String>,
    objects: &OrdMap<ObjectId, ObjectRefs>,
    stored: &[u8],
) -> (Ingested, OrdSet<ObjectId>) {
    let funny: Vec<bool> =
        updates.iter().map(|update| !update.refname.starts_with("refs/")).collect();
    let mut metas = OrdMap::new();
    for n in stored {
        let image = PackImageLocation { pack_sha: oid(*n), offset: 0, entry_len: 1, base: None };
        let segment = SegmentLocation { id: Ulid(1), base_offset: 0, image_len: 1 };
        let location = Some(CommitPackLocation { image, segment });
        let meta = ObjectMeta { kind: Kind::Commit, location, object_seq: None };
        metas.insert(oid(*n), meta);
    }
    let screened = screen(updates, existing, &funny, objects, null());
    let checked = to_check(updates, &screened.names, null());
    let results: Vec<(bool, OrdSet<ObjectId>)> = checked
        .iter()
        .map(|at| {
            let walked = walk(updates[*at].new_id, objects);
            (all_recorded(&walked.store_checks, &metas), walked.visited)
        })
        .collect();
    let (connected, failures) = sort_connectivity(updates, &checked, &results, objects);
    (conclude(&screened, &failures), connected)
}

/// What each update is answered, where the ref store takes all it is given.
fn outcomes(updates: &[RefUpdate], ingested: &Ingested) -> Vec<RefUpdateOutcome> {
    let applied: Vec<RefUpdateResult> = to_apply(updates, &ingested.rejected, &ingested.screened)
        .iter()
        .map(|at| RefUpdateResult { refname: updates[*at].refname.clone(), result: Ok(()) })
        .collect();
    resolve_ref_updates(updates, &ingested.rejected, &ingested.screened, &applied)
}

#[test]
fn finalize_rejects_disconnected_tip_as_missing_objects() {
    let updates = [update("refs/heads/main", null(), oid(0xde))];
    let (ingested, connected) = finalize(&updates, &OrdMap::new(), &OrdMap::new(), &[]);
    let results = outcomes(&updates, &ingested);
    assert_eq!(results.len(), 1);
    assert_eq!(results[0].refname, "refs/heads/main");
    assert!(matches!(results[0].result, Err(PushRejection::MissingObjects)));
    assert!(connected.is_empty());
}

#[test]
fn finalize_rejects_commit_with_missing_tree() {
    let updates = [update("refs/heads/main", null(), oid(1))];
    let objects = push(vec![(1, commit(0xaa, &[]))]);
    let (ingested, _) = finalize(&updates, &OrdMap::new(), &objects, &[]);
    let results = outcomes(&updates, &ingested);
    assert!(matches!(results[0].result, Err(PushRejection::MissingObjects)));
}

#[test]
fn finalize_connects_partial_push_against_primary_store() {
    let updates = [update("refs/heads/main", oid(1), oid(4))];
    let existing = refs(&[("refs/heads/main", 1)]);
    let objects = push(vec![(4, commit(2, &[1]))]);
    let (ingested, connected) = finalize(&updates, &existing, &objects, &[1, 2]);
    assert!(matches!(outcomes(&updates, &ingested)[0].result, Ok(())));
    assert!(connected.contains(&oid(4)));
}

#[test]
fn what_is_screened_reaches_no_store_and_is_reported_stale() {
    let updates = [
        update("refs/heads/main", oid(0xaa), oid(1)),
        update("refs/heads/topic", null(), oid(1)),
    ];
    let existing = refs(&[("refs/heads/main", 9)]);
    let (ingested, _) = finalize(&updates, &existing, &root_commit(), &[]);
    assert_eq!(ingested.screened, vec!["refs/heads/main".to_string()]);
    assert!(ingested.rejected.is_empty());
    assert_eq!(not_among(&updates, &already_out(&ingested)), vec![1], "what a hook is shown");
    assert_eq!(to_apply(&updates, &ingested.rejected, &ingested.screened), vec![1]);
    let results = outcomes(&updates, &ingested);
    assert!(matches!(
        results[0].result,
        Err(PushRejection::RefStore(RefUpdateRejection::NonFastForward))
    ));
    assert!(matches!(results[1].result, Ok(())));

    let rejected = refname_rejections(&updates, &[true, false]);
    let results = resolve_ref_updates(&updates, &rejected, &ingested.screened, &[]);
    assert!(matches!(results[0].result, Err(PushRejection::FunnyRefname)), "decided before");
    assert!(matches!(results[1].result, Err(PushRejection::Internal)));
}

#[test]
fn finalize_rejects_blob_pushed_to_branch() {
    let updates = [update("refs/heads/weird", null(), oid(3))];
    let objects = push(vec![(3, ObjectRefs::Blob)]);
    let (ingested, _) = finalize(&updates, &OrdMap::new(), &objects, &[]);
    assert!(matches!(
        outcomes(&updates, &ingested)[0].result,
        Err(PushRejection::NonCommitObject)
    ));
}

#[test]
fn finalize_allows_blob_pushed_to_tag() {
    let updates = [update("refs/tags/blob-tag", null(), oid(3))];
    let objects = push(vec![(3, ObjectRefs::Blob)]);
    let (ingested, connected) = finalize(&updates, &OrdMap::new(), &objects, &[]);
    assert!(matches!(outcomes(&updates, &ingested)[0].result, Ok(())));
    assert!(connected.is_empty(), "a blob is no commit");
}

#[test]
fn finalize_accepts_any_valid_ref_namespace() {
    let updates = [update("refs/notes/x", null(), oid(1))];
    let (ingested, connected) = finalize(&updates, &OrdMap::new(), &root_commit(), &[]);
    assert!(matches!(outcomes(&updates, &ingested)[0].result, Ok(())));
    assert!(connected.contains(&oid(1)));
}

#[test]
fn finalize_rejects_an_invalid_refname() {
    let updates = [update("HEAD", null(), oid(1))];
    let (ingested, connected) = finalize(&updates, &OrdMap::new(), &root_commit(), &[]);
    assert!(matches!(
        outcomes(&updates, &ingested)[0].result,
        Err(PushRejection::FunnyRefname)
    ));
    assert!(connected.is_empty());
}

fn judged(refname: &str, verdict: Verdict) -> RefJudgement {
    RefJudgement { refname: refname.to_string(), verdict }
}

fn creates(names: &[&str]) -> (Vec<RefUpdate>, Vec<RefCommand>) {
    let updates: Vec<RefUpdate> = names.iter().map(|name| update(name, null(), oid(1))).collect();
    let live: Vec<usize> = (0..updates.len()).collect();
    let commands = commands_for(&updates, &live, &vec![false; live.len()], null());
    (updates, commands)
}

#[test]
fn a_hook_refusal_rejects_that_ref_alone() {
    let (updates, commands) = creates(&["refs/heads/main", "refs/heads/topic"]);
    let refused = judge(
        &commands,
        &[
            judged(
                "refs/heads/main",
                Verdict::Refuse("refs/heads/main is protected".to_string()),
            ),
            judged("refs/heads/topic", Verdict::Allow),
        ],
    )
    .expect("every command is judged");
    let ingested = Ingested { rejected: refused, screened: vec![] };
    let results = outcomes(&updates, &ingested);
    assert!(matches!(&results[0].result, Err(PushRejection::Policy(reason))
        if reason == "refs/heads/main is protected"));
    assert!(matches!(results[1].result, Ok(())), "the ref it did not name");
    assert_eq!(landed(&commands, &results), vec![1]);
}

#[test]
fn a_create_is_shown_as_a_create() {
    let (_, seen) = creates(&["refs/heads/main"]);
    assert_eq!(seen.len(), 1);
    assert_eq!(seen[0].refname, "refs/heads/main");
    assert_eq!(seen[0].old_id, None, "a create has no previous value");
    assert_eq!(seen[0].new_id, Some(hex(1)));
    assert!(!seen[0].force, "a create rewrites no history");
}

#[test]
fn a_command_says_what_it_replaces_and_deletes() {
    let updates = [
        update("refs/heads/a", oid(1), oid(2)),
        update("refs/heads/b", oid(1), null()),
        update("refs/heads/c", null(), oid(2)),
    ];
    assert!(is_real_update(&updates[0], null()));
    assert!(!is_real_update(&updates[1], null()) && !is_real_update(&updates[2], null()));
    let shown = commands_for(&updates, &[1, 0], &[false, false], null());
    assert_eq!((&shown[0].old_id, &shown[0].new_id), (&Some(hex(1)), &None));
    assert_eq!((&shown[1].old_id, &shown[1].new_id), (&Some(hex(1)), &Some(hex(2))));
    assert!(shown[1].force && !shown[0].force);
    let forward = commands_for(&updates, &[0, 1, 2], &[true, true, true], null());
    assert!(forward.iter().all(|command| !command.force));
    assert!(force_of(&updates[0], null(), false) && !force_of(&updates[0], null(), true));
    assert!(!force_of(&updates[1], null(), false), "deleting rewrites nothing");
    assert!(!force_of(&updates[2], null(), false), "nor does creating");
}

#[test]
fn a_command_left_unjudged_fails_the_push() {
    let (_, commands) = creates(&["refs/heads/main", "refs/heads/topic"]);
    let left = judge(&commands, &[judged("refs/heads/main", Verdict::Allow)])
        .expect_err("the unjudged ref must not land");
    assert_eq!(
        left.message(),
        "the pre-receive hook judged 1 of 2 commands, and not refs/heads/topic"
    );
    let strayed = judge(
        &commands,
        &[judged("refs/heads/main", Verdict::Allow), judged("topic", Verdict::Allow)],
    )
    .expect_err("a name spelt wrong judges nothing");
    assert_eq!(
        strayed.message(),
        "the pre-receive hook judged 1 of 2 commands, and not refs/heads/topic \u{2014} it \
         judged topic, which this push does not ask for"
    );
}

#[test]
fn without_hooks_everything_is_allowed() {
    let (_, commands) = creates(&["refs/heads/main", "refs/heads/topic"]);
    let refused = judge(&commands, &NoHooks.pre_receive(&commands)).expect("all judged");
    assert!(refused.is_empty());
}

#[test]
fn only_the_first_few_names_are_listed() {
    let names: Vec<String> = (0..12).map(|n| format!("r{n}")).collect();
    assert_eq!(first_few(&names[..2]), "r0, r1");
    assert_eq!(first_few(&names), "r0, r1, r2, r3, r4 and 7 more");
}

#[test]
fn an_actor_shows_how_much_it_carries_and_not_what() {
    let mut actor = Actor::new("alex");
    assert_eq!(actor.shown(), "Actor(alex, 0 bytes)");
    actor.context = vec![7; 12];
    assert_eq!(actor.shown(), "Actor(alex, 12 bytes)");
}

#[test]
fn a_push_of_deletes_carries_no_pack() {
    assert!(!carries_pack(&[update("refs/heads/a", oid(1), null())], null()));
    assert!(!carries_pack(&[], null()));
    assert!(carries_pack(
        &[update("refs/heads/a", oid(1), null()), update("refs/heads/b", null(), oid(1))],
        null()
    ));
}

#[test]
fn an_update_is_stale_where_the_ref_has_moved() {
    let existing = refs(&[("refs/heads/a", 1), ("refs/heads/b", 1)]);
    let updates = [
        update("refs/heads/a", oid(1), oid(2)),
        update("refs/heads/b", oid(9), oid(2)),
        update("refs/heads/c", oid(9), oid(2)),
        update("refs/heads/d", null(), oid(2)),
    ];
    let stale = nff_rejected_refs(&updates, &existing, null());
    assert!(!stale.contains(&"refs/heads/a".to_string()));
    assert!(stale.contains(&"refs/heads/b".to_string()));
    assert!(!stale.contains(&"refs/heads/d".to_string()));
}

#[test]
fn the_strongest_reason_to_refuse_is_the_one_given() {
    let name = || "refs/heads/a".to_string();
    let mut missing = OrdSet::new();
    missing.insert(name());
    let mut non_commit = OrdSet::new();
    let updates = [update("refs/heads/a", null(), oid(1))];
    let funny = refname_rejections(&updates, &[true]);
    let none = refname_rejections(&updates, &[false]);
    assert!(none.is_empty());

    let rejected = build_pre_rejected(&missing, &none, &non_commit);
    assert!(matches!(rejected.get(&name()), Some(PushRejection::MissingObjects)));
    let with_name = build_pre_rejected(&missing, &funny, &non_commit);
    assert!(matches!(with_name.get(&name()), Some(PushRejection::FunnyRefname)));
    non_commit.insert(name());
    let with_all = build_pre_rejected(&missing, &funny, &non_commit);
    assert!(matches!(with_all.get(&name()), Some(PushRejection::NonCommitObject)));

    let mut map = rejected;
    extend_rejected(&mut map, &funny);
    assert!(matches!(map.get(&name()), Some(PushRejection::FunnyRefname)));
}

#[test]
fn an_update_that_nothing_answers_is_an_internal_error() {
    let updates = [update("refs/heads/a", null(), oid(1)), update("refs/heads/b", null(), oid(1))];
    let answer = [RefUpdateResult { refname: "refs/heads/b".to_string(), result: Ok(()) }];
    let results = resolve_ref_updates(&updates, &OrdMap::new(), &[], &answer);
    assert!(matches!(results[0].result, Err(PushRejection::Internal)));
    assert!(matches!(results[1].result, Ok(())));
    let texts: Vec<String> = [
        PushRejection::MissingObjects,
        PushRejection::FunnyRefname,
        PushRejection::NonCommitObject,
        PushRejection::Policy("no".to_string()),
        PushRejection::Internal,
    ]
    .iter()
    .map(|rejection| rejection.duplicate().message())
    .collect();
    assert_eq!(
        texts,
        [
            "missing-objects",
            "funny refname",
            "non-commit object",
            "no",
            "internal error: no result for ref update"
        ]
    );
}

#[test]
fn what_is_already_out_is_not_judged_again() {
    let updates = [
        update("refs/heads/a", null(), oid(1)),
        update("refs/heads/b", null(), oid(1)),
        update("refs/heads/c", null(), oid(1)),
    ];
    let rejected = refname_rejections(&updates, &[true, false, false]);
    let ingested = Ingested { rejected, screened: vec!["refs/heads/b".to_string()] };
    let out = already_out(&ingested);
    assert_eq!(not_among(&updates, &out), vec![2]);
    assert_eq!(to_apply(&updates, &ingested.rejected, &ingested.screened), vec![2]);
}
