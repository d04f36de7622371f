use enroute_git::metadata::memory::{cutoff, secs, Memory};
use enroute_git::metadata::refs::{
    is_branch_refname, is_direct_ref, RefUpdate, RefUpdateRejection,
};
use enroute_git::metadata::rows::StorageKey;
use enroute_git::metadata::store::seqs_of;
use enroute_git::model::Identity;
use enroute_git::object::{Kind, ObjectId};
use enroute_git::objects::location::Ulid;
use enroute_git::error::Error;

const NOW: i64 = 1_700_000_000_000_000;

fn oid(n: u8) -> ObjectId {
    ObjectId::from_bytes(&[n; 20])
}

fn null() -> ObjectId {
    oid(0)
}

fn hex(n: u8) -> String {
    format!("{n:02x}").repeat(20)
}

fn name(text: &str) -> String {
    text.to_string()
}

fn update(refname: &str, old: ObjectId, new: ObjectId) -> (RefUpdate, bool) {
    (RefUpdate { refname: name(refname), old_id: old, new_id: new }, false)
}

fn commit(rows: &mut Memory, repo: enroute_git::metadata::rows::RepoId, at: u8) -> ObjectId {
    let seq = rows.allocate(repo, Kind::Commit, 1).expect("a number");
    rows.record(repo, &[(oid(at), Identity { seq, kind: Kind::Commit })]).expect("no race");
    oid(at)
}

#[test]
fn a_created_repository_reads_back() {
    let mut rows = Memory::new();
    let made = rows.create(None, StorageKey(1));
    let found = rows.lookup(made.id).expect("the repository");
    assert_eq!(found.id, made.id);
    assert_eq!(found.default_branch, "refs/heads/main");
    assert!(rows.all().iter().any(|one| one.id == made.id));

    let named = rows.create(Some("refs/heads/trunk"), StorageKey(2));
    assert_eq!(named.default_branch, "refs/heads/trunk");
    assert_ne!(named.id, made.id);
    assert_ne!(named.storage_key, made.storage_key);
}

#[test]
fn a_fresh_repository_offers_head_alone() {
    let mut rows = Memory::new();
    let made = rows.create(None, StorageKey(1));
    let refs = rows.refs_for(&made);
    assert_eq!(refs.get(&name("HEAD")), Some(&name("ref: refs/heads/main")));
    assert_eq!(refs.len(), 1);
}

#[test]
fn each_kind_is_counted_in_a_space_of_its_own() {
    let mut rows = Memory::new();
    let made = rows.create(None, StorageKey(1));
    assert_eq!(rows.allocate(made.id, Kind::Commit, 4), Ok(0));
    assert_eq!(rows.allocate(made.id, Kind::Commit, 2), Ok(4));
    assert_eq!(rows.allocate(made.id, Kind::Tree, 1), Ok(0));
}

#[test]
fn no_numbers_and_too_many_are_refused() {
    let mut rows = Memory::new();
    let made = rows.create(None, StorageKey(1));
    assert_eq!(rows.allocate(made.id, Kind::Commit, 0), Err(Error::NothingToAllocate));
    assert_eq!(rows.allocate(made.id, Kind::Commit, u64::MAX), Err(Error::BatchTooLarge));
    let nobody = enroute_git::metadata::rows::RepoId(99);
    assert_eq!(rows.allocate(nobody, Kind::Commit, 1), Err(Error::NoCounter));
}

#[test]
fn a_numbered_object_reads_back_both_ways() {
    let mut rows = Memory::new();
    let made = rows.create(None, StorageKey(1));
    let named = commit(&mut rows, made.id, 7);

    let held = rows.identify(made.id, &[named]);
    assert_eq!(held.get(&named).map(|one| one.kind), Some(Kind::Commit));
    let seq = held.get(&named).expect("what it is called").seq;
    assert_eq!(rows.oids_of(made.id, Kind::Commit, &[seq]).get(&seq), Some(&named));
    assert!(rows.oids_of(made.id, Kind::Tree, &[seq]).is_empty());
    assert_eq!(seqs_of(&held, Kind::Commit).get(&named), Some(&seq));
    assert!(seqs_of(&held, Kind::Tree).is_empty());
}

#[test]
fn a_second_writer_of_one_oid_is_told_it_raced() {
    let mut rows = Memory::new();
    let made = rows.create(None, StorageKey(1));
    commit(&mut rows, made.id, 9);
    let seq = rows.allocate(made.id, Kind::Commit, 1).expect("a number");
    let again = rows.record(made.id, &[(oid(9), Identity { seq, kind: Kind::Commit })]);
    assert!(again.is_err(), "a lost race reads as a write that landed");
}

#[test]
fn a_batch_that_loses_the_race_leaves_nothing_behind() {
    let mut rows = Memory::new();
    let made = rows.create(None, StorageKey(1));
    let held = commit(&mut rows, made.id, 3);
    let fresh = oid(4);
    let r = rows.record(
        made.id,
        &[
            (fresh, Identity { seq: 40, kind: Kind::Commit }),
            (held, Identity { seq: 41, kind: Kind::Commit }),
        ],
    );
    assert!(r.is_err());
    assert!(rows.identify(made.id, &[fresh]).is_empty(), "half a batch landed");
}

#[test]
fn a_branch_is_guarded_by_its_current_value() {
    let mut rows = Memory::new();
    let made = rows.create(None, StorageKey(1));
    let first = commit(&mut rows, made.id, 1);
    let second = commit(&mut rows, made.id, 2);
    let mut apply = |old, new| {
        rows.update_refs(made.id, &[update("refs/heads/main", old, new)], NOW)[0].result
    };

    assert_eq!(apply(null(), oid(200)), Err(RefUpdateRejection::UnknownCommit));
    assert_eq!(apply(null(), first), Ok(()));
    assert_eq!(apply(null(), second), Err(RefUpdateRejection::AlreadyExists));
    assert_eq!(apply(second, second), Err(RefUpdateRejection::NonFastForward));
    assert_eq!(
        rows.refs_for(&made).get(&name("refs/heads/main")),
        Some(&hex(1)),
        "a refused write leaves the branch where it was"
    );
    let mut apply = |old, new| {
        rows.update_refs(made.id, &[update("refs/heads/main", old, new)], NOW)[0].result
    };
    assert_eq!(apply(first, second), Ok(()));

    let refs = rows.refs_for(&made);
    assert_eq!(refs.get(&name("refs/heads/main")), Some(&hex(2)));
    assert_eq!(refs.get(&name("HEAD")), Some(&name("ref: refs/heads/main")));
}

#[test]
fn a_tag_is_guarded_by_its_current_value() {
    let mut rows = Memory::new();
    let made = rows.create(None, StorageKey(1));
    let mut apply = |old, new| {
        rows.update_refs(made.id, &[update("refs/tags/v1", old, new)], NOW)[0].result
    };
    assert_eq!(apply(null(), oid(1)), Ok(()));
    assert_eq!(apply(null(), oid(2)), Err(RefUpdateRejection::AlreadyExists));
    assert_eq!(apply(oid(2), oid(3)), Err(RefUpdateRejection::NonFastForward));
    assert_eq!(apply(oid(1), oid(2)), Ok(()));
    assert_eq!(rows.refs_for(&made).get(&name("refs/tags/v1")), Some(&hex(2)));
}

#[test]
fn a_ref_outside_refs_heads_is_not_asked_for_a_commit() {
    let mut rows = Memory::new();
    let made = rows.create(None, StorageKey(1));
    let results = rows.update_refs(
        made.id,
        &[
            update("refs/tags/v1", null(), oid(210)),
            update("refs/notes/commits", null(), oid(211)),
            update("refs/merge-requests/42/head", null(), oid(212)),
        ],
        NOW,
    );
    assert_eq!(
        results.iter().map(|one| one.result).collect::<Vec<_>>(),
        vec![Ok(()), Ok(()), Ok(())]
    );
    let refs = rows.refs_for(&made);
    assert_eq!(refs.get(&name("refs/notes/commits")), Some(&hex(211)));
    assert_eq!(refs.get(&name("refs/merge-requests/42/head")), Some(&hex(212)));
}

#[test]
fn a_null_new_id_deletes_the_ref() {
    let mut rows = Memory::new();
    let made = rows.create(None, StorageKey(1));
    let tip = commit(&mut rows, made.id, 1);
    rows.update_refs(
        made.id,
        &[
            update("refs/heads/main", null(), tip),
            update("refs/tags/v1", null(), oid(210)),
        ],
        NOW,
    );
    let results = rows.update_refs(
        made.id,
        &[
            update("refs/heads/main", tip, null()),
            update("refs/tags/v1", oid(210), null()),
            update("refs/heads/never-there", null(), null()),
        ],
        NOW,
    );
    assert_eq!(
        results.iter().map(|one| one.result).collect::<Vec<_>>(),
        vec![Ok(()), Ok(()), Ok(())],
        "a delete of what is not there is nothing to do"
    );
    let refs = rows.refs_for(&made);
    assert!(!refs.contains_key(&name("refs/heads/main")));
    assert!(!refs.contains_key(&name("refs/tags/v1")));
}

#[test]
fn a_refname_git_would_refuse_is_refused() {
    let mut rows = Memory::new();
    let made = rows.create(None, StorageKey(1));
    let (refused, _) = update("HEAD", null(), oid(1));
    let results = rows.update_refs(made.id, &[(refused, true)], NOW);
    assert_eq!(results[0].result, Err(RefUpdateRejection::InvalidRefname));
    assert_eq!(
        rows.refs_for(&made).get(&name("HEAD")),
        Some(&name("ref: refs/heads/main"))
    );
}

#[test]
fn one_refusal_leaves_the_rest_of_a_batch_alone() {
    let mut rows = Memory::new();
    let made = rows.create(None, StorageKey(1));
    let tip = commit(&mut rows, made.id, 1);
    let moved_to = commit(&mut rows, made.id, 2);
    rows.update_refs(made.id, &[update("refs/heads/main", null(), tip)], NOW);
    let results = rows.update_refs(
        made.id,
        &[
            update("refs/heads/main", oid(9), moved_to),
            update("refs/tags/v1", null(), oid(210)),
        ],
        NOW,
    );
    assert_eq!(
        results.iter().map(|one| one.result).collect::<Vec<_>>(),
        vec![Err(RefUpdateRejection::NonFastForward), Ok(())]
    );
    let refs = rows.refs_for(&made);
    assert_eq!(refs.get(&name("refs/heads/main")), Some(&hex(1)));
    assert_eq!(refs.get(&name("refs/tags/v1")), Some(&hex(210)));
}

#[test]
fn only_the_refs_asked_for_come_back() {
    let mut rows = Memory::new();
    let made = rows.create(None, StorageKey(1));
    let main_tip = commit(&mut rows, made.id, 1);
    let other_tip = commit(&mut rows, made.id, 2);
    rows.update_refs(
        made.id,
        &[
            update("refs/heads/main", null(), main_tip),
            update("refs/heads/other", null(), other_tip),
            update("refs/tags/v1", null(), oid(210)),
        ],
        NOW,
    );
    let refs = rows.refs_matching(made.id, &[name("refs/heads/main"), name("refs/tags/v1")]);
    assert_eq!(refs.get(&name("refs/heads/main")), Some(&hex(1)));
    assert_eq!(refs.get(&name("refs/tags/v1")), Some(&hex(210)));
    assert_eq!(refs.len(), 2, "neither another ref nor a HEAD");
}

#[test]
fn a_listing_is_in_order_and_says_when_each_ref_moved() {
    let mut rows = Memory::new();
    let made = rows.create(None, StorageKey(1));
    let tip = commit(&mut rows, made.id, 1);
    rows.update_refs(
        made.id,
        &[
            update("refs/tags/v1", null(), oid(210)),
            update("refs/heads/main", null(), tip),
        ],
        NOW,
    );
    let listing = rows.ref_listing(made.id);
    assert_eq!(
        listing.iter().map(|one| one.refname.as_str()).collect::<Vec<_>>(),
        vec!["refs/heads/main", "refs/tags/v1"]
    );
    assert!(listing.iter().all(|one| one.updated_unix_seconds == 1_700_000_000));
}

#[test]
fn a_deleted_repository_stops_being_listed() {
    let mut rows = Memory::new();
    let made = rows.create(None, StorageKey(1));
    assert!(rows.mark_deleted(made.id, NOW));
    assert!(!rows.mark_deleted(made.id, NOW + 1), "only the call that did it says so");
    assert!(rows.lookup(made.id).is_none());
    assert!(!rows.all().iter().any(|one| one.id == made.id));
    assert!(
        rows.deleted(0, NOW + 1).iter().any(|one| one.id == made.id),
        "a repository past its window is the janitor's"
    );
}

#[test]
fn a_grace_window_of_nothing_is_still_a_window() {
    let mut rows = Memory::new();
    let made = rows.create(None, StorageKey(1));
    rows.mark_deleted(made.id, NOW);
    assert!(rows.deleted(3600, NOW + 1).is_empty(), "an hour has not passed");
    assert_eq!(rows.deleted(3600, NOW + 3_600_000_001).len(), 1);
}

#[test]
fn a_summary_reports_the_ids_it_still_has_in_order() {
    let mut rows = Memory::new();
    let quiet = rows.create(None, StorageKey(1));
    let pushed = rows.create(None, StorageKey(2));
    let gone = rows.create(None, StorageKey(3));
    let tip = commit(&mut rows, pushed.id, 3);
    rows.update_refs(pushed.id, &[update("refs/heads/main", null(), tip)], NOW);
    rows.mark_deleted(gone.id, NOW);

    let found = rows.summarize(&[gone.id, pushed.id, quiet.id]);
    let ids: Vec<i64> = found.iter().map(|one| one.repo.id.0).collect();
    assert_eq!(
        ids,
        vec![quiet.id.0, pushed.id.0],
        "oldest first, and a deleted one is not there"
    );
    assert!(found[0].last_push_unix_seconds.is_none());
    assert_eq!(found[1].last_push_unix_seconds, Some(1_700_000_000));
    assert!(rows.summarize(&[]).is_empty(), "asking for none reads none");
}

#[test]
fn two_reasons_to_refuse_one_write_are_reported_in_one_order() {
    let mut rows = Memory::new();
    let made = rows.create(None, StorageKey(1));
    let tip = commit(&mut rows, made.id, 1);
    let mut apply = |old, new| {
        rows.update_refs(made.id, &[update("refs/heads/main", old, new)], NOW)[0].result
    };
    assert_eq!(apply(null(), tip), Ok(()));
    assert_eq!(apply(null(), oid(200)), Err(RefUpdateRejection::UnknownCommit));
    assert_eq!(apply(oid(199), oid(200)), Err(RefUpdateRejection::NonFastForward));
}

#[test]
fn a_retired_segment_is_dropped_once_its_window_is_over() {
    let mut rows = Memory::new();
    let made = rows.create(None, StorageKey(1));
    rows.register_segments(made.id, &[Ulid(1), Ulid(2)]);
    rows.retire_segments(made.id, &[Ulid(1)], NOW);
    assert_eq!(rows.live_segments(made.id, &[Ulid(1), Ulid(2)]).len(), 1);
    assert_eq!(rows.referenced_segments(made.id, &[Ulid(1), Ulid(2)]).len(), 2);
    assert_eq!(rows.drop_retired_segments(made.id, 3600, NOW + 1), 0);
    assert_eq!(rows.drop_retired_segments(made.id, 0, NOW + 1), 1);
    assert_eq!(rows.referenced_segments(made.id, &[Ulid(1), Ulid(2)]).len(), 1);
}

#[test]
fn times_round_down_to_seconds() {
    assert_eq!(secs(1_999_999), 1);
    assert_eq!(cutoff(10_000_000, 3), 7_000_000);
}

#[test]
fn a_direct_ref_is_an_id_and_a_branch_is_under_heads() {
    assert!(is_direct_ref(&hex(7)));
    assert!(!is_direct_ref("ref: refs/heads/main"));
    assert!(!is_direct_ref(&hex(7)[1..]));
    assert!(is_branch_refname("refs/heads/main"));
    assert!(!is_branch_refname("refs/tags/v1"));
}

#[test]
fn a_refusal_says_why() {
    assert_eq!(RefUpdateRejection::NonFastForward.message(), "non-fast-forward");
}
