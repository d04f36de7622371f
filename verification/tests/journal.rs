use enroute_git::journal::{Index, Journal, MemoryLedger, Scope, Written};
use enroute_git::metadata::memory::Memory;
use enroute_git::metadata::rows::{RepoId, StorageKey};
use enroute_git::objects::index::KeyRange;
use enroute_git::objects::location::Ulid;

const NOW: i64 = 1_700_000_000_000_000;

fn stack() -> (MemoryLedger, RepoId) {
    let mut rows = Memory::new();
    let repo = rows.create(None, StorageKey(1));
    (MemoryLedger::in_memory(rows), repo.id)
}

fn journal_over(repo: RepoId, images: &[Ulid]) -> Journal {
    let mut journal = Journal::new();
    for (offset, index) in Index::all().into_iter().enumerate() {
        let first = offset as u64 * 10;
        journal.list(
            index,
            Scope { id: repo.0, prefix: "test".to_string() },
            Written {
                id: offset as u128 + 1,
                range: KeyRange::new(first, first + 1).expect("a range"),
                tier: 0,
                body: Some(b"segment".to_vec()),
                bytes: 7,
            },
        );
    }
    journal.register(images);
    journal
}

#[test]
fn a_journal_with_nothing_appended_is_empty() {
    assert!(Journal::new().is_empty());
}

#[test]
fn retiring_alone_is_still_a_write() {
    let mut journal = Journal::new();
    journal.retire(&[Ulid(1)]);
    assert!(!journal.is_empty(), "a gather's retirement would be dropped");
}

#[test]
fn a_journal_says_what_was_put_in_it() {
    let mut journal = journal_over(RepoId(1), &[Ulid(4)]);
    journal.retire(&[Ulid(5)]);
    assert_eq!(journal.listed().len(), 4);
    assert_eq!(journal.registered(), &[Ulid(4)]);
    assert_eq!(journal.retired(), &[Ulid(5)]);
}

#[test]
fn one_journal_lands_every_list_it_touches() {
    let (mut ledger, repo) = stack();
    ledger.commit(repo, journal_over(repo, &[Ulid(1), Ulid(2)]), NOW);
    for index in Index::all() {
        assert_eq!(ledger.count(index, repo.0), 1, "the {index:?} list");
    }
    assert_eq!(ledger.rows().referenced_segments(repo, &[Ulid(1), Ulid(2)]).len(), 2);
}

#[test]
fn an_empty_journal_lands_nothing() {
    let (mut ledger, repo) = stack();
    ledger.commit(repo, Journal::new(), NOW);
    for index in Index::all() {
        assert_eq!(ledger.count(index, repo.0), 0, "the {index:?} list");
    }
}

#[test]
fn a_retired_image_stops_being_live_and_stays_referenced() {
    let (mut ledger, repo) = stack();
    let image = Ulid(7);
    ledger.commit(repo, journal_over(repo, &[image]), NOW);
    let mut retiring = Journal::new();
    retiring.retire(&[image]);
    ledger.commit(repo, retiring, NOW + 1);
    assert!(
        ledger.rows().referenced_segments(repo, &[image]).contains(&image),
        "a retired image is still one the sweep must leave alone"
    );
    assert!(
        ledger.rows().live_segments(repo, &[image]).is_empty(),
        "a gather must not take an image already copied elsewhere"
    );
}

#[test]
fn a_second_maintenance_pass_is_refused_while_the_first_holds_it() {
    let mut rows = Memory::new();
    let repo = rows.create(None, StorageKey(1)).id;
    assert!(rows.hold_maintenance(repo), "nobody else holds it");
    assert!(!rows.hold_maintenance(repo), "the first pass holds it");
    rows.release_maintenance(repo);

    let mut ledger = MemoryLedger::in_memory(rows);
    assert!(ledger.commit_held(repo, journal_over(repo, &[]), NOW), "nobody else holds it");
    assert!(
        ledger.commit_held(repo, journal_over(repo, &[]), NOW),
        "the first pass gave it back"
    );
}

#[test]
fn erasing_a_repository_leaves_no_lists_and_no_row() {
    let (mut ledger, repo) = stack();
    ledger.commit(repo, journal_over(repo, &[Ulid(1)]), NOW);
    ledger.erase(repo);
    for index in Index::all() {
        assert_eq!(ledger.count(index, repo.0), 0, "the {index:?} list");
    }
    assert!(
        ledger.rows().lookup(repo).is_none(),
        "the row naming an erased repository is still there"
    );
}

#[test]
fn a_list_has_its_place_among_the_four() {
    let each = [10, 11, 12, 13];
    let found: Vec<i32> = Index::all().into_iter().map(|index| *index.of(&each)).collect();
    assert_eq!(found, vec![10, 11, 12, 13]);
}

#[test]
fn what_no_journal_carries_is_written_to_the_same_rows() {
    let mut ledger = MemoryLedger::in_memory(Memory::new());
    let made = ledger.rows_mut().create(None, StorageKey(7));
    assert!(ledger.rows().lookup(made.id).is_some());
    let mut journal = Journal::new();
    journal.register(&[Ulid(5)]);
    ledger.commit(made.id, journal, 1);
    assert_eq!(ledger.rows().referenced_segments(made.id, &[Ulid(5), Ulid(6)]).len(), 1);
}
