use enroute_git::ingest::content::Content;
use enroute_git::ingest::cache::{ByteCache, CACHE_BYTES, MAX_CACHED_BYTES};
use enroute_git::ingest::graph::{Change, ObjectRefs, TreeChild};
use enroute_git::ingest::identities::{answered, wanted};
use enroute_git::ingest::materialise::{batches, cut, involved, Want, BATCH, BATCH_BYTES};
use enroute_git::ingest::pack::{read_span, EntryBase, RawSpan, ScannedEntry};
use enroute_git::ingest::plan::{order_entries, DeltaEntry, EntrySource};
use enroute_git::ingest::ref_updates::non_commit_branch_updates;
use enroute_git::ingest::resolve::dependents_by_index;
use enroute_git::error::Error;
use enroute_git::metadata::refs::RefUpdate;
use enroute_git::model::Identity;
use enroute_git::object::{Kind, ObjectId};
use enroute_git::ordmap::OrdMap;

fn oid(n: u8) -> ObjectId {
    ObjectId::from_bytes(&[n; 20])
}

fn null() -> ObjectId {
    oid(0)
}

fn change(path: &str, kind: Kind, old: Option<u8>, new: u8) -> Change {
    Change { path: path.as_bytes().to_vec(), kind, old: old.map(oid), new: oid(new) }
}

#[test]
fn root_tree_leads_and_blobs_trail() {
    let entries = order_entries(
        oid(1),
        Some(oid(2)),
        vec![
            change("a", Kind::Blob, Some(10), 11),
            change("d", Kind::Tree, Some(50), 51),
            change("d/f", Kind::Blob, None, 12),
        ],
    );
    let kinds: Vec<Kind> = entries.iter().map(|e| e.kind).collect();
    assert_eq!(kinds, vec![Kind::Tree, Kind::Tree, Kind::Blob, Kind::Blob], "{entries:?}");
    assert_eq!(entries[0].oid, oid(1));
    assert_eq!(entries[0].base, Some(oid(2)));
}

#[test]
fn a_changed_path_carries_its_predecessor_as_the_base() {
    let entries = order_entries(oid(1), None, vec![change("a", Kind::Blob, Some(10), 11)]);
    assert!(entries.contains(&DeltaEntry {
        oid: oid(11),
        kind: Kind::Blob,
        base: Some(oid(10)),
        source: EntrySource::Encoded,
    }));
}

#[test]
fn an_object_at_two_paths_gets_one_entry() {
    let entries = order_entries(
        oid(1),
        None,
        vec![change("a", Kind::Blob, Some(10), 20), change("b", Kind::Blob, Some(11), 20)],
    );
    assert_eq!(entries.iter().filter(|e| e.oid == oid(20)).count(), 1);
}

#[test]
fn an_unchanged_tree_stores_nothing() {
    assert!(order_entries(oid(1), Some(oid(1)), vec![]).is_empty());
}

#[test]
fn a_root_commit_stores_its_tree_whole() {
    let entries = order_entries(oid(1), None, vec![change("a", Kind::Blob, None, 10)]);
    assert_eq!(entries[0].base, None);
}

fn want(n: u8) -> Want {
    Want { oid: oid(n), kind: Kind::Blob, base: None }
}

#[test]
fn every_item_is_batched_exactly_once() {
    let wants: Vec<Want> = (0..200u8).map(want).collect();
    for size in [0, 1, BATCH_BYTES / 4, BATCH_BYTES, BATCH_BYTES * 4] {
        let batches = batches(&wants, |_| size);
        assert!(batches.iter().all(|b| !b.is_empty()), "size {size}");
        assert_eq!(
            batches.iter().map(|b| b.len()).sum::<usize>(),
            wants.len(),
            "size {size}"
        );
        let again: Vec<Want> = batches.concat();
        assert_eq!(again, wants, "size {size}");
    }
}

#[test]
fn a_run_of_large_objects_cuts_before_the_count_does() {
    let wants: Vec<Want> = (0..40u8).map(want).collect();
    assert!(wants.len() < BATCH);
    let batches = batches(&wants, |_| BATCH_BYTES / 4);
    assert!(
        batches.len() > 1,
        "four items should fill the budget, not all {}",
        wants.len()
    );
    assert!(batches.iter().all(|b| b.len() <= 5), "{batches:?}");
    assert_eq!(batches.len(), 10);
}

#[test]
fn an_oversized_item_goes_alone_rather_than_nowhere() {
    let wants: Vec<Want> = (0..3u8).map(want).collect();
    let batches = batches(&wants, |_| BATCH_BYTES * 2);
    assert_eq!(batches.len(), 3);
    assert!(batches.iter().all(|b| b.len() == 1));
}

#[test]
fn a_base_counts_toward_its_batch() {
    let wants: Vec<Want> =
        (0..4u8).map(|n| Want { base: Some(oid(100)), ..want(n) }).collect();
    let batches = batches(&wants, |_| BATCH_BYTES / 4);
    assert_eq!(batches.iter().map(|b| b.len()).collect::<Vec<_>>(), vec![2, 2]);
}

#[test]
fn a_count_cuts_where_sizes_do_not() {
    assert_eq!(cut(&[0; 600]), vec![(0, 256), (256, 512), (512, 600)]);
    assert_eq!(cut(&[]), vec![]);
    assert_eq!(cut(&[BATCH_BYTES, 1, BATCH_BYTES]), vec![(0, 1), (1, 2), (2, 3)]);
    assert_eq!(cut(&[u64::MAX, u64::MAX]), vec![(0, 1), (1, 2)]);
}

#[test]
fn a_batch_involves_its_objects_and_their_bases() {
    let wants = [Want { base: Some(oid(9)), ..want(1) }, want(2)];
    assert_eq!(involved(&wants), vec![oid(1), oid(9), oid(2)]);
}

fn child(byte: u8, is_commit: bool) -> TreeChild {
    TreeChild { oid: oid(byte), is_tree: false, is_commit, name: b"f".to_vec() }
}

#[test]
fn the_scan_covers_what_append_will_ask_about() {
    let mut refs: OrdMap<ObjectId, ObjectRefs> = OrdMap::new();
    refs.insert(
        oid(1),
        ObjectRefs::Commit { root_tree: oid(2), parents: vec![oid(9)], committer_date: 0 },
    );
    refs.insert(oid(2), ObjectRefs::Tree(vec![child(3, false)]));
    refs.insert(oid(3), ObjectRefs::Blob);

    let scanned = wanted(&refs);
    for (byte, why) in [
        (1, "the commit, which plan_commits resolves"),
        (9, "its parent, which plan_commits ranks against"),
        (2, "its root tree, which build_commit needs a seq for"),
        (3, "a tree's child, which plan_objects resolves"),
    ] {
        assert!(scanned.contains_key(&oid(byte)), "{why}");
    }
}

#[test]
fn a_submodule_reference_is_not_asked_about() {
    let mut refs: OrdMap<ObjectId, ObjectRefs> = OrdMap::new();
    refs.insert(oid(2), ObjectRefs::Tree(vec![child(7, true)]));
    assert!(!wanted(&refs).contains_key(&oid(7)));
}

#[test]
fn an_identity_asked_about_and_not_found_is_known_to_be_absent() {
    let mut refs: OrdMap<ObjectId, ObjectRefs> = OrdMap::new();
    refs.insert(oid(1), ObjectRefs::Tag(oid(2)));
    let mut found = OrdMap::new();
    found.insert(oid(2), Identity { seq: 5, kind: Kind::Commit });
    let known = answered(wanted(&refs), &found);
    assert_eq!(known.get(&oid(2)), Some(Identity { seq: 5, kind: Kind::Commit }));
    assert!(known.covers(&oid(1)) && known.get(&oid(1)).is_none());
    assert!(!known.covers(&oid(3)));
}

#[test]
fn reads_back_every_entry_of_a_pack() {
    let entries: Vec<Vec<u8>> = (0..64u8).map(|i| vec![i; usize::from(i) + 1]).collect();
    let pack = entries.concat();

    let mut at = 0u64;
    for entry in &entries {
        let span = RawSpan { offset: at, len: entry.len() };
        at += u64::try_from(entry.len()).unwrap();
        assert_eq!(read_span(&pack, span).unwrap(), &entry[..]);
    }
}

#[test]
fn reads_are_independent_of_their_order() {
    let head = vec![3u8; 4096];
    let tail = b"tail-marker".to_vec();
    let pack = [head.clone(), tail.clone()].concat();

    let tail_span = RawSpan { offset: u64::try_from(head.len()).unwrap(), len: tail.len() };
    let head_span = RawSpan { offset: 0, len: 16 };

    for (span, want) in [
        (tail_span, &tail[..]),
        (head_span, &head[..16]),
        (tail_span, &tail[..]),
    ] {
        assert_eq!(read_span(&pack, span).unwrap(), want);
    }
}

#[test]
fn rejects_a_span_past_the_end() {
    let pack = b"short";
    assert_eq!(read_span(pack, RawSpan { offset: 0, len: 999 }), Err(Error::EntrySpan));
    assert_eq!(read_span(pack, RawSpan { offset: u64::MAX, len: 1 }), Err(Error::EntrySpan));
}

#[test]
fn the_cache_evicts_by_size() {
    let mut cache = ByteCache::new();
    let chunk = MAX_CACHED_BYTES;
    for i in 0..12u8 {
        cache.put(oid(i), &Content::new(vec![i; chunk]));
    }
    assert!(cache.bytes() <= CACHE_BYTES, "{}", cache.bytes());
    assert!(cache.get(oid(11)).is_some(), "the most recent entry must survive");
    assert!(cache.get(oid(0)).is_none(), "the oldest must not");
    assert_eq!(cache.bytes(), CACHE_BYTES);
}

#[test]
fn an_oversized_object_is_never_cached() {
    let mut cache = ByteCache::new();
    cache.put(oid(1), &Content::new(vec![1u8; MAX_CACHED_BYTES + 1]));
    assert!(cache.get(oid(1)).is_none());
    assert_eq!(cache.bytes(), 0);
}

#[test]
fn what_was_used_last_stays_in_the_cache() {
    let mut cache = ByteCache::new();
    for i in 0..8u8 {
        cache.put(oid(i), &Content::new(vec![i; MAX_CACHED_BYTES]));
    }
    assert_eq!(cache.get(oid(0)).unwrap().as_slice()[0], 0);
    cache.put(oid(8), &Content::new(vec![8; MAX_CACHED_BYTES]));
    assert!(cache.get(oid(0)).is_some());
    assert!(cache.get(oid(1)).is_none());
}

#[test]
fn putting_an_object_again_counts_it_once() {
    let mut cache = ByteCache::new();
    cache.put(oid(1), &Content::new(vec![1; 100]));
    cache.put(oid(1), &Content::new(vec![2; 40]));
    assert_eq!(cache.bytes(), 40);
    assert_eq!(cache.get(oid(1)).unwrap().as_slice(), &[2; 40]);
}

#[test]
fn non_commit_branch_updates_is_conservative_about_unknown_objects() {
    let updates = vec![RefUpdate {
        refname: "refs/heads/main".to_string(),
        old_id: null(),
        new_id: oid(9),
    }];
    let object_refs = OrdMap::new();
    assert!(non_commit_branch_updates(&updates, &object_refs, null()).is_empty());
}

#[test]
fn a_blob_on_a_branch_is_refused_and_on_a_tag_is_not() {
    let update = |refname: &str| RefUpdate {
        refname: refname.to_string(),
        old_id: null(),
        new_id: oid(9),
    };
    let mut object_refs = OrdMap::new();
    object_refs.insert(oid(9), ObjectRefs::Blob);
    let rejected = non_commit_branch_updates(
        &[update("refs/heads/main"), update("refs/tags/v1")],
        &object_refs,
        null(),
    );
    assert!(rejected.contains(&"refs/heads/main".to_string()));
    assert!(!rejected.contains(&"refs/tags/v1".to_string()));
}

fn entry(base: EntryBase) -> ScannedEntry {
    ScannedEntry {
        base,
        decompressed_size: 0,
        entry: RawSpan { offset: 0, len: 0 },
        header_len: 0,
    }
}

#[test]
fn dependents_are_indexed_by_the_entry_they_delta_against() {
    let entries = vec![
        entry(EntryBase::Whole(Kind::Blob)),
        entry(EntryBase::InPack(0)),
        entry(EntryBase::InPack(0)),
        entry(EntryBase::InPack(2)),
        entry(EntryBase::Ref(null())),
    ];

    let dependents = dependents_by_index(&entries);

    assert_eq!(dependents[0], vec![1, 2], "both deltas hang off the root");
    assert!(dependents[1].is_empty());
    assert_eq!(dependents[2], vec![3], "chains nest");
    assert!(dependents[3].is_empty());
    assert!(
        dependents[4].is_empty(),
        "an entry deltifying against an id outside the pack is a root, not a dependent"
    );
}

#[test]
fn an_entry_never_depends_on_itself_or_a_later_one() {
    let entries = vec![
        entry(EntryBase::Whole(Kind::Tree)),
        entry(EntryBase::InPack(0)),
        entry(EntryBase::InPack(1)),
    ];
    for (at, deps) in dependents_by_index(&entries).iter().enumerate() {
        assert!(
            deps.iter().all(|&d| d > at),
            "entry {at} has a dependent that is not later in the pack: {deps:?}"
        );
    }
}
