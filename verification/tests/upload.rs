use enroute_git::error::Error;
use enroute_git::ingest::append::model::NewObject;
use enroute_git::ingest::graph::{ObjectRefs, TreeChild};
use enroute_git::ingest::pack::{EntryBase, RawSpan, ScannedEntry, WirePack, WirePacks};
use enroute_git::ingest::plan::{DeltaEntry, DeltaPlan, EntrySource, WireRef};
use enroute_git::ingest::staging::encodings::{StagedEncodings, StagedObjectLocation};
use enroute_git::ingest::upload::choice::{
    all_fit, choose_entries, plan_entry, planned_commits, preexisting, Body, Chosen,
    PlannedCommit, Sources,
};
use enroute_git::ingest::upload::layout::{
    header_for, plan_images, split_segments, Framed, FramedCommit, PlannedImage,
};
use enroute_git::ingest::upload::promote::{
    bases_of, build_new_commits, connected_parents, fold_images, record_object_entries_absolute,
    staged_tags, tag_object, PromotedImage,
};
use enroute_git::ingest::upload::pump::{
    check_forwarded_sha, collect_segments, prefetch_payload, pump_entry, segment_of,
    trailer_entry, Fetch, ForwardedHeader, HeaderWatch, Outcome, TrailerEntry, Unwritten, Written,
};
use enroute_git::ingest::upload::segment::{SegmentRun, Todo};
use enroute_git::ingest::upload::STREAM_THRESHOLD_BYTES;
use enroute_git::model::{CommitPackLocation, ObjectMeta, PackImageLocation};
use enroute_git::object::{Kind, ObjectId};
use enroute_git::objects::location::{SegmentLocation, Ulid};
use enroute_git::ordmap::{OrdMap, OrdSet};

const HEADER_SIZE: u64 = 12;
const TRAILER_LEN: u64 = 47;

fn oid(n: u8) -> ObjectId {
    ObjectId::from_bytes(&[n; 20])
}

type PerCommit = Vec<(ObjectId, Vec<DeltaEntry>)>;

fn borrowed(per_commit: &PerCommit) -> Vec<PlannedCommit<'_>> {
    per_commit
        .iter()
        .map(|(oid, entries)| PlannedCommit {
            commit_oid: *oid,
            source: EntrySource::Encoded,
            entries: entries.as_slice(),
        })
        .collect()
}

fn staged_at(offset: usize, kind: Kind) -> StagedObjectLocation {
    StagedObjectLocation { chunk_id: 0, offset, compressed_len: 100, decompressed_len: 200, kind }
}

fn planned_n(n: u8) -> (PerCommit, OrdMap<ObjectId, StagedEncodings>) {
    let mut per_commit: PerCommit = Vec::new();
    let mut chunk_index = OrdMap::new();
    for i in 0u8..n {
        per_commit.push((oid(i + 1), vec![]));
        let mut encodings = StagedEncodings::new();
        encodings.insert(None, staged_at(usize::from(i) * 100, Kind::Commit));
        chunk_index.insert(oid(i + 1), encodings);
    }
    (per_commit, chunk_index)
}

/// Lay out what is staged, with a header of thirty bytes for each entry.
fn laid_out(
    per_commit: &PerCommit,
    chunk_index: &OrdMap<ObjectId, StagedEncodings>,
    target: u64,
) -> Vec<PlannedImage> {
    let wire = WirePacks::new();
    let prefetched = OrdMap::new();
    let sources = Sources { wire: &wire, chunk_index, prefetched: &prefetched };
    let framed = borrowed(per_commit)
        .iter()
        .map(|commit| FramedCommit {
            commit_oid: commit.commit_oid,
            entries: choose_entries(commit, &sources)
                .unwrap()
                .into_iter()
                .map(|chosen| Framed { chosen, header: vec![7; 30] })
                .collect(),
            trailer_len: TRAILER_LEN,
        })
        .collect();
    plan_images(framed, HEADER_SIZE, target).unwrap()
}

#[test]
fn a_staged_place_past_what_can_be_counted_is_told() {
    let (_, mut chunk_index) = planned_n(2);
    assert!(all_fit(&chunk_index));
    let mut encodings = StagedEncodings::new();
    encodings.insert(None, staged_at(usize::MAX - 100, Kind::Blob));
    assert!(encodings.fits());
    encodings.insert(Some(oid(1)), staged_at(usize::MAX - 99, Kind::Blob));
    assert!(!encodings.fits());
    chunk_index.insert(oid(9), encodings);
    assert!(!all_fit(&chunk_index));
}

#[test]
fn plan_images_cuts_at_byte_target_in_order() {
    let (per_commit, chunk_index) = planned_n(3);

    let plan = laid_out(&per_commit, &chunk_index, u64::MAX);
    let image_len = HEADER_SIZE + plan[0].entries[0].entry_len + TRAILER_LEN;
    assert_eq!(plan[0].entries[0].entry_len, 130);
    assert_eq!(plan[0].base_offset, 0);
    assert_eq!(plan[1].base_offset, image_len);
    assert_eq!(plan[2].base_offset, 2 * image_len);
    assert!(plan.iter().all(|image| image.image_len == image_len));
    assert_eq!(plan.iter().filter(|image| image.base_offset == 0).count(), 1);
    assert_eq!(plan[0].entries[0].offset, HEADER_SIZE);

    let plan = laid_out(&per_commit, &chunk_index, 1);
    assert!(plan.iter().all(|image| image.base_offset == 0));
}

#[test]
fn split_segments_groups_each_cut_s_images_together() {
    let (per_commit, chunk_index) = planned_n(6);
    let image_len = laid_out(&per_commit, &chunk_index, u64::MAX)[0].image_len;
    let plan = laid_out(&per_commit, &chunk_index, 2 * image_len);

    let commits: Vec<ObjectId> = plan.iter().map(|image| image.commit_oid).collect();
    let runs = split_segments(plan);

    assert_eq!(runs.len(), 3);
    for run in &runs {
        assert_eq!(run.len(), 2);
        assert_eq!(run[0].base_offset, 0, "a run starts its segment");
        assert_eq!(run[1].base_offset, image_len, "and the next appends to it");
    }
    let regrouped: Vec<ObjectId> = runs.iter().flatten().map(|image| image.commit_oid).collect();
    assert_eq!(regrouped, commits);
}

#[test]
fn a_layout_that_does_not_fit_is_refused() {
    let entry = |header: usize| Framed {
        chosen: Chosen {
            oid: oid(1),
            kind: Kind::Blob,
            base: None,
            body: Body::Indexed { segment: Ulid(1), start: 0, entry_len: u64::MAX - 20 },
        },
        header: vec![0; header],
    };
    let commit = |entries: Vec<Framed>, trailer_len: u64| FramedCommit {
        commit_oid: oid(1),
        entries,
        trailer_len,
    };
    let refused = |entries, trailer_len| {
        plan_images(vec![commit(entries, trailer_len)], HEADER_SIZE, u64::MAX).err()
    };
    assert_eq!(refused(vec![entry(0)], 8), None);
    assert_eq!(refused(vec![entry(0)], 9), Some(Error::PackOffset));
    assert_eq!(refused(vec![entry(9)], 0), Some(Error::PackOffset));
    assert_eq!(refused(vec![entry(21)], 0), Some(Error::PackOffset));
}

fn encoded(n: u8, base: Option<ObjectId>) -> DeltaEntry {
    DeltaEntry { oid: oid(n), kind: Kind::Blob, base, source: EntrySource::Encoded }
}

fn stored(n: u8, base: Option<ObjectId>) -> ObjectMeta {
    ObjectMeta {
        kind: Kind::Blob,
        location: Some(CommitPackLocation {
            image: PackImageLocation { pack_sha: oid(99), offset: 40, entry_len: 60, base },
            segment: SegmentLocation { id: Ulid(u128::from(n)), base_offset: 1000, image_len: 500 },
        }),
        object_seq: None,
    }
}

#[test]
fn an_entry_comes_from_the_first_place_that_has_it() {
    let pack_bytes = b"0123456789".to_vec();
    let scanned = ScannedEntry {
        base: EntryBase::Whole(Kind::Blob),
        decompressed_size: 77,
        entry: RawSpan { offset: 2, len: 6 },
        header_len: 2,
    };
    let mut wire = WirePacks::new();
    wire.adopt(WirePack::new(pack_bytes, vec![scanned], vec![oid(1)]).unwrap());

    let mut encodings = StagedEncodings::new();
    encodings.insert(None, staged_at(10, Kind::Blob));
    encodings.insert(Some(oid(8)), staged_at(300, Kind::Blob));
    let mut chunk_index = OrdMap::new();
    chunk_index.insert(oid(2), encodings);

    let mut prefetched = OrdMap::new();
    prefetched.insert(oid(3), stored(3, None));
    prefetched.insert(oid(4), stored(4, Some(oid(9))));
    prefetched.insert(oid(5), ObjectMeta { kind: Kind::Blob, location: None, object_seq: None });

    let sources = Sources { wire: &wire, chunk_index: &chunk_index, prefetched: &prefetched };
    let at = WireRef { pack: 0, at: 0 };
    let kept = DeltaEntry { source: EntrySource::Wire(at), ..encoded(1, Some(oid(7))) };
    assert_eq!(
        plan_entry(kept, &sources),
        Ok(Chosen {
            oid: oid(1),
            kind: Kind::Blob,
            base: Some(oid(7)),
            body: Body::Wire { at, length: 77, compressed_len: 4 },
        })
    );
    let from = |base, from| {
        Ok(Chosen {
            oid: oid(2),
            kind: Kind::Blob,
            base,
            body: Body::Staged { chunk_id: 0, from, to: from + 100, length: 200 },
        })
    };
    assert_eq!(plan_entry(encoded(2, Some(oid(8))), &sources), from(Some(oid(8)), 300));
    assert_eq!(
        plan_entry(encoded(2, Some(oid(6))), &sources),
        from(None, 10),
        "a delta that was not worth it was staged whole"
    );
    let indexed = plan_entry(encoded(3, Some(oid(6))), &sources).unwrap();
    assert_eq!(indexed.base, None);
    assert_eq!(indexed.body, Body::Indexed { segment: Ulid(3), start: 1040, entry_len: 60 });
    assert_eq!(plan_entry(encoded(4, None), &sources), Err(Error::StoredAsDelta));
    assert_eq!(plan_entry(encoded(5, None), &sources), Err(Error::ObjectUnlocated));
    assert_eq!(plan_entry(encoded(6, None), &sources), Err(Error::ObjectUnplaced));
    let stray = DeltaEntry {
        source: EntrySource::Wire(WireRef { pack: 1, at: 0 }),
        ..encoded(1, None)
    };
    assert_eq!(plan_entry(stray, &sources), Err(Error::NoSuchPack));
    let stray = DeltaEntry {
        source: EntrySource::Wire(WireRef { pack: 0, at: 1 }),
        ..encoded(1, None)
    };
    assert_eq!(plan_entry(stray, &sources), Err(Error::NoSuchEntry));

    let fields = header_for(plan_entry(kept, &sources).unwrap()).unwrap();
    assert_eq!((fields.length, fields.compressed_len), (77, 4));
    assert_eq!(fields.base, Some(oid(7)));
    assert_eq!(header_for(indexed), None);
}

#[test]
fn only_what_is_neither_kept_nor_staged_is_looked_up() {
    let mut encodings = StagedEncodings::new();
    encodings.insert(Some(oid(8)), staged_at(0, Kind::Blob));
    let mut chunk_index = OrdMap::new();
    chunk_index.insert(oid(2), encodings);
    let kept = DeltaEntry {
        source: EntrySource::Wire(WireRef { pack: 0, at: 0 }),
        ..encoded(1, None)
    };
    let per_commit: PerCommit = vec![
        (oid(50), vec![kept, encoded(2, Some(oid(8))), encoded(3, None)]),
        (oid(51), vec![encoded(3, None), encoded(2, None)]),
    ];
    assert_eq!(preexisting(&borrowed(&per_commit), &chunk_index), vec![oid(3), oid(2)]);
}

#[test]
fn a_commit_that_the_plan_does_not_know_is_staged_alone() {
    let mut plan = DeltaPlan { packs: OrdMap::new(), commits: OrdMap::new() };
    let at = EntrySource::Wire(WireRef { pack: 0, at: 4 });
    plan.commits.insert(oid(1), at);
    plan.packs.insert(oid(1), vec![encoded(3, None)]);
    let ordered = [oid(1), oid(2)];
    let planned = planned_commits(&ordered, &plan);
    assert_eq!((planned[0].source, planned[0].entries.len()), (at, 1));
    assert_eq!((planned[1].source, planned[1].entries.len()), (EntrySource::Encoded, 0));
}

#[test]
fn small_entries_are_read_ahead_and_large_ones_pass_through() {
    let staged = |to| Body::Staged { chunk_id: 3, from: 10, to, length: 5 };
    let small = STREAM_THRESHOLD_BYTES as usize + 9;
    assert_eq!(
        prefetch_payload(staged(small)),
        Fetch::Chunk { chunk_id: 3, from: 10, to: small }
    );
    assert_eq!(prefetch_payload(staged(small + 1)), Fetch::Inline);
    let indexed = |entry_len| Body::Indexed { segment: Ulid(1), start: 2, entry_len };
    assert_eq!(
        prefetch_payload(indexed(9)),
        Fetch::Slice { segment: Ulid(1), start: 2, len: 9 }
    );
    assert_eq!(prefetch_payload(indexed(STREAM_THRESHOLD_BYTES)), Fetch::Inline);
    let at = WireRef { pack: 0, at: 1 };
    let wire = Body::Wire { at, length: 5, compressed_len: u64::MAX };
    assert_eq!(prefetch_payload(wire), Fetch::Resident);

    assert_eq!(pump_entry(wire, false).written, Written::Wire(at));
    assert_eq!(pump_entry(staged(20), true).written, Written::Payload);
    assert_eq!(
        pump_entry(staged(20), false).written,
        Written::ChunkStream { chunk_id: 3, from: 10, to: 20 }
    );
    let passed = pump_entry(indexed(9), false);
    assert_eq!(passed.written, Written::SegmentStream { segment: Ulid(1), start: 2, len: 9 });
    assert!(!passed.with_header && passed.length.is_none());
}

#[test]
fn a_streamed_header_is_read_however_it_is_cut() {
    let bytes: Vec<u8> = (0..100).collect();
    for piece in [1usize, 7, 99, 100] {
        let mut watch = HeaderWatch::new();
        for chunk in bytes.chunks(piece) {
            watch.feed(chunk, 40);
        }
        assert_eq!(watch.prefix, &bytes[..40], "in pieces of {piece}");
        assert_eq!(watch.settle(oid(1), None), Ok(()));
        let header = ForwardedHeader { sha: oid(1), length: 12 };
        assert_eq!(watch.settle(oid(1), Some(header)), Ok(()));
        watch.feed(&bytes, 100);
        assert_eq!(watch.prefix.len(), 40, "nothing is kept once the header was read");
        assert_eq!(watch.finish(), Ok(12));
    }
}

#[test]
fn an_entry_of_another_object_is_not_passed_on() {
    let header = ForwardedHeader { sha: oid(2), length: 12 };
    assert_eq!(check_forwarded_sha(oid(2), header), Ok(()));
    assert_eq!(check_forwarded_sha(oid(1), header), Err(Error::ForwardedOther));
    let mut watch = HeaderWatch::new();
    assert_eq!(watch.settle(oid(1), Some(header)), Err(Error::ForwardedOther));
    assert_eq!(HeaderWatch::new().finish(), Err(Error::EntryHeaderCut));
}

#[test]
fn a_segment_is_written_where_it_was_laid() {
    let (mut per_commit, mut chunk_index) = planned_n(2);
    per_commit[0].1.push(encoded(9, None));
    let mut encodings = StagedEncodings::new();
    encodings.insert(None, staged_at(700, Kind::Blob));
    chunk_index.insert(oid(9), encodings);
    let plan = laid_out(&per_commit, &chunk_index, u64::MAX);
    let lens: Vec<u64> = plan.iter().map(|image| image.image_len).collect();
    let starts: Vec<u64> = plan.iter().map(|image| image.base_offset).collect();
    let mut runs = split_segments(plan);
    assert_eq!(runs.len(), 1);

    let mut run = SegmentRun::new(runs.remove(0), Ulid(4));
    let mut written = 0u64;
    let mut image = 0usize;
    loop {
        match run.next(false) {
            Todo::StandDown => panic!("nothing failed"),
            Todo::Header(entries) => {
                assert_eq!(written, starts[image]);
                assert_eq!(entries, if image == 0 { 2 } else { 1 });
                written += HEADER_SIZE;
                run.begin();
            }
            Todo::Entry => {
                assert_eq!(written, starts[image] + run.entry().offset);
                written += run.entry().entry_len;
                run.advance(200);
            }
            Todo::Trailer => {
                written += TRAILER_LEN;
                assert_eq!(written, starts[image] + lens[image]);
                run.close(50);
                image += 1;
            }
            Todo::Finish => break,
        }
    }
    let landed = run.finish();
    assert_eq!(landed.len(), 2);
    assert_eq!(landed[0].commit_oid, oid(1));
    let told: Vec<ObjectId> = landed[0].trailer.iter().map(|entry| entry.sha).collect();
    assert_eq!(told, vec![oid(1), oid(9)]);
    assert_eq!(landed[0].trailer[1].offset, HEADER_SIZE + 130);
    assert_eq!(landed[0].trailer[1].length, 200);
    assert_eq!(landed[1].blob_offset, 50);
    assert_eq!(
        landed[1].segment,
        SegmentLocation { id: Ulid(4), base_offset: starts[1], image_len: lens[1] }
    );
}

#[test]
fn a_segment_stands_down_between_two_images() {
    let (per_commit, chunk_index) = planned_n(1);
    let plan = laid_out(&per_commit, &chunk_index, u64::MAX);
    let mut run = SegmentRun::new(plan, Ulid(1));
    assert_eq!(run.next(true), Todo::StandDown);
    assert_eq!(run.next(false), Todo::Header(1));
    run.begin();
    assert_eq!(run.next(true), Todo::Entry);
    run.advance(1);
    assert_eq!(run.next(true), Todo::Trailer);
    run.close(0);
    assert_eq!(run.next(true), Todo::Finish);
}

#[test]
fn segments_are_put_together_in_the_order_of_the_plan() {
    let landed: Vec<Outcome<u8, &str>> =
        vec![Outcome::Landed(1, vec![3, 4]), Outcome::Landed(0, vec![1, 2])];
    assert_eq!(collect_segments(landed, 2).unwrap(), vec![1, 2, 3, 4]);
}

#[test]
fn the_first_failure_is_the_one_reported() {
    let outcomes: Vec<Outcome<u8, &str>> = vec![
        Outcome::StoodDown,
        Outcome::Failed("first"),
        Outcome::Landed(0, vec![1]),
        Outcome::Failed("second"),
    ];
    assert!(matches!(collect_segments(outcomes, 4), Err(Unwritten::Failed("first"))));
    let silent: Vec<Outcome<u8, &str>> = vec![Outcome::Landed(0, vec![1]), Outcome::StoodDown];
    assert!(matches!(collect_segments(silent, 2), Err(Unwritten::Silent)));
}

fn trailer(n: u8, kind: Kind, offset: u64) -> TrailerEntry {
    TrailerEntry { sha: oid(n), kind, length: 1, offset, entry_len: 10 }
}

fn refs() -> OrdMap<ObjectId, ObjectRefs> {
    let mut refs = OrdMap::new();
    refs.insert(
        oid(1),
        ObjectRefs::Commit { root_tree: oid(2), parents: vec![oid(40)], committer_date: 6 },
    );
    let child = TreeChild { oid: oid(3), is_tree: false, is_commit: false, name: b"f".to_vec() };
    refs.insert(oid(2), ObjectRefs::Tree(vec![child]));
    refs.insert(oid(3), ObjectRefs::Blob);
    refs.insert(oid(4), ObjectRefs::Tag(oid(1)));
    refs
}

fn segment(base_offset: u64) -> SegmentLocation {
    SegmentLocation { id: Ulid(9), base_offset, image_len: 100 }
}

#[test]
fn what_was_written_is_what_is_recorded() {
    let image = |commit: u8, trailer: Vec<TrailerEntry>, base_offset| PromotedImage {
        commit_oid: oid(commit),
        trailer,
        blob_offset: 32,
        segment: segment(base_offset),
    };
    let images = [
        image(
            1,
            vec![
                trailer(1, Kind::Commit, 12),
                trailer(2, Kind::Tree, 22),
                trailer(3, Kind::Blob, 32),
            ],
            0,
        ),
        image(5, vec![trailer(5, Kind::Commit, 12), trailer(3, Kind::Blob, 22)], 100),
    ];
    let mut of_second = OrdMap::new();
    of_second.insert(oid(3), Some(oid(30)));
    let mut bases = OrdMap::new();
    bases.insert(oid(5), of_second);

    let (promoted, objects) = fold_images(&images, &bases, &refs()).unwrap();
    assert_eq!(promoted.get(&oid(1)).unwrap().segment, segment(0));
    assert_eq!(promoted.get(&oid(5)).unwrap().segment, segment(100));
    assert_eq!(objects.get(&oid(2)).unwrap().children, vec![oid(3)]);
    let blob = objects.get(&oid(3)).unwrap();
    assert_eq!(
        blob.locations,
        vec![
            PackImageLocation { pack_sha: oid(1), offset: 32, entry_len: 10, base: None },
            PackImageLocation { pack_sha: oid(5), offset: 22, entry_len: 10, base: Some(oid(30)) },
        ],
        "an object in two packs has a place in each"
    );
    assert!(objects.get(&oid(1)).is_none(), "a commit is no other object");

    let mut connected = OrdSet::new();
    connected.insert(oid(1));
    let commits = build_new_commits(&refs(), &connected, &promoted).unwrap();
    assert_eq!(commits.len(), 1);
    let commit = commits.get(&oid(1)).unwrap();
    assert_eq!(
        (commit.root_tree, &commit.parents, commit.committer_date, commit.blob_offset),
        (oid(2), &vec![oid(40)], 6, 32)
    );
    assert!(matches!(
        build_new_commits(&refs(), &connected, &OrdMap::new()),
        Err(Error::CommitNotStored)
    ));
    let empty = [image(1, vec![], 0)];
    assert!(matches!(fold_images(&empty, &bases, &refs()), Err(Error::PackEmpty)));
}

#[test]
fn a_layout_says_what_its_entries_delta_against() {
    let framed = FramedCommit {
        commit_oid: oid(1),
        entries: vec![Framed {
            chosen: Chosen {
                oid: oid(2),
                kind: Kind::Blob,
                base: Some(oid(7)),
                body: Body::Staged { chunk_id: 0, from: 0, to: 5, length: 9 },
            },
            header: vec![0; 3],
        }],
        trailer_len: 4,
    };
    let plan = plan_images(vec![framed], HEADER_SIZE, 1).unwrap();
    let bases = bases_of(&plan);
    assert_eq!(bases.get(&oid(1)).unwrap().get(&oid(2)), Some(&Some(oid(7))));
    assert_eq!(
        trailer_entry(&plan[0].entries[0], 9),
        TrailerEntry { sha: oid(2), kind: Kind::Blob, length: 9, offset: 12, entry_len: 8 }
    );
    assert_eq!(
        segment_of(&plan[0], Ulid(3)),
        SegmentLocation { id: Ulid(3), base_offset: 0, image_len: 24 }
    );
}

#[test]
fn recording_adds_to_what_is_there() {
    let mut objects: OrdMap<ObjectId, NewObject> = OrdMap::new();
    let entries = [trailer(3, Kind::Blob, 32)];
    record_object_entries_absolute(&mut objects, oid(1), &entries, None, &refs());
    record_object_entries_absolute(&mut objects, oid(5), &entries, None, &refs());
    assert_eq!(objects.get(&oid(3)).unwrap().locations.len(), 2);
}

#[test]
fn a_staged_tag_is_kept_for_itself() {
    let mut encodings = StagedEncodings::new();
    encodings.insert(None, staged_at(5, Kind::Tag));
    let mut chunk_index = OrdMap::new();
    chunk_index.insert(oid(4), encodings);
    assert_eq!(staged_tags(&refs(), &chunk_index), vec![(oid(4), staged_at(5, Kind::Tag))]);
    assert!(staged_tags(&refs(), &OrdMap::new()).is_empty());
    let tag = tag_object(oid(4));
    assert!(tag.kind == Kind::Tag && tag.locations.is_empty() && tag.children.is_empty());
}

#[test]
fn only_connected_commits_are_put_in_order() {
    let mut connected = OrdSet::new();
    connected.insert(oid(1));
    connected.insert(oid(2));
    let parents = connected_parents(&refs(), &connected);
    assert_eq!(parents.len(), 1);
    assert_eq!(parents.get(&oid(1)), Some(&vec![oid(40)]));
}
