use std::collections::HashMap;
use std::io::Write;

use enroute_git::error::Error;
use enroute_git::ingest::cache::ByteCache;
use enroute_git::ingest::content::Content;
use enroute_git::ingest::materialise::Want;
use enroute_git::ingest::pack::{EntryBase, RawSpan, ScannedEntry, WirePack, WirePacks};
use enroute_git::ingest::plan::{DeltaEntry, DeltaPlan, EntrySource, WireRef};
use enroute_git::ingest::graph::ObjectRefs;
use enroute_git::ingest::rebuild::{apply_chain, hop, to_prefetch, walk, End, Root};
use enroute_git::ingest::resolve::{cost_of, identify, named_bases, JobBase};
use enroute_git::ingest::scan::PackScan;
use enroute_git::ingest::schedule::Schedule;
use enroute_git::ingest::wants::{encode_pair, encode_whole, foreign_deltas, wanted};
use enroute_git::model::{CommitPackLocation, ObjectMeta, PackImageLocation};
use enroute_git::object::{Kind, ObjectId};
use enroute_git::objects::location::{SegmentLocation, Ulid};
use enroute_git::ordmap::OrdMap;
use enroute_git::packfile::delta::apply::apply_delta;
use enroute_git::packfile::delta::encode::encode_delta;
use enroute_git::packfile::writer::{
    write_pack_entry, write_pack_header, write_ref_delta_header,
};
use sha1::Digest;

fn oid(n: u8) -> ObjectId {
    ObjectId::from_bytes(&[n; 20])
}

fn zlib(data: &[u8]) -> Vec<u8> {
    let mut enc = flate2::write::ZlibEncoder::new(Vec::new(), flate2::Compression::fast());
    enc.write_all(data).unwrap();
    enc.finish().unwrap()
}

fn closed(mut pack: Vec<u8>) -> Vec<u8> {
    let mut hasher = sha1::Sha1::default();
    hasher.update(&pack);
    pack.extend_from_slice(&hasher.finalize());
    pack
}

/// What stands for an object's id: its content's digest.
fn id_of(content: &[u8]) -> ObjectId {
    let mut hasher = sha1::Sha1::default();
    hasher.update(content);
    ObjectId::from_bytes(&hasher.finalize())
}

const FIRST: &[u8] = b"the first version of a file that is long enough to be worth a delta";
const SECOND: &[u8] = b"the first version of a file that is long enough to be worth a delta, and more";
const THIRD: &[u8] = b"the first version of a file that is long enough to be worth a delta, and more of it";

/// A pack of one whole blob, a delta on it by distance, and one on that by id.
fn three_versions() -> Vec<u8> {
    let mut pack = Vec::new();
    write_pack_header(3, &mut pack);
    let first = pack.len();
    write_pack_entry(Kind::Blob, FIRST, &mut pack).unwrap();
    let second = pack.len();
    let delta = encode_delta(FIRST, SECOND).unwrap();
    gix_pack::data::entry::Header::OfsDelta { base_distance: (second - first) as u64 }
        .write_to(delta.len() as u64, &mut pack)
        .unwrap();
    pack.extend_from_slice(&zlib(&delta));
    let delta = encode_delta(SECOND, THIRD).unwrap();
    write_ref_delta_header(id_of(SECOND), delta.len() as u64, &mut pack).unwrap();
    pack.extend_from_slice(&zlib(&delta));
    closed(pack)
}

fn scanned(pack: &[u8]) -> (Vec<ScannedEntry>, Vec<u8>) {
    let mut scan = PackScan::new(Some(pack.len() as u64));
    scan.feed(pack);
    scan.finish();
    assert_eq!(scan.run(), Ok(true));
    scan.into_parts()
}

fn refusal(pack: &[u8]) -> Error {
    let mut scan = PackScan::new(None);
    scan.feed(pack);
    scan.finish();
    scan.run().expect_err("a pack to refuse")
}

/// Identify every entry the way the schedule hands them out.
fn identified(entries: &[ScannedEntry], raw: &[u8]) -> Result<Vec<ObjectId>, Error> {
    let mut schedule = Schedule::new(entries.to_vec(), &OrdMap::new());
    while let Some((job, cost)) = schedule.next() {
        let entry = &entries[job.at];
        assert_eq!(cost, cost_of(entry, &job.base));
        assert!(schedule.is_running(job.at));
        let start = entry.entry.offset as usize;
        let bytes = &raw[start..start + entry.entry.len];
        let content = identify(bytes, entry, &job.base)?;
        let kind = job.base.kind;
        let id = id_of(&content);
        schedule.record(job.at, cost, id, kind, &Content::new(content));
    }
    assert!(schedule.is_at_rest());
    schedule.finish()
}

#[test]
fn a_pack_is_scanned_entry_by_entry() {
    let pack = three_versions();
    let (entries, raw) = scanned(&pack);
    assert_eq!(raw, pack);
    let bases: Vec<EntryBase> = entries.iter().map(|entry| entry.base).collect();
    assert_eq!(
        bases,
        vec![
            EntryBase::Whole(Kind::Blob),
            EntryBase::InPack(0),
            EntryBase::Ref(id_of(SECOND)),
        ]
    );
    assert_eq!(entries[0].entry.offset, 12);
    assert_eq!(entries[0].decompressed_size, FIRST.len() as u64);
    assert_eq!(
        entries[1].entry.offset,
        entries[0].entry.offset + entries[0].entry.len as u64
    );
    assert_eq!(named_bases(&entries), vec![id_of(SECOND)]);
}

#[test]
fn a_pack_scans_the_same_however_it_arrives() {
    let pack = three_versions();
    let (expected, _) = scanned(&pack);
    let mut scan = PackScan::new(None);
    for byte in &pack {
        assert_eq!(scan.run(), Ok(false));
        scan.feed(&[*byte]);
    }
    scan.finish();
    assert_eq!(scan.run(), Ok(true));
    let (entries, raw) = scan.into_parts();
    assert_eq!(entries, expected);
    assert_eq!(raw, pack);
}

#[test]
fn a_malformed_pack_is_refused() {
    let pack = three_versions();
    let mut wrong = pack.clone();
    wrong[0] = b'X';
    assert_eq!(refusal(&wrong), Error::PackMagic);
    let mut wrong = pack.clone();
    let last = wrong.len() - 1;
    wrong[last] ^= 1;
    assert_eq!(refusal(&wrong), Error::PackChecksum);
    assert_eq!(refusal(&pack[..pack.len() - 30]), Error::StreamEnded);

    let mut many = Vec::new();
    write_pack_header(u32::MAX, &mut many);
    assert_eq!(refusal(&many), Error::TooManyObjects);

    let delta_at = |base_distance| {
        let mut pack = Vec::new();
        write_pack_header(2, &mut pack);
        write_pack_entry(Kind::Blob, b"x", &mut pack).unwrap();
        gix_pack::data::entry::Header::OfsDelta { base_distance }
            .write_to(4, &mut pack)
            .unwrap();
        pack.extend_from_slice(&zlib(b"1234"));
        closed(pack)
    };
    assert_eq!(refusal(&delta_at(1)), Error::BaseNotAnEntry);
    assert_eq!(refusal(&delta_at(1_000)), Error::BaseBeforePack);

    let mut large = Vec::new();
    write_pack_header(1, &mut large);
    gix_pack::data::entry::Header::Blob.write_to(1 << 40, &mut large).unwrap();
    assert_eq!(refusal(&closed(large)), Error::ObjectTooLarge);
}

#[test]
fn every_entry_of_a_pack_is_identified() {
    let pack = three_versions();
    let (entries, raw) = scanned(&pack);
    assert_eq!(
        identified(&entries, &raw),
        Ok(vec![id_of(FIRST), id_of(SECOND), id_of(THIRD)])
    );
}

#[test]
fn a_base_that_is_nowhere_is_reported() {
    let mut pack = Vec::new();
    write_pack_header(1, &mut pack);
    write_ref_delta_header(oid(9), 4, &mut pack).unwrap();
    pack.extend_from_slice(&zlib(b"1234"));
    let pack = closed(pack);
    let (entries, raw) = scanned(&pack);
    assert_eq!(identified(&entries, &raw), Err(Error::BasesMissing));
}

#[test]
fn a_base_from_the_store_is_used() {
    let mut pack = Vec::new();
    write_pack_header(1, &mut pack);
    let delta = encode_delta(FIRST, SECOND).unwrap();
    write_ref_delta_header(id_of(FIRST), delta.len() as u64, &mut pack).unwrap();
    pack.extend_from_slice(&zlib(&delta));
    let pack = closed(pack);
    let (entries, raw) = scanned(&pack);
    let mut bases = OrdMap::new();
    bases.insert(id_of(FIRST), (Kind::Blob, Content::new(FIRST.to_vec())));
    let mut schedule = Schedule::new(entries.clone(), &bases);
    let (job, cost) = schedule.next().expect("its base is at hand");
    let start = entries[0].entry.offset as usize;
    let content = identify(&raw[start..start + entries[0].entry.len], &entries[0], &job.base);
    assert_eq!(content.as_deref(), Ok(SECOND));
    schedule.record(0, cost, id_of(SECOND), Kind::Blob, &Content::new(SECOND.to_vec()));
    assert_eq!(schedule.identified(), 1);
    assert_eq!(schedule.finish(), Ok(vec![id_of(SECOND)]));
}

#[test]
fn an_entry_shorter_than_its_header_is_refused() {
    let entry = ScannedEntry {
        base: EntryBase::Whole(Kind::Blob),
        decompressed_size: 1,
        entry: RawSpan { offset: 0, len: 2 },
        header_len: 3,
    };
    let base = JobBase { kind: Kind::Blob, content: None };
    assert_eq!(identify(b"ab", &entry, &base), Err(Error::EntryShorterThanHeader));
    assert!(matches!(
        WirePack::new(vec![], vec![entry], vec![]),
        Err(Error::EntriesUnidentified)
    ));
    let mut wire = WirePacks::new();
    wire.adopt(WirePack::new(b"ab".to_vec(), vec![entry], vec![oid(1)]).unwrap());
    assert_eq!(
        wire.body(WireRef { pack: 0, at: 0 }),
        Err(Error::EntryShorterThanHeader)
    );
}

fn arrived() -> WirePacks {
    let pack = three_versions();
    let (entries, raw) = scanned(&pack);
    let oids = identified(&entries, &raw).unwrap();
    let mut wire = WirePacks::new();
    wire.adopt(WirePack::new(raw, entries, oids).unwrap());
    wire
}

#[test]
fn a_chain_is_walked_back_and_applied_forward() {
    let wire = arrived();
    let mut cache = ByteCache::new();
    let at = wire.entry_of(id_of(THIRD)).unwrap();
    let (chain, end) = walk(&wire, at, &mut cache).unwrap();
    assert_eq!(chain.len(), 2);
    let root = match end {
        End::Root(root) => root,
        End::Repo(oid) => panic!("the push has {oid:?}"),
    };
    assert!(matches!(root, Root::Entry(_)));
    let rebuilt = apply_chain(root, chain).unwrap();
    assert_eq!(rebuilt.target.as_slice(), THIRD);
    assert_eq!(
        rebuilt.along_the_way.iter().map(|(oid, _)| *oid).collect::<Vec<_>>(),
        vec![id_of(FIRST), id_of(SECOND), id_of(THIRD)]
    );
}

#[test]
fn a_version_at_hand_ends_the_walk() {
    let wire = arrived();
    let mut cache = ByteCache::new();
    cache.put(id_of(SECOND), &Content::new(SECOND.to_vec()));
    let at = wire.entry_of(id_of(THIRD)).unwrap();
    let (chain, end) = walk(&wire, at, &mut cache).unwrap();
    assert_eq!(chain.len(), 1);
    match end {
        End::Root(Root::Content(content)) => {
            assert_eq!(content.as_slice(), SECOND);
            let rebuilt = apply_chain(Root::Content(content), chain).unwrap();
            assert_eq!(rebuilt.target.as_slice(), THIRD);
        }
        other => panic!("{other:?}"),
    }
}

/// An entry that names its own object as its base: only the repository can have
/// that.
#[test]
fn an_entry_that_names_itself_as_its_base_does_not_chase_its_own_tail() {
    let entry = ScannedEntry {
        base: EntryBase::Ref(oid(1)),
        decompressed_size: 1,
        entry: RawSpan { offset: 0, len: 2 },
        header_len: 1,
    };
    let mut wire = WirePacks::new();
    wire.adopt(WirePack::new(b"ab".to_vec(), vec![entry], vec![oid(1)]).unwrap());
    let (chain, end) = walk(&wire, WireRef { pack: 0, at: 0 }, &mut ByteCache::new()).unwrap();
    assert_eq!(chain.len(), 1);
    assert!(matches!(end, End::Repo(found) if found == oid(1)));
}

#[test]
fn a_walk_out_of_the_push_is_refused() {
    let wire = arrived();
    let mut cache = ByteCache::new();
    assert!(matches!(
        walk(&wire, WireRef { pack: 1, at: 0 }, &mut cache),
        Err(Error::NoSuchPack)
    ));
    assert!(matches!(hop(&wire, WireRef { pack: 0, at: 3 }), Err(Error::NoSuchEntry)));
}

#[test]
fn only_what_is_neither_sent_nor_at_hand_is_read_ahead() {
    let wire = arrived();
    let mut cache = ByteCache::new();
    cache.put(oid(1), &Content::new(vec![1]));
    let asked = [oid(1), oid(2), id_of(FIRST), oid(3), oid(2)];
    assert_eq!(to_prefetch(&asked, &wire, &mut cache), vec![oid(2), oid(3)]);
}

#[test]
fn sizes_come_from_the_pack() {
    let wire = arrived();
    assert_eq!(wire.size_of(id_of(FIRST)), FIRST.len() as u64);
    assert_eq!(wire.size_of(oid(9)), 0);
    assert_eq!(wire.packs().len(), 1);
}

#[test]
fn a_delta_is_kept_only_where_it_is_shorter() {
    let want = Want { oid: oid(1), kind: Kind::Blob, base: Some(oid(2)) };
    let delta = encode_pair(want, SECOND, FIRST).unwrap();
    assert_eq!(delta.base, Some(oid(2)));
    assert!(delta.bytes.len() < SECOND.len());
    assert_eq!(apply_delta(FIRST, &delta.bytes).as_deref(), Ok(SECOND));
    let whole = encode_pair(want, b"tiny", FIRST).unwrap();
    assert_eq!((whole.base, &whole.bytes[..]), (None, &b"tiny"[..]));
    let whole = encode_whole(want, b"tiny");
    assert_eq!((whole.base, &whole.bytes[..]), (None, &b"tiny"[..]));
}

#[test]
fn a_push_produces_what_its_packs_lack() {
    let kept = EntrySource::Wire(WireRef { pack: 0, at: 0 });
    let entry = |n, base, source| DeltaEntry { oid: oid(n), kind: Kind::Blob, base, source };
    let mut plan = DeltaPlan { packs: OrdMap::new(), commits: OrdMap::new() };
    plan.commits.insert(oid(1), kept);
    plan.packs.insert(
        oid(1),
        vec![
            entry(10, None, kept),
            entry(11, Some(oid(10)), EntrySource::Encoded),
            entry(20, None, EntrySource::Encoded),
            entry(21, Some(oid(20)), EntrySource::Encoded),
        ],
    );
    plan.packs.insert(oid(2), vec![entry(11, Some(oid(10)), EntrySource::Encoded)]);
    let commit = || ObjectRefs::Commit { root_tree: oid(9), parents: vec![], committer_date: 0 };
    let mut push = OrdMap::new();
    push.insert(oid(1), commit());
    push.insert(oid(2), commit());
    push.insert(oid(3), ObjectRefs::Tag(oid(1)));
    push.insert(oid(10), ObjectRefs::Blob);
    push.insert(oid(11), ObjectRefs::Blob);

    let (mut wants, foreign) = wanted(&plan, &push);
    assert_eq!(foreign, vec![oid(20), oid(21)], "older than the push, and stored again");
    wants.put_whole(&[(oid(20), Kind::Blob)]);
    wants.put_whole(&[(oid(20), Kind::Blob)]);
    let mut found: Vec<(ObjectId, Kind, Option<ObjectId>)> =
        wants.into_vec().iter().map(|want| (want.oid, want.kind, want.base)).collect();
    found.sort_by_key(|(oid, _, _)| oid.to_bytes());
    assert_eq!(
        found,
        vec![
            (oid(2), Kind::Commit, None),
            (oid(3), Kind::Tag, None),
            (oid(11), Kind::Blob, Some(oid(10))),
            (oid(20), Kind::Blob, None),
            (oid(21), Kind::Blob, Some(oid(20))),
        ]
    );
}

#[test]
fn an_older_delta_is_wanted_whole() {
    let meta = |base| ObjectMeta {
        kind: Kind::Tree,
        location: Some(CommitPackLocation {
            image: PackImageLocation { pack_sha: oid(9), offset: 0, entry_len: 1, base },
            segment: SegmentLocation { id: Ulid(1), base_offset: 0, image_len: 1 },
        }),
        object_seq: None,
    };
    let mut metas = OrdMap::new();
    metas.insert(oid(1), meta(None));
    metas.insert(oid(2), meta(Some(oid(1))));
    metas.insert(oid(3), ObjectMeta { kind: Kind::Tag, location: None, object_seq: None });
    assert_eq!(foreign_deltas(&metas), vec![(oid(2), Kind::Tree)]);
}

#[test]
fn shared_content_is_one_content() {
    let content = Content::new(b"bytes".to_vec());
    let other = content.share();
    drop(content);
    assert_eq!(other.as_slice(), b"bytes");
    assert_eq!(other.len(), 5);
    let mut by_id = HashMap::new();
    by_id.insert(1, other);
    assert_eq!(by_id[&1].as_slice(), b"bytes");
}
