use std::collections::HashMap;

use enroute_git::ingest::staging::buffer::{
    route, Chunk, StagingBuffer, Whereabouts, STAGING_CHUNK_BYTES,
};
use enroute_git::ingest::staging::encodings::{
    StagedEncodings, StagedItem, StagedObjectLocation,
};
use enroute_git::ingest::staging::sessions::{
    chunk_key, new_session_id, parse_session_id, session_id, session_prefix, sweep,
};
use enroute_git::object::{Kind, ObjectId};
use enroute_git::ordmap::OrdSet;

fn oid(n: u8) -> ObjectId {
    ObjectId::from_bytes(&[n; 20])
}

fn item(n: u8, base: Option<ObjectId>, decompressed_len: usize) -> StagedItem {
    StagedItem { sha: oid(n), kind: Kind::Blob, base, decompressed_len }
}

/// The chunks that were written, in place of a store.
struct Store {
    chunks: HashMap<u32, Vec<u8>>,
}

impl Store {
    fn put(&mut self, chunk: Option<Chunk>) {
        if let Some(chunk) = chunk {
            assert!(self.chunks.insert(chunk.chunk_id, chunk.data).is_none());
        }
    }

    fn read(&self, there: Whereabouts) -> Vec<u8> {
        match there {
            Whereabouts::Here { compressed, .. } => compressed,
            Whereabouts::Chunk { chunk_id, start, end, .. } => {
                self.chunks[&chunk_id][start..end].to_vec()
            }
        }
    }
}

fn empty() -> (StagingBuffer, Store) {
    (StagingBuffer::new(), Store { chunks: HashMap::new() })
}

#[test]
fn fetch_base_returns_current_buffer_bytes() {
    let (mut staging, store) = empty();
    assert!(staging.push_compressed(item(1, None, 5), b"hello").is_none());
    let there = staging.locate(oid(1)).expect("staged object should be found");
    assert!(matches!(there, Whereabouts::Here { decompressed_len: 5, .. }));
    assert_eq!(store.read(there), b"hello");
}

#[test]
fn fetch_base_returns_flushed_chunk_bytes() {
    let (mut staging, mut store) = empty();
    staging.push_compressed(item(1, None, 5), b"hello");
    store.put(staging.flush());
    let there = staging.locate(oid(1)).expect("staged object should be found");
    assert!(matches!(there, Whereabouts::Chunk { chunk_id: 0, .. }));
    assert_eq!(store.read(there), b"hello");
}

#[test]
fn fetch_base_reports_a_missing_object_as_absent() {
    let (staging, _) = empty();
    assert!(staging.locate(oid(1)).is_none());
    assert_eq!(route(&[oid(1)], &staging).absent, vec![oid(1)]);
}

#[test]
fn fetch_bases_answers_staged_stored_and_absent_together() {
    let (mut staging, store) = empty();
    staging.push_compressed(item(1, None, 6), b"staged");
    let routed = route(&[oid(1), oid(2), oid(3)], &staging);
    assert_eq!(routed.absent, vec![oid(2), oid(3)]);
    assert_eq!(routed.here.len(), 1);
    for (sha, there) in routed.here {
        assert_eq!(sha, oid(1));
        assert_eq!(store.read(there), b"staged");
    }
}

#[test]
fn fetch_bases_answers_a_repeated_oid_once() {
    let (mut staging, mut store) = empty();
    staging.push_compressed(item(1, None, 6), b"shared");
    store.put(staging.flush());
    let routed = route(&[oid(1), oid(1), oid(1), oid(2), oid(2)], &staging);
    assert_eq!(routed.here.len(), 1);
    assert_eq!(routed.absent, vec![oid(2)]);
}

#[test]
fn what_is_staged_reads_back_across_chunks() {
    let (mut staging, mut store) = empty();
    let piece = STAGING_CHUNK_BYTES / 3;
    let mut written = Vec::new();
    for n in 0..10u8 {
        let bytes = vec![n; piece + usize::from(n)];
        store.put(staging.push_compressed(item(n, None, bytes.len()), &bytes));
        written.push(bytes);
        for (k, bytes) in written.iter().enumerate() {
            let there = staging.locate(oid(k as u8)).expect("placed before");
            assert_eq!(&store.read(there), bytes);
        }
    }
    assert!(store.chunks.len() >= 2);
    assert!(store.chunks.values().all(|chunk| chunk.len() >= STAGING_CHUNK_BYTES));
}

#[test]
fn a_delta_alone_is_no_object() {
    let (mut staging, _) = empty();
    staging.push_compressed(item(1, Some(oid(9)), 5), b"delta");
    assert!(staging.locate(oid(1)).is_none());
    let index = staging.into_index();
    let encodings = index.get(&oid(1)).unwrap();
    assert!(encodings.whole().is_none());
    let loc = encodings.against(Some(oid(9))).unwrap();
    assert_eq!((loc.offset, loc.compressed_len, loc.decompressed_len), (0, 5, 5));
}

#[test]
fn nothing_staged_leaves_no_chunk() {
    let (mut staging, _) = empty();
    assert!(staging.flush().is_none());
    staging.push_compressed(item(1, None, 1), b"x");
    assert_eq!(staging.flush().unwrap().chunk_id, 0);
    assert!(staging.flush().is_none());
    staging.push_compressed(item(2, None, 1), b"y");
    assert_eq!(staging.flush().unwrap().chunk_id, 1);
}

#[test]
fn an_encoding_against_the_same_base_replaces_the_one_before() {
    let at = |offset| StagedObjectLocation {
        chunk_id: 0,
        offset,
        compressed_len: 1,
        decompressed_len: 1,
        kind: Kind::Tree,
    };
    let mut encodings = StagedEncodings::new();
    encodings.insert(None, at(1));
    encodings.insert(Some(oid(2)), at(2));
    encodings.insert(Some(oid(2)), at(3));
    assert_eq!(encodings.whole(), Some(at(1)));
    assert_eq!(encodings.against(Some(oid(2))), Some(at(3)));
    assert_eq!(encodings.against(Some(oid(4))), None);
}

#[test]
fn a_chunk_is_written_under_its_session() {
    let id = session_id(0x1234, 0xabcd);
    assert_eq!(id, (0x1234 << 64) | 0xabcd);
    assert_eq!(session_prefix("key", id), "key/sessions/0000000000001234000000000000abcd");
    assert_eq!(
        chunk_key("key", id, 42),
        "key/sessions/0000000000001234000000000000abcd/chunks/00000042"
    );
    assert_eq!(
        chunk_key("key", u128::MAX, u32::MAX),
        format!("key/sessions/{:032x}/chunks/{:08}", u128::MAX, u32::MAX)
    );
}

#[test]
fn a_chunk_names_its_session() {
    for id in [0, 1, u128::from(u64::MAX), u128::MAX, session_id(1_700_000_000, 99)] {
        assert_eq!(parse_session_id(&chunk_key("some-key", id, 7)), Some(id));
        assert_eq!(parse_session_id(&session_prefix("", id)), Some(id));
    }
}

#[test]
fn a_key_that_no_session_writes_names_none() {
    for key in [
        "",
        "key",
        "key/sessions",
        "key/sessions/",
        "key/sessions/+",
        "key/sessions/-1",
        "key/sessions/xyz/chunks/0",
        "key/session/1/chunks/0",
        "key/chunks/00000000000000000000000000000007/00000000",
        "sessions/1",
        "key/sessions/100000000000000000000000000000000",
    ] {
        assert_eq!(parse_session_id(key), None, "{key}");
    }
    assert_eq!(parse_session_id("key/sessions/+1F/x/y"), Some(31));
    assert_eq!(
        parse_session_id("key/sessions/000ffffffffffffffffffffffffffffffff"),
        Some(u128::MAX)
    );
}

#[test]
fn sweep_removes_keys_from_a_layout_we_no_longer_write() {
    let stale = format!("key/chunks/{:032x}/00000000", 7);
    let swept = sweep(&[stale.clone()], &OrdSet::new());
    assert_eq!(swept.keys, vec![stale]);
    assert_eq!(swept.sessions, vec![None]);
}

#[test]
fn sweep_ignores_active_session() {
    let id = new_session_id(1_700_000_000);
    let mut active = OrdSet::new();
    active.insert(id);
    let swept = sweep(&[chunk_key("key", id, 0)], &active);
    assert!(swept.keys.is_empty() && swept.sessions.is_empty());
}

#[test]
fn sweep_deletes_unregistered_session() {
    let id = new_session_id(1_700_000_000);
    let keys = [chunk_key("key", id, 0), chunk_key("key", id, 1)];
    let swept = sweep(&keys, &OrdSet::new());
    assert_eq!(swept.sessions, vec![Some(id)], "one session, whatever it left");
    assert_eq!(swept.keys, keys);
}

#[test]
fn session_ids_sort_by_age() {
    let (older, newer) = (new_session_id(10), new_session_id(11));
    assert!(older < newer);
    assert_eq!(older >> 64, 10);
    assert_eq!(newer >> 64, 11);
}
