//! Whole pushes, from the pack to what reads back, over stores in memory.

use std::collections::HashMap;
use std::io::Write;

use enroute_git::ingest::append::assemble::ranked;
use enroute_git::ingest::append::attempt::{append_once, Answers, Starts};
use enroute_git::ingest::append::commits::{
    commit_identities, commit_questions, take_commits, to_insert, to_number,
};
use enroute_git::ingest::append::model::{NewCommit, NewObject};
use enroute_git::ingest::append::objects::{
    held_objects as objects_with_numbers, insertable, missing, object_questions, relevant,
    take_found, taking, wanted_objects,
};
use enroute_git::ingest::cache::ByteCache;
use enroute_git::ingest::chains::{bound_chains, known_objects, older_bases, MAX_BLOB_CHAIN};
use enroute_git::ingest::classify::{
    bases_without_home, classify, homes, older_homes, queries, wire_deltas,
};
use enroute_git::ingest::connectivity::{all_recorded, sort_connectivity, walk as reach};
use enroute_git::ingest::content::Content;
use enroute_git::ingest::graph::{commit_parents, Change, ObjectRefs, TreeChild, TreeDiff};
use enroute_git::ingest::identities::{answered, wanted as identities_wanted, KnownIdentities};
use enroute_git::ingest::pack::{read_span, WirePack, WirePacks};
use enroute_git::ingest::plan::DeltaPlan;
use enroute_git::ingest::rebuild::{apply_chain, walk, End, Root};
use enroute_git::ingest::ref_updates::{
    resolve_ref_updates, to_apply, to_check, PushRejection, RefUpdateOutcome,
};
use enroute_git::ingest::resolve::{identify, named_bases};
use enroute_git::ingest::rounds::{
    boundary, children, diff_round, planned, read_trees, root_trees_of, start,
};
use enroute_git::ingest::scan::PackScan;
use enroute_git::ingest::schedule::Schedule;
use enroute_git::ingest::session::{conclude, screen};
use enroute_git::ingest::staging::buffer::StagingBuffer;
use enroute_git::ingest::staging::encodings::{StagedEncodings, StagedItem};
use enroute_git::ingest::upload::choice::{choose_entries, planned_commits, preexisting, Sources};
use enroute_git::ingest::upload::layout::{
    header_for, plan_images, split_segments, Framed, FramedCommit, HeaderFields, PlannedEntry,
};
use enroute_git::ingest::upload::promote::{
    bases_of as image_bases, build_new_commits, connected_parents, fold_images, staged_tags,
    tag_object,
};
use enroute_git::ingest::upload::pump::{
    check_forwarded_sha, collect_segments, prefetch_payload, pump_entry, Fetch, ForwardedHeader,
    Outcome, TrailerEntry, Written,
};
use enroute_git::ingest::upload::segment::{SegmentRun, Todo};
use enroute_git::ingest::upload::SEGMENT_TARGET_BYTES;
use enroute_git::ingest::wants::{encode_pair, encode_whole, foreign_deltas, wanted};
use enroute_git::metadata::memory::{Memory, RepoMetadata};
use enroute_git::metadata::refs::{RefUpdate, RefUpdateRejection};
use enroute_git::metadata::rows::StorageKey;
use enroute_git::metadata::store::seqs_of;
use enroute_git::model::{CommitPackLocation, ObjectMeta, PackImageLocation};
use enroute_git::object::{Kind, ObjectId};
use enroute_git::objects::index::ObjectIndex;
use enroute_git::objects::location::Ulid;
use enroute_git::objects::read::{assemble, bases_of, first_packs, held_on, packs_of, Read};
use enroute_git::objects::store::{as_i64, from_i64, held_objects, Held, Shelf};
use enroute_git::objects::walk::{chain_depth, ChainWalk};
use enroute_git::objects::write::{record, relocate, Relocated};
use enroute_git::ordmap::{OrdMap, OrdSet};
use enroute_git::packfile::delta::apply::apply_delta;
use enroute_git::packfile::delta::encode::encode_delta;
use enroute_git::packfile::format::inflate_entry;
use enroute_git::packfile::varint::write_varint;
use enroute_git::packfile::writer::{write_pack_entry, write_pack_header, write_ref_delta_header};
use sha1::Digest;

const IMAGE_HEADER: u64 = 12;
const NOW: i64 = 1_700_000_000_000_000;

#[derive(Clone)]
struct Object {
    oid: ObjectId,
    kind: Kind,
    bytes: Vec<u8>,
}

fn sha1_of(bytes: &[u8]) -> Vec<u8> {
    let mut hasher = sha1::Sha1::default();
    hasher.update(bytes);
    hasher.finalize().to_vec()
}

fn object(kind: Kind, bytes: Vec<u8>) -> Object {
    let name = match kind {
        Kind::Commit => "commit",
        Kind::Tree => "tree",
        Kind::Blob => "blob",
        Kind::Tag => "tag",
    };
    let mut loose = format!("{name} {}\0", bytes.len()).into_bytes();
    loose.extend_from_slice(&bytes);
    Object { oid: ObjectId::from_bytes(&sha1_of(&loose)), kind, bytes }
}

fn hex(oid: ObjectId) -> String {
    oid.to_bytes().iter().map(|byte| format!("{byte:02x}")).collect()
}

fn unhex(text: &str) -> ObjectId {
    let bytes: Vec<u8> =
        (0..20).map(|i| u8::from_str_radix(&text[2 * i..2 * i + 2], 16).unwrap()).collect();
    ObjectId::from_bytes(&bytes)
}

fn blob(content: &[u8]) -> Object {
    object(Kind::Blob, content.to_vec())
}

fn tree_of(entries: &[(&str, &str, ObjectId)]) -> Object {
    let mut bytes = Vec::new();
    for (mode, name, oid) in entries {
        bytes.extend_from_slice(format!("{mode} {name}\0").as_bytes());
        bytes.extend_from_slice(&oid.to_bytes());
    }
    object(Kind::Tree, bytes)
}

fn tree_with_blob(name: &str, blob: ObjectId) -> Object {
    tree_of(&[("100644", name, blob)])
}

fn commit(tree: ObjectId, parent: Option<ObjectId>) -> Object {
    let mut text = format!("tree {}\n", hex(tree));
    if let Some(parent) = parent {
        text.push_str(&format!("parent {}\n", hex(parent)));
    }
    text.push_str("author A <a@b> 0 +0000\ncommitter A <a@b> 0 +0000\n\nmessage\n");
    object(Kind::Commit, text.into_bytes())
}

fn annotated_tag(target: ObjectId, name: &str) -> Object {
    let text = format!("object {}\ntype commit\ntag {name}\n\nmessage\n", hex(target));
    object(Kind::Tag, text.into_bytes())
}

/// What an object names.
fn refs(kind: Kind, bytes: &[u8]) -> ObjectRefs {
    match kind {
        Kind::Blob => ObjectRefs::Blob,
        Kind::Tag => ObjectRefs::Tag(unhex(std::str::from_utf8(&bytes[7..47]).unwrap())),
        Kind::Commit => {
            let text = std::str::from_utf8(bytes).unwrap();
            let field = |name: &str| -> Vec<ObjectId> {
                text.lines().filter_map(|line| line.strip_prefix(name)).map(unhex).collect()
            };
            ObjectRefs::Commit {
                root_tree: field("tree ")[0],
                parents: field("parent "),
                committer_date: 0,
            }
        }
        Kind::Tree => {
            let mut children = Vec::new();
            let mut rest = bytes;
            while !rest.is_empty() {
                let space = rest.iter().position(|byte| *byte == b' ').unwrap();
                let end = rest.iter().position(|byte| *byte == 0).unwrap();
                children.push(TreeChild {
                    oid: ObjectId::from_bytes(&rest[end + 1..end + 21]),
                    is_tree: &rest[..space] == b"40000",
                    is_commit: &rest[..space] == b"160000",
                    name: rest[space + 1..end].to_vec(),
                });
                rest = &rest[end + 21..];
            }
            ObjectRefs::Tree(children)
        }
    }
}

fn zlib(data: &[u8]) -> Vec<u8> {
    let mut enc = flate2::write::ZlibEncoder::new(Vec::new(), flate2::Compression::fast());
    enc.write_all(data).unwrap();
    enc.finish().unwrap()
}

/// One entry of a client's pack.
enum Sent {
    Whole(Object),
    Delta(ObjectId, Vec<u8>),
}

fn whole(object: &Object) -> Sent {
    Sent::Whole(object.clone())
}

fn delta(object: &Object, base: &Object) -> Sent {
    Sent::Delta(base.oid, encode_delta(&base.bytes, &object.bytes).unwrap())
}

/// A delta that copies nothing.
fn all_literal_delta(base: &[u8], target: &[u8]) -> Vec<u8> {
    let mut delta = Vec::new();
    write_varint(&mut delta, base.len() as u64);
    write_varint(&mut delta, target.len() as u64);
    for piece in target.chunks(127) {
        delta.push(u8::try_from(piece.len()).unwrap());
        delta.extend_from_slice(piece);
    }
    delta
}

fn pack_of(entries: &[Sent]) -> Vec<u8> {
    let mut pack = Vec::new();
    write_pack_header(u32::try_from(entries.len()).unwrap(), &mut pack);
    for entry in entries {
        match entry {
            Sent::Whole(object) => {
                write_pack_entry(object.kind, &object.bytes, &mut pack).unwrap();
            }
            Sent::Delta(base, delta) => {
                write_ref_delta_header(*base, delta.len() as u64, &mut pack).unwrap();
                pack.extend_from_slice(&zlib(delta));
            }
        }
    }
    let trailer = sha1_of(&pack);
    pack.extend_from_slice(&trailer);
    pack
}

/// How an entry of an image begins: its id, what it deltas against, and what it
/// inflates to.
fn entry_header(fields: &HeaderFields) -> Vec<u8> {
    let mut header = fields.oid.to_bytes();
    header.extend_from_slice(&fields.base.unwrap_or(ObjectId::null()).to_bytes());
    header.extend_from_slice(&fields.length.to_be_bytes());
    header
}

/// A stored entry.
#[derive(Debug)]
struct Stored {
    sha: ObjectId,
    base: Option<ObjectId>,
    length: u64,
    body: Vec<u8>,
}

fn stored(entry: &[u8]) -> Stored {
    let base = ObjectId::from_bytes(&entry[20..40]);
    Stored {
        sha: ObjectId::from_bytes(&entry[..20]),
        base: Some(base).filter(|base| *base != ObjectId::null()),
        length: u64::from_be_bytes(entry[40..48].try_into().unwrap()),
        body: entry[48..].to_vec(),
    }
}

type Push = OrdMap<ObjectId, ObjectRefs>;
type Fetched = OrdMap<ObjectId, Option<Vec<TreeChild>>>;

fn push_of(objects: &[Object]) -> Push {
    let mut push = OrdMap::new();
    for one in objects {
        push.insert(one.oid, refs(one.kind, &one.bytes));
    }
    push
}

fn ids(oids: &[ObjectId]) -> OrdSet<ObjectId> {
    let mut set = OrdSet::new();
    for oid in oids {
        set.insert(*oid);
    }
    set
}

/// Parents first.
fn topo(parents: &OrdMap<ObjectId, Vec<ObjectId>>) -> Vec<ObjectId> {
    let mut order: Vec<ObjectId> = Vec::new();
    while order.len() < parents.len() {
        for (oid, named) in parents.as_entries() {
            let ready = named.iter().all(|one| !parents.contains_key(one) || order.contains(one));
            if ready && !order.contains(oid) {
                order.push(*oid);
            }
        }
    }
    order
}

/// What differs between two trees, as far as they can be read.
fn compare(
    push: &Push,
    fetched: &Fetched,
    base: Option<ObjectId>,
    new: ObjectId,
    path: &[u8],
    found: &mut TreeDiff,
) {
    if base == Some(new) {
        return;
    }
    let before: &[TreeChild] = match base {
        None => &[],
        Some(base) => match children(push, fetched, base) {
            Some(entries) => entries,
            None => {
                found.unreadable.push(base);
                return;
            }
        },
    };
    let Some(entries) = children(push, fetched, new) else {
        found.unreadable.push(new);
        return;
    };
    for child in entries {
        let old = before.iter().find(|one| one.name == child.name && one.is_tree == child.is_tree);
        if old.is_some_and(|old| old.oid == child.oid) || child.is_commit {
            continue;
        }
        let mut at = path.to_vec();
        at.push(b'/');
        at.extend_from_slice(&child.name);
        let kind = if child.is_tree { Kind::Tree } else { Kind::Blob };
        let old = old.map(|old| old.oid);
        found.changes.push(Change { path: at.clone(), kind, old, new: child.oid });
        if child.is_tree {
            compare(push, fetched, old, child.oid, &at, found);
        }
    }
}

/// What is staged for a push: the index, and the chunks it points into.
struct Staged {
    index: OrdMap<ObjectId, StagedEncodings>,
    chunks: HashMap<u32, Vec<u8>>,
}

/// Stage encodings, one behind the other.
fn staged(items: Vec<(StagedItem, Vec<u8>)>) -> Staged {
    let mut buffer = StagingBuffer::new();
    let mut chunks = HashMap::new();
    for (item, bytes) in items {
        if let Some(chunk) = buffer.push_compressed(item, &zlib(&bytes)) {
            chunks.insert(chunk.chunk_id, chunk.data);
        }
    }
    if let Some(chunk) = buffer.flush() {
        chunks.insert(chunk.chunk_id, chunk.data);
    }
    Staged { index: buffer.into_index(), chunks }
}

/// Stage objects as they are.
fn stage(objects: &[Object]) -> Staged {
    staged(
        objects
            .iter()
            .map(|one| {
                let item = StagedItem {
                    sha: one.oid,
                    kind: one.kind,
                    base: None,
                    decompressed_len: one.bytes.len(),
                };
                (item, one.bytes.clone())
            })
            .collect(),
    )
}

/// A repository: rows, an object index, a commit graph, and segments.
struct Repo {
    rows: Memory,
    meta: RepoMetadata,
    trees: ObjectIndex,
    blobs: ObjectIndex,
    commits: OrdMap<ObjectId, NewCommit>,
    trailers: OrdMap<ObjectId, Vec<TrailerEntry>>,
    segments: HashMap<u128, Vec<u8>>,
    tags: OrdMap<ObjectId, Vec<u8>>,
}

/// What an ingested pack comes to.
struct Taken {
    push: Push,
    wire: WirePacks,
    plan: DeltaPlan,
    staged: Staged,
}

impl Repo {
    fn new() -> Repo {
        let mut rows = Memory::new();
        let meta = rows.create(None, StorageKey(1));
        Repo {
            rows,
            meta,
            trees: ObjectIndex::new(),
            blobs: ObjectIndex::new(),
            commits: OrdMap::new(),
            trailers: OrdMap::new(),
            segments: HashMap::new(),
            tags: OrdMap::new(),
        }
    }

    /// A copy of an index, through its bytes.
    fn index(&self, shelf: Shelf) -> ObjectIndex {
        let index = match shelf {
            Shelf::Trees => &self.trees,
            Shelf::Blobs => &self.blobs,
        };
        if index.is_empty() {
            return ObjectIndex::new();
        }
        ObjectIndex::decode(&index.encoded()).unwrap()
    }

    fn held(&self, oids: &[ObjectId]) -> Vec<(ObjectId, Held)> {
        held_objects(self.rows.identify(self.meta.id, oids).as_entries()).unwrap()
    }

    fn read_shelf(&self, named: &[(ObjectId, Held)], shelf: Shelf) -> Option<Read> {
        let wanted = held_on(named, shelf);
        let index = self.index(shelf);
        let bases = as_i64(&bases_of(&index, &wanted)).unwrap();
        let rows = self.rows.oids_of(self.meta.id, shelf.kind(), &bases);
        let mut base_oids = OrdMap::new();
        for (seq, oid) in from_i64(rows.as_entries()).unwrap() {
            base_oids.insert(seq, oid);
        }
        Some(Read { index, base_oids })
    }

    fn commit_meta(&self, oid: ObjectId) -> Option<ObjectMeta> {
        let commit = self.commits.get(&oid)?;
        Some(ObjectMeta {
            kind: Kind::Commit,
            location: Some(CommitPackLocation {
                image: PackImageLocation {
                    pack_sha: oid,
                    offset: IMAGE_HEADER,
                    entry_len: commit.entry_len,
                    base: None,
                },
                segment: commit.segment,
            }),
            object_seq: None,
        })
    }

    /// What is recorded of objects and commits.
    fn metas(&self, oids: &[ObjectId]) -> OrdMap<ObjectId, ObjectMeta> {
        let named = self.held(oids);
        let trees = self.read_shelf(&named, Shelf::Trees);
        let blobs = self.read_shelf(&named, Shelf::Blobs);
        let mut metas = OrdMap::new();
        for (oid, meta) in assemble(&named, &trees, &blobs) {
            metas.insert(oid, meta);
        }
        for oid in oids {
            if let Some(meta) = self.commit_meta(*oid) {
                metas.insert(*oid, meta);
            }
        }
        metas
    }

    fn meta(&self, oid: ObjectId) -> Option<ObjectMeta> {
        self.metas(&[oid]).remove(&oid)
    }

    fn chain(&self, oid: ObjectId) -> Vec<CommitPackLocation> {
        let Some((_, held)) = self.held(&[oid]).pop() else {
            return Vec::new();
        };
        let Some(shelf) = held.shelf() else {
            return Vec::new();
        };
        let mut walk = ChainWalk::new(held.seq, MAX_BLOB_CHAIN);
        let index = self.index(shelf);
        while walk.walk(&index).is_some() {}
        walk.locations()
    }

    fn packs_of(&self, oid: ObjectId) -> Vec<ObjectId> {
        let (_, held) = self.held(&[oid]).pop().expect("a numbered object");
        packs_of(&self.index(held.shelf().expect("a tree or a blob")), held.seq)
    }

    fn slice(&self, segment: Ulid, start: u64, len: u64) -> &[u8] {
        let start = usize::try_from(start).unwrap();
        &self.segments[&segment.0][start..start + usize::try_from(len).unwrap()]
    }

    fn stored_at(&self, place: &CommitPackLocation) -> Stored {
        let start = place.segment.base_offset + place.image.offset;
        stored(self.slice(place.segment.id, start, place.image.entry_len))
    }

    /// The stored entry that the index gives for an object.
    fn stored_header(&self, oid: ObjectId) -> Stored {
        let meta = self.meta(oid).expect("an indexed object");
        self.stored_at(&meta.location.expect("an indexed object has a location"))
    }

    /// Every entry of a commit's pack.
    fn pack_entries(&self, pack: ObjectId) -> Vec<Stored> {
        let segment = self.commits.get(&pack).expect("a recorded commit").segment;
        let trailer = self.trailers.get(&pack).expect("its trailer");
        trailer
            .iter()
            .map(|entry| {
                let start = segment.base_offset + entry.offset;
                stored(self.slice(segment.id, start, entry.entry_len))
            })
            .collect()
    }

    /// An object as it reads back.
    fn object(&self, oid: ObjectId) -> Option<(Kind, Vec<u8>)> {
        if let Some(tag) = self.tags.get(&oid) {
            return Some((Kind::Tag, tag.clone()));
        }
        let meta = self.meta(oid)?;
        let mut places = self.chain(oid);
        if meta.kind == Kind::Commit {
            places = vec![meta.location?];
        }
        let mut content: Option<Vec<u8>> = None;
        while let Some(place) = places.pop() {
            let entry = self.stored_at(&place);
            let inflated = inflate_entry(&entry.body, entry.length).unwrap();
            content = Some(match content {
                None => inflated,
                Some(base) => apply_delta(&base, &inflated).unwrap(),
            });
        }
        Some((meta.kind, content?))
    }

    fn content(&self, oid: ObjectId) -> Vec<u8> {
        self.object(oid).expect("a stored object").1
    }

    fn reads_back(&self, one: &Object) {
        assert_eq!(self.object(one.oid), Some((one.kind, one.bytes.clone())));
    }

    /// What each commit's pack stores.
    fn plan_of(&self, push: &Push) -> DeltaPlan {
        let parsed: Vec<(ObjectId, ObjectRefs)> = boundary(push)
            .into_iter()
            .map(|oid| (oid, refs(Kind::Commit, &self.content(oid))))
            .collect();
        let mut pending = start(push, &root_trees_of(&parsed).unwrap());
        let mut fetched: Fetched = OrdMap::new();
        loop {
            let diffs: Vec<Option<TreeDiff>> = pending
                .iter()
                .map(|one| {
                    let mut found = TreeDiff { changes: Vec::new(), unreadable: Vec::new() };
                    compare(push, &fetched, one.base_root, one.root_tree, b"", &mut found);
                    Some(found).filter(|_| !one.settled())
                })
                .collect();
            let round = diff_round(&mut pending, &diffs, &fetched).unwrap();
            if round.is_empty() {
                return planned(pending);
            }
            let contents = round
                .iter()
                .filter_map(|oid| self.object(*oid).map(|(kind, tree)| (*oid, refs(kind, &tree))))
                .collect();
            let mut read = read_trees(&round, contents).unwrap();
            while let Some((oid, entries)) = read.pop() {
                fetched.insert(oid, entries);
            }
        }
    }

    fn is_ancestor(
        &self,
        older: ObjectId,
        newer: ObjectId,
        parents: &OrdMap<ObjectId, Vec<ObjectId>>,
    ) -> bool {
        older == newer
            || match (parents.get(&newer), self.commits.get(&newer)) {
                (Some(named), _) => named.iter().any(|one| self.is_ancestor(older, *one, parents)),
                (None, Some(commit)) => {
                    commit.parents.iter().any(|one| self.is_ancestor(older, *one, parents))
                }
                (None, None) => false,
            }
    }

    /// Keep what the client sent where it can be read, and cut what is too long.
    fn settle(&self, plan: &mut DeltaPlan, wire: &WirePacks, push: &Push) {
        let parents = commit_parents(push);
        let at_home = homes(&plan.packs);
        let deltas = wire_deltas(wire, &plan.packs).unwrap();
        let older = older_homes(&self.metas(&bases_without_home(&deltas, &at_home)));
        let mut proven = OrdSet::new();
        for query in queries(&deltas, &at_home, &older) {
            if self.is_ancestor(query.home, query.target, &parents) {
                proven.insert(query);
            }
        }
        classify(plan, wire, &parents, &at_home, &older, &proven).unwrap();

        let older = older_bases(&plan.packs);
        let mut depths = OrdMap::new();
        for oid in &older {
            if let Some(depth) = chain_depth(self.chain(*oid).len()) {
                depths.insert(*oid, depth);
            }
        }
        let named = self.held(&known_objects(&plan.packs, &older));
        let stored_at = first_packs(&named, &self.trees, &self.blobs);
        bound_chains(&mut plan.packs, &topo(&parents), &depths, &stored_at);
    }

    /// An object's content, out of the push or out of the store.
    fn content_of(&self, oid: ObjectId, wire: &WirePacks) -> Vec<u8> {
        let Some(at) = wire.entry_of(oid) else {
            return self.content(oid);
        };
        let mut cache = ByteCache::new();
        let (chain, end) = walk(wire, at, &mut cache).unwrap();
        let root = match end {
            End::Root(root) => root,
            End::Repo(oid) => Root::Content(Content::new(self.content(oid))),
        };
        apply_chain(root, chain).unwrap().target.as_slice().to_vec()
    }

    /// Take a pack in, up to what is staged for it.
    fn ingest(&self, pack: &[u8]) -> Taken {
        let mut scan = PackScan::new(None);
        scan.feed(pack);
        scan.finish();
        assert_eq!(scan.run(), Ok(true));
        let (entries, raw) = scan.into_parts();

        let mut bases = OrdMap::new();
        for oid in named_bases(&entries) {
            if let Some((kind, content)) = self.object(oid) {
                bases.insert(oid, (kind, Content::new(content)));
            }
        }
        let mut push = OrdMap::new();
        let mut schedule = Schedule::new(entries.clone(), &bases);
        while let Some((pending, cost)) = schedule.next() {
            let entry = entries[pending.at];
            let bytes = read_span(&raw, entry.entry).unwrap();
            let content = identify(bytes, &entry, &pending.base).unwrap();
            let one = object(pending.base.kind, content);
            push.insert(one.oid, refs(one.kind, &one.bytes));
            schedule.record(pending.at, cost, one.oid, one.kind, &Content::new(one.bytes));
        }
        let oids = schedule.finish().unwrap();
        let mut wire = WirePacks::new();
        wire.adopt(WirePack::new(raw, entries, oids).unwrap());

        let mut plan = self.plan_of(&push);
        self.settle(&mut plan, &wire, &push);
        let (mut list, foreign) = wanted(&plan, &push);
        list.put_whole(&foreign_deltas(&self.metas(&foreign)));
        let items = list
            .into_vec()
            .into_iter()
            .map(|want| {
                let target = self.content_of(want.oid, &wire);
                let payload = match want.base {
                    Some(base) => {
                        encode_pair(want, &target, &self.content_of(base, &wire)).unwrap()
                    }
                    None => encode_whole(want, &target),
                };
                let item = StagedItem {
                    sha: payload.oid,
                    kind: payload.kind,
                    base: payload.base,
                    decompressed_len: payload.bytes.len(),
                };
                (item, payload.bytes)
            })
            .collect();
        Taken { push, wire, plan, staged: staged(items) }
    }
}

impl Repo {
    /// One entry's bytes as a segment takes them, and how long its object is.
    fn entry_bytes(
        &self,
        entry: &PlannedEntry,
        wire: &WirePacks,
        chunks: &HashMap<u32, Vec<u8>>,
    ) -> (Vec<u8>, u64) {
        let payload = match prefetch_payload(entry.body) {
            Fetch::Resident | Fetch::Inline => None,
            Fetch::Chunk { chunk_id, from, to } => Some(chunks[&chunk_id][from..to].to_vec()),
            Fetch::Slice { segment, start, len } => Some(self.slice(segment, start, len).to_vec()),
        };
        let pump = pump_entry(entry.body, payload.is_some());
        let mut bytes = Vec::new();
        if pump.with_header {
            bytes.extend_from_slice(&entry.header);
        }
        match pump.written {
            Written::Wire(at) => bytes.extend_from_slice(wire.body(at).unwrap()),
            Written::Payload => bytes.extend_from_slice(&payload.expect("read ahead")),
            Written::ChunkStream { chunk_id, from, to } => {
                bytes.extend_from_slice(&chunks[&chunk_id][from..to]);
            }
            Written::SegmentStream { segment, start, len } => {
                bytes.extend_from_slice(self.slice(segment, start, len));
            }
        }
        let length = pump.length.unwrap_or_else(|| {
            let passed = stored(&bytes);
            let header = ForwardedHeader { sha: passed.sha, length: passed.length };
            check_forwarded_sha(entry.oid, header).unwrap();
            header.length
        });
        (bytes, length)
    }

    /// Write one segment, each entry where it was laid.
    fn write_segment(
        &self,
        mut run: SegmentRun,
        wire: &WirePacks,
        chunks: &HashMap<u32, Vec<u8>>,
    ) -> (Vec<u8>, SegmentRun) {
        let mut bytes: Vec<u8> = Vec::new();
        let mut image = 0usize;
        loop {
            match run.next(false) {
                Todo::StandDown => panic!("nothing failed"),
                Todo::Header(entries) => {
                    image = bytes.len();
                    bytes.extend_from_slice(&[0; IMAGE_HEADER as usize - 4]);
                    bytes.extend_from_slice(&entries.to_be_bytes());
                    run.begin();
                }
                Todo::Entry => {
                    assert_eq!((bytes.len() - image) as u64, run.entry().offset);
                    let (entry, length) = self.entry_bytes(run.entry(), wire, chunks);
                    assert_eq!(entry.len() as u64, run.entry().entry_len);
                    bytes.extend_from_slice(&entry);
                    run.advance(length);
                }
                Todo::Trailer => {
                    let blobs = run.trailer().iter().find(|entry| entry.kind == Kind::Blob);
                    let blob_offset = blobs.map_or((bytes.len() - image) as u64, |one| one.offset);
                    bytes.extend(run.trailer().iter().map(|_| 0u8));
                    run.close(blob_offset);
                }
                Todo::Finish => return (bytes, run),
            }
        }
    }

    /// Store a push's images and tags, and record them.
    fn promote(
        &mut self,
        push: &Push,
        connected: &OrdSet<ObjectId>,
        staged: &Staged,
        plan: &DeltaPlan,
        wire: &WirePacks,
    ) -> usize {
        let wanted = identities_wanted(push);
        let asked: Vec<ObjectId> = wanted.as_entries().iter().map(|(oid, _)| *oid).collect();
        let known = answered(wanted, &self.rows.identify(self.meta.id, &asked));

        let order = topo(&connected_parents(push, connected));
        let commits = planned_commits(&order, plan);
        let prefetched = self.metas(&preexisting(&commits, &staged.index));
        let sources = Sources { wire, chunk_index: &staged.index, prefetched: &prefetched };
        let framed: Vec<FramedCommit> = commits
            .iter()
            .map(|commit| {
                let chosen = choose_entries(commit, &sources).unwrap();
                FramedCommit {
                    commit_oid: commit.commit_oid,
                    trailer_len: chosen.len() as u64,
                    entries: chosen
                        .into_iter()
                        .map(|chosen| Framed {
                            chosen,
                            header: header_for(chosen).map_or(Vec::new(), |one| entry_header(&one)),
                        })
                        .collect(),
                }
            })
            .collect();
        let images = plan_images(framed, IMAGE_HEADER, SEGMENT_TARGET_BYTES).unwrap();
        let bases = image_bases(&images);
        let runs = split_segments(images);
        let count = runs.len();
        let mut outcomes: Vec<Outcome<_, ()>> = Vec::new();
        for (index, run) in runs.into_iter().enumerate() {
            let id = Ulid(self.segments.len() as u128 + 1);
            let (bytes, run) = self.write_segment(SegmentRun::new(run, id), wire, &staged.chunks);
            self.segments.insert(id.0, bytes);
            outcomes.push(Outcome::Landed(index, run.finish()));
        }
        let promoted = collect_segments(outcomes, count).unwrap();
        let (stored_commits, mut objects) = fold_images(&promoted, &bases, push).unwrap();
        let mut new_objects = Vec::new();
        while let Some((_, one)) = objects.pop() {
            new_objects.push(one);
        }
        for (oid, place) in staged_tags(push, &staged.index) {
            let chunk = &staged.chunks[&place.chunk_id];
            let bytes = &chunk[place.offset..place.offset + place.compressed_len];
            let tag = inflate_entry(bytes, place.decompressed_len as u64).unwrap();
            self.tags.insert(oid, tag);
            new_objects.push(tag_object(oid));
        }
        let new_commits = build_new_commits(push, connected, &stored_commits).unwrap();
        let recorded = self.append(new_commits, &new_objects, &known);
        for image in promoted {
            if recorded.contains(&image.commit_oid) {
                self.trailers.insert(image.commit_oid, image.trailer);
            }
        }
        count
    }

    fn allocate(&mut self, kind: Kind, taken: &[ObjectId]) -> i64 {
        if taken.is_empty() {
            return 0;
        }
        self.rows.allocate(self.meta.id, kind, taken.len() as u64).unwrap()
    }

    /// Record commits and objects, and say which commits were new.
    fn append(
        &mut self,
        mut new_commits: OrdMap<ObjectId, NewCommit>,
        new_objects: &[NewObject],
        known: &KnownIdentities,
    ) -> Vec<ObjectId> {
        let id = self.meta.id;
        let mut parents = OrdMap::new();
        for (oid, commit) in new_commits.as_entries() {
            parents.insert(*oid, commit.parents.clone());
        }
        let order = topo(&parents);
        let questions = commit_questions(&order, &new_commits, known);
        let commit_seqs = seqs_of(&self.rows.identify(id, &questions.asking), Kind::Commit);
        let mut seq_of = questions.seq_of;
        take_commits(&mut seq_of, &commit_seqs);
        let mut commit_metas = OrdMap::new();
        for (oid, _) in commit_identities(&seq_of) {
            if let Some(meta) = self.commit_meta(oid) {
                commit_metas.insert(oid, meta);
            }
        }
        let recording = to_insert(&order, &commit_metas);
        let commit_start = self.allocate(Kind::Commit, &to_number(&recording, &seq_of));

        let work = relevant(new_objects, &recording);
        let wanted = wanted_objects(new_objects, &work, &recording, &new_commits);
        let questions = object_questions(&wanted, known, &insertable(new_objects, &work));
        let identities = self.rows.identify(id, &questions.unknown);
        let mut seq_of = questions.seq_of;
        take_found(&mut seq_of, &identities);
        let numbered = objects_with_numbers(new_objects, &work, &seq_of);
        let metas = self.metas(&numbered.iter().map(|(oid, _)| *oid).collect::<Vec<_>>());
        let absent = missing(new_objects, &work, &seq_of);
        let starts = Starts {
            trees: self.allocate(Kind::Tree, &taking(&absent, Kind::Tree)),
            blobs: self.allocate(Kind::Blob, &taking(&absent, Kind::Blob)),
            tags: self.allocate(Kind::Tag, &taking(&absent, Kind::Tag)),
        };
        let answers =
            Answers { commit_seqs, commit_metas, commit_start, identities, metas, starts };
        let assembly = append_once(&order, &new_commits, new_objects, known, &answers).unwrap();
        let (mine, _) = ranked(&assembly.commits);
        assert_eq!(mine.len(), recording.len());

        self.rows.record(id, &assembly.named).unwrap();
        self.rows.register_segments(id, &assembly.segments);
        let added: Vec<Relocated> = assembly
            .added_packs
            .iter()
            .map(|(seq, kind, location)| Relocated { seq: *seq, kind: *kind, location: *location })
            .collect();
        for (shelf, index) in
            [(Shelf::Trees, &mut self.trees), (Shelf::Blobs, &mut self.blobs)]
        {
            if let Some(part) = record(&assembly.fresh_objects, shelf) {
                index.join(part);
            }
            if let Some(part) = relocate(&added, shelf) {
                index.join(part);
            }
        }
        for commit in &assembly.commits {
            let new = new_commits.remove(&commit.oid).expect("a commit of the push");
            self.commits.insert(commit.oid, new);
        }
        recording
    }

    /// Take a pack in and move refs, as a push does.
    fn push(&mut self, entries: &[Sent], updates: &[RefUpdate]) -> Vec<RefUpdateOutcome> {
        let Taken { push, wire, plan, staged } = self.ingest(&pack_of(entries));
        let null = ObjectId::null();
        let existing = self.rows.refs_for(&self.meta);
        let funny = vec![false; updates.len()];
        let screened = screen(updates, &existing, &funny, &push, null);
        let checked = to_check(updates, &screened.names, null);
        let results: Vec<(bool, OrdSet<ObjectId>)> = checked
            .iter()
            .map(|at| {
                let reached = reach(updates[*at].new_id, &push);
                let found = self.metas(&reached.store_checks);
                (all_recorded(&reached.store_checks, &found), reached.visited)
            })
            .collect();
        let (connected, failures) = sort_connectivity(updates, &checked, &results, &push);
        self.promote(&push, &connected, &staged, &plan, &wire);
        let ingested = conclude(&screened, &failures);
        let applying: Vec<(RefUpdate, bool)> = to_apply(
            updates,
            &ingested.rejected,
            &ingested.screened,
        )
        .into_iter()
        .map(|at| (update(&updates[at].refname, updates[at].old_id, updates[at].new_id), false))
        .collect();
        let applied = self.rows.update_refs(self.meta.id, &applying, NOW);
        resolve_ref_updates(updates, &ingested.rejected, &ingested.screened, &applied)
    }

    /// A push of which every ref lands.
    fn lands(&mut self, entries: &[Sent], updates: &[RefUpdate]) {
        for outcome in self.push(entries, updates) {
            assert!(outcome.result.is_ok(), "{outcome:?}");
        }
    }

    /// Stage objects and promote them.
    fn upload(&mut self, objects: &[Object]) -> usize {
        let push = push_of(objects);
        let commits: Vec<ObjectId> =
            objects.iter().filter(|one| one.kind == Kind::Commit).map(|one| one.oid).collect();
        let plan = self.plan_of(&push);
        self.promote(&push, &ids(&commits), &stage(objects), &plan, &WirePacks::new())
    }
}

fn update(refname: &str, old_id: ObjectId, new_id: ObjectId) -> RefUpdate {
    RefUpdate { refname: refname.to_string(), old_id, new_id }
}

fn new_main(new_id: ObjectId) -> Vec<RefUpdate> {
    vec![update("refs/heads/main", ObjectId::null(), new_id)]
}

/// A long shared prefix and a tail of its own.
fn versioned(tag: &str) -> Object {
    blob(format!("{}{tag}", "x".repeat(400)).as_bytes())
}

#[test]
fn a_delta_on_a_base_from_an_earlier_push_is_kept() {
    let mut repo = Repo::new();
    let v1 = versioned("1");
    let tree1 = tree_with_blob("f", v1.oid);
    let commit1 = commit(tree1.oid, None);
    repo.lands(&[whole(&v1), whole(&tree1), whole(&commit1)], &new_main(commit1.oid));

    let v2 = versioned("2");
    let tree2 = tree_with_blob("f", v2.oid);
    let commit2 = commit(tree2.oid, Some(commit1.oid));
    repo.lands(
        &[delta(&v2, &v1), whole(&tree2), whole(&commit2)],
        &[update("refs/heads/main", commit1.oid, commit2.oid)],
    );

    assert_eq!(
        repo.stored_header(v2.oid).base,
        Some(v1.oid),
        "a base the earlier push stored is readable from this commit"
    );
    for one in [&v1, &tree1, &commit1, &v2, &tree2, &commit2] {
        repo.reads_back(one);
    }
}

#[test]
fn a_client_delta_on_a_base_from_another_branch_is_not_kept() {
    let mut repo = Repo::new();
    let (v0, v1, v2) = (versioned("0"), versioned("1"), versioned("2"));
    let root_tree = tree_with_blob("f", v0.oid);
    let main_tree = tree_with_blob("f", v1.oid);
    let side_tree = tree_with_blob("g", v2.oid);
    let root_commit = commit(root_tree.oid, None);
    let main_commit = commit(main_tree.oid, Some(root_commit.oid));
    let side_commit = commit(side_tree.oid, Some(root_commit.oid));
    repo.lands(
        &[
            whole(&v0),
            whole(&v1),
            // v1 is introduced on main; the side branch cannot reach it.
            delta(&v2, &v1),
            whole(&root_tree),
            whole(&main_tree),
            whole(&side_tree),
            whole(&root_commit),
            whole(&main_commit),
            whole(&side_commit),
        ],
        &[
            update("refs/heads/main", ObjectId::null(), main_commit.oid),
            update("refs/heads/side", ObjectId::null(), side_commit.oid),
        ],
    );
    assert_ne!(
        repo.stored_header(v2.oid).base,
        Some(v1.oid),
        "a base on the other side of a fork must not be stored"
    );
    assert_eq!(repo.content(v2.oid), v2.bytes);
}

#[test]
fn a_kept_delta_is_the_client_s_own_bytes_and_not_a_re_encoding() {
    let mut repo = Repo::new();
    let (v1, v2) = (versioned("1"), versioned("2"));
    let (tree1, tree2) = (tree_with_blob("f", v1.oid), tree_with_blob("f", v2.oid));
    let commit1 = commit(tree1.oid, None);
    let commit2 = commit(tree2.oid, Some(commit1.oid));
    let wasteful = all_literal_delta(&v1.bytes, &v2.bytes);
    repo.lands(
        &[
            whole(&v1),
            Sent::Delta(v1.oid, wasteful.clone()),
            whole(&tree1),
            whole(&tree2),
            whole(&commit1),
            whole(&commit2),
        ],
        &new_main(commit2.oid),
    );

    let stored = repo.stored_header(v2.oid);
    assert_eq!(stored.base, Some(v1.oid));
    assert_eq!(
        stored.length,
        u64::try_from(wasteful.len()).unwrap(),
        "the stored entry should be the client's own delta stream, byte for byte"
    );
    assert_eq!(stored.body, zlib(&wasteful));
    repo.reads_back(&v2);
}

/// Linear commits, each replacing the version of one path.
fn version_chain(count: u8) -> (Vec<Object>, Vec<Object>, Vec<Object>) {
    let (mut versions, mut trees, mut commits) = (Vec::new(), Vec::new(), Vec::new());
    let mut parent = None;
    for i in 0..count {
        let mut content = vec![b'x'; 500];
        content.push(b'0' + i);
        let version = blob(&content);
        let tree = tree_with_blob("f", version.oid);
        let commit = commit(tree.oid, parent);
        parent = Some(commit.oid);
        versions.push(version);
        trees.push(tree);
        commits.push(commit);
    }
    (versions, trees, commits)
}

/// Every tree and commit of a chain, each sent whole.
fn with_history(entries: &mut Vec<Sent>, trees: &[Object], commits: &[Object]) {
    entries.extend(trees.iter().map(whole));
    entries.extend(commits.iter().map(whole));
}

#[test]
fn a_chain_of_versions_is_stored_as_deltas_and_reads_back_whole() {
    let mut repo = Repo::new();
    let (versions, trees, commits) = version_chain(8);
    let last = versions.len() - 1;
    let mut entries = vec![whole(&versions[0])];
    for at in 1..last {
        entries.push(delta(&versions[at], &versions[at + 1]));
    }
    entries.push(delta(&versions[last], &versions[0]));
    with_history(&mut entries, &trees, &commits);
    repo.lands(&entries, &new_main(commits[last].oid));

    assert_eq!(repo.stored_header(versions[0].oid).base, None);
    for at in 1..last {
        assert_eq!(
            repo.stored_header(versions[at].oid).base,
            Some(versions[at - 1].oid),
            "version {at} should delta against its predecessor"
        );
    }
    assert_eq!(
        repo.stored_header(versions[last].oid).base,
        Some(versions[0].oid),
        "the one client base a reader of this commit can reach is kept"
    );
    for version in &versions {
        repo.reads_back(version);
    }
}

#[test]
fn a_revert_split_across_pushes_stores_the_repeat_whole() {
    let mut repo = Repo::new();
    let (versions, trees, commits) = version_chain(2);
    let (old_blob, new_blob) = (versions[0].oid, versions[1].oid);
    let (c0, c1) = (commits[0].oid, commits[1].oid);
    let mut entries = vec![whole(&versions[0]), delta(&versions[1], &versions[0])];
    with_history(&mut entries, &trees, &commits);
    repo.lands(&entries, &new_main(c1));
    assert_eq!(repo.stored_header(old_blob).base, None);
    assert_eq!(
        repo.stored_header(new_blob).base,
        Some(old_blob),
        "the setup needs Y stored as a delta against X"
    );

    let back = commit(trees[0].oid, Some(c1));
    repo.lands(&[whole(&back)], &[update("refs/heads/main", c1, back.oid)]);

    assert_eq!(repo.packs_of(old_blob), vec![c0, back.oid], "packs holding X");
    assert_eq!(repo.stored_header(new_blob).base, Some(old_blob), "Y's entry in c1's pack");
    let entries = repo.pack_entries(back.oid);
    let old_in_back = entries
        .iter()
        .find(|entry| entry.sha == old_blob)
        .unwrap_or_else(|| panic!("c2's pack holds no entry for X: {entries:?}"));
    assert_eq!(old_in_back.base, None, "X's entry in c2's pack");
    repo.reads_back(&versions[0]);
    repo.reads_back(&versions[1]);
}

#[test]
fn a_pack_including_an_earlier_pushs_delta() {
    let mut repo = Repo::new();
    let (versions, trees, commits) = version_chain(3);
    let tip = commits[2].oid;
    let mut entries = vec![whole(&versions[0])];
    for at in 1..versions.len() {
        entries.push(delta(&versions[at], &versions[at - 1]));
    }
    with_history(&mut entries, &trees, &commits);
    repo.lands(&entries, &new_main(tip));
    let middle = &versions[1];
    assert!(
        repo.stored_header(middle.oid).base.is_some(),
        "the setup needs v1 stored as a delta for this to test anything"
    );

    let tree = tree_with_blob("g", middle.oid);
    let next = commit(tree.oid, Some(tip));
    repo.lands(&[whole(&tree), whole(&next)], &[update("refs/heads/main", tip, next.oid)]);
    repo.reads_back(middle);
    repo.reads_back(&tree);
}

#[test]
fn a_tip_whose_objects_are_missing_does_not_move() {
    let mut repo = Repo::new();
    let absent = tree_with_blob("f", blob(b"never sent").oid);
    let tip = commit(absent.oid, None);
    let outcomes = repo.push(&[whole(&tip)], &new_main(tip.oid));
    assert_eq!(outcomes.len(), 1);
    assert!(matches!(&outcomes[0].result, Err(PushRejection::MissingObjects)));
    assert!(repo.commits.is_empty(), "nothing of it is recorded");
    assert_eq!(repo.rows.refs_for(&repo.meta).len(), 1, "HEAD alone");
}

#[test]
fn finalize_nff_rejected_commit_not_indexed() {
    let mut repo = Repo::new();
    let hello = blob(b"hello");
    let tree1 = tree_with_blob("f", hello.oid);
    let commit1 = commit(tree1.oid, None);
    repo.lands(&[whole(&hello), whole(&tree1), whole(&commit1)], &new_main(commit1.oid));

    let wrong_old = unhex("aaaaaaaaaaaaaaaaaaaaaaaaaaaaaaaaaaaaaaaa");
    let world = blob(b"world");
    let tree2 = tree_with_blob("f", world.oid);
    let commit2 = commit(tree2.oid, None);
    let results = repo.push(
        &[whole(&world), whole(&tree2), whole(&commit2)],
        &[update("refs/heads/main", wrong_old, commit2.oid)],
    );
    assert!(matches!(
        results[0].result,
        Err(PushRejection::RefStore(RefUpdateRejection::NonFastForward))
    ));
    for one in [&world, &tree2, &commit2] {
        assert!(repo.meta(one.oid).is_none(), "{} must not be indexed", hex(one.oid));
    }
    let asked = [(update("refs/heads/main", wrong_old, commit1.oid), false)];
    let answer = repo.rows.update_refs(repo.meta.id, &asked, NOW);
    assert_eq!(
        answer[0].result,
        Err(RefUpdateRejection::NonFastForward),
        "the ref store's own answer is the one that was reported"
    );
}

#[test]
fn upload_empty_is_noop() {
    let mut repo = Repo::new();
    assert_eq!(repo.upload(&[]), 0);
    assert!(repo.commits.is_empty() && repo.trees.is_empty() && repo.blobs.is_empty());
}

#[test]
fn upload_annotated_tag_survives_a_repush() {
    let mut repo = Repo::new();
    let file = blob(b"hello");
    let tree = tree_with_blob("f", file.oid);
    let tip = commit(tree.oid, None);
    let tag = annotated_tag(tip.oid, "v1");
    let objects = [file, tree, tip, tag.clone()];
    repo.upload(&objects);
    repo.reads_back(&tag);
    let first = repo.rows.identify(repo.meta.id, &[tag.oid]);
    let first = *first.get(&tag.oid).expect("tag has a seq");
    repo.upload(&objects);
    assert_eq!(
        repo.rows.identify(repo.meta.id, &[tag.oid]).get(&tag.oid),
        Some(&first),
        "re-pushing the tag must keep its original seq"
    );
}

#[test]
fn upload_single_commit_with_tree_and_blob() {
    let mut repo = Repo::new();
    let file = blob(b"hello");
    let tree = tree_with_blob("f", file.oid);
    let tip = commit(tree.oid, None);
    repo.upload(&[file.clone(), tree.clone(), tip.clone()]);
    for one in [&file, &tree, &tip] {
        repo.reads_back(one);
    }
    let place = repo.meta(tip.oid).expect("commit not indexed").location.unwrap();
    assert_eq!(place.image.pack_sha, tip.oid);
    assert_eq!(place.image.offset, IMAGE_HEADER);
    assert_eq!(repo.pack_entries(tip.oid)[0].sha, tip.oid, "the commit is the first entry");
}

#[test]
fn upload_chain_second_commit_shares_no_objects_with_first() {
    let mut repo = Repo::new();
    let (blob_a, blob_b) = (blob(b"a"), blob(b"b"));
    let (tree_a, tree_b) = (tree_with_blob("f", blob_a.oid), tree_with_blob("f", blob_b.oid));
    let commit_a = commit(tree_a.oid, None);
    let commit_b = commit(tree_b.oid, Some(commit_a.oid));
    let objects = [blob_a, tree_a, commit_a, blob_b, tree_b, commit_b.clone()];
    repo.upload(&objects);
    for one in &objects {
        repo.reads_back(one);
    }
    let place = repo.meta(commit_b.oid).unwrap().location.unwrap();
    assert_eq!(place.image.pack_sha, commit_b.oid);
}

#[test]
fn upload_shared_subtree_claimed_by_first_commit() {
    let mut repo = Repo::new();
    let file = blob(b"shared");
    let tree = tree_with_blob("f", file.oid);
    let commit_a = commit(tree.oid, None);
    let commit_b = commit(tree.oid, Some(commit_a.oid));
    repo.upload(&[file.clone(), tree.clone(), commit_a.clone(), commit_b.clone()]);
    let pack = |oid| repo.meta(oid).unwrap().location.unwrap().image.pack_sha;
    assert_eq!(pack(tree.oid), commit_a.oid);
    assert_eq!(pack(file.oid), commit_a.oid);
    assert_eq!(pack(commit_b.oid), commit_b.oid);
}

/// A repository that holds a file and its tree, in the pack of a commit that is
/// not the first of its history.
fn with_preexisting(file: &Object, tree: &Object) -> (Repo, Object) {
    let mut repo = Repo::new();
    let empty = tree_of(&[]);
    let root = commit(empty.oid, None);
    let earlier = commit(tree.oid, Some(root.oid));
    repo.upload(&[empty, root, file.clone(), tree.clone(), earlier.clone()]);
    (repo, earlier)
}

#[test]
fn preexisting_objects_gain_new_pack_location() {
    let file = blob(b"pre-existing");
    let tree = tree_with_blob("f", file.oid);
    let (mut repo, earlier) = with_preexisting(&file, &tree);
    let other = commit(tree.oid, None);
    repo.upload(&[other.clone()]);

    assert_eq!(
        repo.packs_of(file.oid),
        vec![earlier.oid, other.oid],
        "pre-existing blob must gain an extra-pack entry for the new commit pack"
    );
    assert!(
        repo.packs_of(tree.oid).contains(&other.oid),
        "pre-existing tree must gain an extra-pack entry for the new commit pack"
    );
    repo.reads_back(&file);
    repo.reads_back(&tree);
}

#[test]
fn upload_preexisting_objects_included_in_commit_pack() {
    let file = blob(b"pre-existing");
    let tree = tree_with_blob("f", file.oid);
    let (mut repo, _) = with_preexisting(&file, &tree);
    let other = commit(tree.oid, None);
    repo.upload(&[other.clone()]);

    let stored = repo.pack_entries(other.oid);
    let held: Vec<ObjectId> = stored.iter().map(|entry| entry.sha).collect();
    assert_eq!(held, vec![other.oid, tree.oid, file.oid]);
    assert_eq!(inflate_entry(&stored[1].body, stored[1].length).unwrap(), tree.bytes);
    assert_eq!(inflate_entry(&stored[2].body, stored[2].length).unwrap(), file.bytes);
}

#[test]
fn upload_long_chain_attributes_unchanged_tree_only_to_root() {
    let mut repo = Repo::new();
    let file = blob(b"unchanged");
    let tree = tree_with_blob("f", file.oid);
    let mut objects = vec![file.clone(), tree.clone()];
    let mut commits: Vec<ObjectId> = Vec::new();
    for _ in 0..200 {
        let next = commit(tree.oid, commits.last().copied());
        commits.push(next.oid);
        objects.push(next);
    }
    repo.upload(&objects);
    assert_eq!(
        repo.packs_of(tree.oid),
        vec![commits[0]],
        "tree must be attributed to exactly one pack"
    );
    assert_eq!(repo.packs_of(file.oid), vec![commits[0]]);
    for oid in &commits {
        assert!(repo.commits.contains_key(oid));
    }
}

#[test]
fn upload_unchanged_subtree_two_levels_deep_pruned_across_pushes() {
    let mut repo = Repo::new();
    let leaf = blob(b"unchanged leaf");
    let subtree = tree_with_blob("f", leaf.oid);
    let (y1, y2) = (blob(b"y1"), blob(b"y2"));
    let outer = |y: &Object| tree_of(&[("40000", "a", subtree.oid), ("100644", "b", y.oid)]);
    let (outer1, outer2) = (outer(&y1), outer(&y2));
    let root1 = tree_of(&[("40000", "outer", outer1.oid)]);
    let root2 = tree_of(&[("40000", "outer", outer2.oid)]);
    let commit1 = commit(root1.oid, None);
    let commit2 = commit(root2.oid, Some(commit1.oid));
    repo.upload(&[leaf.clone(), subtree.clone(), y1, outer1, root1, commit1.clone()]);
    repo.upload(&[y2.clone(), outer2.clone(), root2.clone(), commit2.clone()]);

    assert_eq!(repo.packs_of(root2.oid), vec![commit2.oid], "changed root");
    assert_eq!(repo.packs_of(outer2.oid), vec![commit2.oid], "changed outer tree");
    assert_eq!(repo.packs_of(y2.oid), vec![commit2.oid], "changed blob");
    assert_eq!(
        repo.packs_of(subtree.oid),
        vec![commit1.oid],
        "unchanged subtree two levels deep"
    );
    assert_eq!(
        repo.packs_of(leaf.oid),
        vec![commit1.oid],
        "unchanged leaf blob three levels deep"
    );
    for one in [&root2, &outer2, &y2, &subtree, &leaf] {
        repo.reads_back(one);
    }
}

#[test]
fn multi_commit_push_shares_one_segment() {
    let mut repo = Repo::new();
    let (blob_a, blob_b) = (blob(b"a"), blob(b"b"));
    let (tree_a, tree_b) = (tree_with_blob("f", blob_a.oid), tree_with_blob("f", blob_b.oid));
    let commit_a = commit(tree_a.oid, None);
    let commit_b = commit(tree_b.oid, Some(commit_a.oid));
    let (a, b) = (commit_a.oid, commit_b.oid);
    repo.upload(&[blob_a, tree_a, commit_a, blob_b.clone(), tree_b, commit_b]);
    let place = |oid| repo.meta(oid).unwrap().location.unwrap().segment;
    assert_eq!(place(a).id, place(b).id, "one small push, one segment");
    assert_eq!(place(a).base_offset, 0, "first image starts the segment");
    assert!(place(b).base_offset > 0, "second image appended after the first");
    repo.reads_back(&blob_b);
}

#[test]
fn duplicate_push_keeps_first_location() {
    let mut repo = Repo::new();
    let file = blob(b"dup");
    let tree = tree_with_blob("f", file.oid);
    let tip = commit(tree.oid, None);
    let objects = [file.clone(), tree.clone(), tip.clone()];
    repo.upload(&objects);
    let first = [repo.meta(tip.oid), repo.meta(tree.oid), repo.meta(file.oid)];
    repo.upload(&objects);
    let second = [repo.meta(tip.oid), repo.meta(tree.oid), repo.meta(file.oid)];
    assert_eq!(second, first, "first location wins: never repoint");
    assert_eq!(repo.packs_of(file.oid), vec![tip.oid]);
}

#[test]
fn large_preexisting_entry_streams_verbatim_into_new_segment() {
    let mut seed: u8 = 1;
    let mut word: u32 = 1;
    let content: Vec<u8> = (0..2_200_000)
        .map(|_| {
            seed = seed.wrapping_mul(167).wrapping_add(71);
            word = word.wrapping_mul(1_664_525).wrapping_add(1_013_904_223);
            seed ^ word.to_be_bytes()[0]
        })
        .collect();
    let file = blob(&content);
    let tree = tree_with_blob("f", file.oid);
    let (mut repo, _) = with_preexisting(&file, &tree);
    let other = commit(tree.oid, None);
    repo.upload(&[other.clone()]);
    let stored = repo.pack_entries(other.oid);
    let entry = stored
        .iter()
        .find(|entry| entry.sha == file.oid)
        .expect("forwarded blob entry missing from the new image");
    assert_eq!(inflate_entry(&entry.body, entry.length).unwrap(), content);
}
