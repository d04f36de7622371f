//! The part of staging that is in memory.
//!
//! Encodings are placed end to end and leave in chunks; where each of them sits
//! is kept to the end. Nothing here compresses.

use vstd::prelude::*;
use vstd::slice::slice_subrange;

use crate::ingest::lists::{distinct, IdList};
use crate::ingest::staging::encodings::{
    staged, StagedEncodings, StagedItem, StagedObjectLocation,
};
use crate::ingest::upload::choice::{fit, staged_of};
use crate::object::{Kind, ObjectId};
use crate::ordmap::OrdMap;

verus! {

/// How much is kept in memory before it is written as a chunk.
pub const STAGING_CHUNK_BYTES: usize = 5_242_880;

/// A chunk to write.
#[derive(Debug)]
pub struct Chunk {
    pub chunk_id: u32,
    pub data: Vec<u8>,
}

/// A chunk to write.
#[verifier::ext_equal]
pub struct ChunkView {
    pub chunk_id: u32,
    pub data: Seq<u8>,
}

impl View for Chunk {
    type V = ChunkView;

    open spec fn view(&self) -> ChunkView {
        ChunkView { chunk_id: self.chunk_id, data: self.data@ }
    }
}

/// What is staged: what is still in memory, the chunk it will be, and where
/// every encoding sits.
#[verifier::ext_equal]
pub struct Staged {
    pub current: Seq<u8>,
    pub chunk_id: u32,
    pub index: Map<ObjectId, Map<Option<ObjectId>, StagedObjectLocation>>,
}

impl Staged {
    /// What is staged of one object.
    pub open spec fn of(self, sha: ObjectId) -> Map<Option<ObjectId>, StagedObjectLocation> {
        if self.index.contains_key(sha) {
            self.index[sha]
        } else {
            Map::empty()
        }
    }

    /// Where an item lands whose bytes come next.
    pub open spec fn place(self, item: StagedItem, compressed: Seq<u8>) -> StagedObjectLocation {
        StagedObjectLocation {
            chunk_id: self.chunk_id,
            offset: self.current.len() as usize,
            compressed_len: compressed.len() as usize,
            decompressed_len: item.decompressed_len,
            kind: item.kind,
        }
    }

    /// With an item placed behind what is in memory.
    pub open spec fn placed(self, item: StagedItem, compressed: Seq<u8>) -> Staged {
        Staged {
            current: self.current + compressed,
            chunk_id: self.chunk_id,
            index: self.index.insert(
                item.sha,
                self.of(item.sha).insert(item.base, self.place(item, compressed)),
            ),
        }
    }

    /// With what is in memory gone to a chunk.
    pub open spec fn flushed(self) -> Staged {
        if self.current.len() == 0 {
            self
        } else {
            Staged {
                current: Seq::empty(),
                chunk_id: (self.chunk_id + 1) as u32,
                index: self.index,
            }
        }
    }

    /// The chunk that leaves.
    pub open spec fn chunk(self) -> Option<ChunkView> {
        if self.current.len() == 0 {
            None
        } else {
            Some(ChunkView { chunk_id: self.chunk_id, data: self.current })
        }
    }

    /// Whether there is enough in memory for a chunk.
    pub open spec fn is_full(self) -> bool {
        self.current.len() >= STAGING_CHUNK_BYTES
    }
}

/// A push's compressed objects, in memory until they fill a chunk.
#[derive(Debug)]
pub struct StagingBuffer {
    current: Vec<u8>,
    chunk_id: u32,
    index: OrdMap<ObjectId, StagedEncodings>,
}

impl View for StagingBuffer {
    type V = Staged;

    closed spec fn view(&self) -> Staged {
        Staged {
            current: self.current@,
            chunk_id: self.chunk_id,
            index: staged(self.index@),
        }
    }
}

/// A chunk, if there is one.
pub open spec fn chunk_in(chunk: Option<Chunk>) -> Option<ChunkView> {
    match chunk {
        Some(chunk) => Some(chunk@),
        None => None,
    }
}

/// Where an object's own bytes are.
#[derive(Debug)]
pub enum Whereabouts {
    /// In memory.
    Here { kind: Kind, compressed: Vec<u8>, decompressed_len: usize },
    /// In a chunk that was written.
    Chunk { kind: Kind, chunk_id: u32, start: usize, end: usize, decompressed_len: usize },
}

/// Whether that is where an object's own bytes are.
pub open spec fn is_there(state: Staged, sha: ObjectId, there: Option<Whereabouts>) -> bool {
    let whole = state.of(sha);
    let loc = whole[None];
    let is_here = loc.chunk_id == state.chunk_id;
    match there {
        None => {
            ||| !whole.contains_key(None)
            ||| is_here && loc.offset + loc.compressed_len > state.current.len()
        },
        Some(Whereabouts::Here { kind, compressed, decompressed_len }) => {
            &&& whole.contains_key(None)
            &&& is_here
            &&& loc.offset + loc.compressed_len <= state.current.len()
            &&& kind == loc.kind
            &&& decompressed_len == loc.decompressed_len
            &&& compressed@ == state.current.subrange(
                loc.offset as int,
                loc.offset + loc.compressed_len,
            )
        },
        Some(Whereabouts::Chunk { kind, chunk_id, start, end, decompressed_len }) => {
            &&& whole.contains_key(None)
            &&& !is_here
            &&& kind == loc.kind
            &&& decompressed_len == loc.decompressed_len
            &&& chunk_id == loc.chunk_id
            &&& start == loc.offset
            &&& end == loc.offset + loc.compressed_len
        },
    }
}

impl StagingBuffer {
    /// Whether every place it names can be: none runs past what can be counted.
    pub closed spec fn is_sound(self) -> bool {
        forall|sha: ObjectId, base: Option<ObjectId>| #[trigger]
            self@.of(sha).contains_key(base) ==> self@.of(sha)[base].offset
                + self@.of(sha)[base].compressed_len <= usize::MAX
    }

    pub fn new() -> (buffer: StagingBuffer)
        ensures
            buffer.is_sound(),
            buffer@ == (Staged {
                current: Seq::empty(),
                chunk_id: 0,
                index: Map::empty(),
            }),
    {
        let buffer = StagingBuffer { current: Vec::new(), chunk_id: 0, index: OrdMap::new() };
        assert(staged(buffer.index@) =~= Map::empty());
        buffer
    }

    /// Place compressed bytes. Once there is enough of them, a chunk leaves.
    pub fn push_compressed(&mut self, item: StagedItem, compressed: &[u8]) -> (chunk: Option<Chunk>)
        requires
            old(self).is_sound(),
            old(self)@.current.len() + compressed@.len() <= usize::MAX,
            old(self)@.chunk_id < u32::MAX,
        ensures
            final(self).is_sound(),
            ({
                let placed = old(self)@.placed(item, compressed@);
                if placed.is_full() {
                    final(self)@ == placed.flushed() && chunk_in(chunk) == placed.chunk()
                } else {
                    final(self)@ == placed && chunk is None
                }
            }),
    {
        let offset: usize = self.current.len();
        let ghost before = self@;
        let ghost loc = before.place(item, compressed@);
        self.current.extend_from_slice(compressed);
        let mut encodings = match self.index.remove(&item.sha) {
            Some(encodings) => encodings,
            None => StagedEncodings::new(),
        };
        encodings.insert(
            item.base,
            StagedObjectLocation {
                chunk_id: self.chunk_id,
                offset,
                compressed_len: compressed.len(),
                decompressed_len: item.decompressed_len,
                kind: item.kind,
            },
        );
        let _ = self.index.insert(item.sha, encodings);
        proof {
            let placed = before.placed(item, compressed@);
            assert(self@.current =~= placed.current);
            assert(self@.index =~= placed.index);
            assert forall|sha: ObjectId, base: Option<ObjectId>| #[trigger]
                self@.of(sha).contains_key(base) implies self@.of(sha)[base].offset
                + self@.of(sha)[base].compressed_len <= usize::MAX by {
                if sha != item.sha || base != item.base {
                    assert(before.of(sha).contains_key(base));
                }
            }
        }
        if self.current.len() >= STAGING_CHUNK_BYTES {
            self.flush()
        } else {
            None
        }
    }

    /// Let what is in memory leave as a chunk, if there is anything.
    pub fn flush(&mut self) -> (chunk: Option<Chunk>)
        requires
            old(self).is_sound(),
            old(self)@.chunk_id < u32::MAX,
        ensures
            final(self).is_sound(),
            final(self)@ == old(self)@.flushed(),
            chunk_in(chunk) == old(self)@.chunk(),
    {
        if self.current.len() == 0 {
            return None;
        }
        let mut data: Vec<u8> = Vec::new();
        std::mem::swap(&mut self.current, &mut data);
        let chunk_id: u32 = self.chunk_id;
        self.chunk_id = chunk_id + 1;
        proof {
            assert forall|sha: ObjectId, base: Option<ObjectId>| #[trigger]
                self@.of(sha).contains_key(base) implies self@.of(sha)[base].offset
                + self@.of(sha)[base].compressed_len <= usize::MAX by {
                assert(old(self)@.of(sha).contains_key(base));
            }
        }
        Some(Chunk { chunk_id, data })
    }

    /// Where an object's own bytes are, if they are staged.
    pub fn locate(&self, sha: ObjectId) -> (there: Option<Whereabouts>)
        requires
            self.is_sound(),
        ensures
            is_there(self@, sha, there),
    {
        let loc = match self.index.get(&sha) {
            Some(encodings) => match encodings.whole() {
                Some(loc) => loc,
                None => {
                    return None;
                },
            },
            None => {
                return None;
            },
        };
        assert(self@.of(sha).contains_key(None));
        let end: usize = loc.offset + loc.compressed_len;
        if loc.chunk_id != self.chunk_id {
            return Some(
                Whereabouts::Chunk {
                    kind: loc.kind,
                    chunk_id: loc.chunk_id,
                    start: loc.offset,
                    end,
                    decompressed_len: loc.decompressed_len,
                },
            );
        }
        if end > self.current.len() {
            return None;
        }
        let bytes = slice_subrange(self.current.as_slice(), loc.offset, end);
        Some(
            Whereabouts::Here {
                kind: loc.kind,
                compressed: vstd::slice::slice_to_vec(bytes),
                decompressed_len: loc.decompressed_len,
            },
        )
    }

    /// The finished index.
    pub fn into_index(self) -> (index: OrdMap<ObjectId, StagedEncodings>)
        requires
            self.is_sound(),
        ensures
            staged(index@) == self@.index,
            fit(staged(index@)),
    {
        proof {
            assert forall|sha: ObjectId, base: Option<ObjectId>| #[trigger]
                staged_of(self@.index, sha).contains_key(base) implies staged_of(
                self@.index,
                sha,
            )[base].offset + staged_of(self@.index, sha)[base].compressed_len <= usize::MAX by {
                assert(self@.of(sha).contains_key(base));
            }
        }
        self.index
    }
}

/// The bytes that a place holds, where `chunks` are those written so far.
pub open spec fn bytes_at(
    state: Staged,
    chunks: Map<u32, Seq<u8>>,
    loc: StagedObjectLocation,
) -> Seq<u8> {
    let chunk = if loc.chunk_id == state.chunk_id {
        state.current
    } else {
        chunks[loc.chunk_id]
    };
    chunk.subrange(loc.offset as int, loc.offset + loc.compressed_len)
}

/// The bytes that are staged for an encoding.
pub open spec fn bytes_of(
    state: Staged,
    chunks: Map<u32, Seq<u8>>,
    sha: ObjectId,
    base: Option<ObjectId>,
) -> Option<Seq<u8>> {
    if state.of(sha).contains_key(base) {
        Some(bytes_at(state, chunks, state.of(sha)[base]))
    } else {
        None
    }
}

/// Whether a place is in memory or in a chunk that was written.
pub open spec fn is_held(
    state: Staged,
    chunks: Map<u32, Seq<u8>>,
    loc: StagedObjectLocation,
) -> bool {
    if loc.chunk_id == state.chunk_id {
        loc.offset + loc.compressed_len <= state.current.len()
    } else {
        &&& loc.chunk_id < state.chunk_id
        &&& chunks.contains_key(loc.chunk_id)
        &&& loc.offset + loc.compressed_len <= chunks[loc.chunk_id].len()
    }
}

/// Whether all that is staged is there to be read.
pub open spec fn is_complete(state: Staged, chunks: Map<u32, Seq<u8>>) -> bool {
    forall|sha: ObjectId, base: Option<ObjectId>| #[trigger]
        state.of(sha).contains_key(base) ==> is_held(state, chunks, state.of(sha)[base])
}

/// What is placed reads back, and so does all that was placed before.
pub proof fn what_is_placed_reads_back(
    state: Staged,
    chunks: Map<u32, Seq<u8>>,
    item: StagedItem,
    compressed: Seq<u8>,
)
    requires
        is_complete(state, chunks),
        state.current.len() + compressed.len() <= usize::MAX,
    ensures
        ({
            let placed = state.placed(item, compressed);
            &&& is_complete(placed, chunks)
            &&& bytes_of(placed, chunks, item.sha, item.base) == Some(compressed)
            &&& forall|sha: ObjectId, base: Option<ObjectId>|
                !(sha == item.sha && base == item.base) ==> #[trigger] bytes_of(
                    placed,
                    chunks,
                    sha,
                    base,
                ) == bytes_of(state, chunks, sha, base)
        }),
{
    let placed = state.placed(item, compressed);
    assert(bytes_at(placed, chunks, state.place(item, compressed)) =~= compressed);
    assert forall|sha: ObjectId, base: Option<ObjectId>| #[trigger]
        placed.of(sha).contains_key(base) implies is_held(
        placed,
        chunks,
        placed.of(sha)[base],
    ) by {
        if !(sha == item.sha && base == item.base) {
            assert(state.of(sha).contains_key(base));
        }
    }
    assert forall|sha: ObjectId, base: Option<ObjectId>|
        !(sha == item.sha && base == item.base) implies #[trigger] bytes_of(
        placed,
        chunks,
        sha,
        base,
    ) == bytes_of(state, chunks, sha, base) by {
        if placed.of(sha).contains_key(base) {
            assert(state.of(sha).contains_key(base));
            let loc = state.of(sha)[base];
            assert(is_held(state, chunks, loc));
            assert(bytes_at(placed, chunks, loc) =~= bytes_at(state, chunks, loc));
        }
    }
}

/// Writing what is in memory as a chunk changes nothing that is read back.
pub proof fn a_chunk_reads_back(state: Staged, chunks: Map<u32, Seq<u8>>)
    requires
        is_complete(state, chunks),
        state.chunk_id < u32::MAX,
    ensures
        ({
            let written = chunks.insert(state.chunk_id, state.current);
            &&& is_complete(state.flushed(), written)
            &&& forall|sha: ObjectId, base: Option<ObjectId>| #[trigger]
                bytes_of(state.flushed(), written, sha, base) == bytes_of(state, chunks, sha, base)
        }),
{
    let written = chunks.insert(state.chunk_id, state.current);
    let flushed = state.flushed();
    assert forall|sha: ObjectId, base: Option<ObjectId>| #[trigger]
        flushed.of(sha).contains_key(base) implies is_held(
        flushed,
        written,
        flushed.of(sha)[base],
    ) by {
        assert(state.of(sha).contains_key(base));
    }
    assert forall|sha: ObjectId, base: Option<ObjectId>| #[trigger]
        bytes_of(flushed, written, sha, base) == bytes_of(state, chunks, sha, base) by {
        if flushed.of(sha).contains_key(base) {
            assert(state.of(sha).contains_key(base));
            assert(is_held(state, chunks, state.of(sha)[base]));
        }
    }
}

/// What is known of the objects that are asked for.
#[derive(Debug)]
pub struct Routed {
    /// Those that are staged, and where.
    pub here: Vec<(ObjectId, Whereabouts)>,
    /// Those that only the repository may have.
    pub absent: Vec<ObjectId>,
}

/// Whether an object's own bytes are staged.
pub open spec fn is_staged(state: Staged, sha: ObjectId) -> bool {
    let loc = state.of(sha)[None];
    &&& state.of(sha).contains_key(None)
    &&& loc.chunk_id == state.chunk_id ==> loc.offset + loc.compressed_len <= state.current.len()
}

/// Tell the objects of a run that are staged from those that are not, each
/// once: a repeat would cost a read of its own.
pub fn route(shas: &[ObjectId], buffer: &StagingBuffer) -> (routed: Routed)
    requires
        buffer.is_sound(),
    ensures
        routed.here@.map_values(|here: (ObjectId, Whereabouts)| here.0) == distinct(shas@).filter(
            |sha: ObjectId| is_staged(buffer@, sha),
        ),
        forall|i: int|
            0 <= i < routed.here@.len() ==> is_there(
                buffer@,
                (#[trigger] routed.here@[i]).0,
                Some(routed.here@[i].1),
            ),
        routed.absent@ == distinct(shas@).filter(|sha: ObjectId| !is_staged(buffer@, sha)),
{
    let ghost ids = |here: (ObjectId, Whereabouts)| here.0;
    let ghost inside = |sha: ObjectId| is_staged(buffer@, sha);
    let ghost outside = |sha: ObjectId| !is_staged(buffer@, sha);
    let list = distinct_ids(shas);
    let mut here: Vec<(ObjectId, Whereabouts)> = Vec::new();
    let mut absent: Vec<ObjectId> = Vec::new();
    let mut i: usize = 0;
    proof {
        reveal(Seq::filter);
        assert(here@.map_values(ids) =~= list@.take(0).filter(inside));
        assert(absent@ =~= list@.take(0).filter(outside));
    }
    while i < list.len()
        invariant
            i <= list@.len(),
            buffer.is_sound(),
            ids == (|here: (ObjectId, Whereabouts)| here.0),
            inside == (|sha: ObjectId| is_staged(buffer@, sha)),
            outside == (|sha: ObjectId| !is_staged(buffer@, sha)),
            here@.map_values(ids) == list@.take(i as int).filter(inside),
            absent@ == list@.take(i as int).filter(outside),
            forall|k: int|
                0 <= k < here@.len() ==> is_there(
                    buffer@,
                    (#[trigger] here@[k]).0,
                    Some(here@[k].1),
                ),
        decreases list@.len() - i,
    {
        let ghost before = here@;
        proof {
            reveal(Seq::filter);
            assert(list@.take(i as int + 1).drop_last() =~= list@.take(i as int));
        }
        let sha = list[i];
        match buffer.locate(sha) {
            Some(there) => {
                assert(is_staged(buffer@, sha));
                here.push((sha, there));
                assert(here@.map_values(ids) =~= before.map_values(ids).push(sha));
            },
            None => {
                assert(!is_staged(buffer@, sha));
                absent.push(sha);
            },
        }
        i += 1;
    }
    assert(list@.take(i as int) =~= list@);
    Routed { here, absent }
}

/// A run of ids, each once.
fn distinct_ids(ids: &[ObjectId]) -> (list: Vec<ObjectId>)
    ensures
        list@ == distinct(ids@),
{
    let mut list = IdList::new();
    let mut i: usize = 0;
    while i < ids.len()
        invariant
            i <= ids@.len(),
            list@ == distinct(ids@.take(i as int)),
        decreases ids@.len() - i,
    {
        assert(ids@.take(i as int + 1).drop_last() =~= ids@.take(i as int));
        let _ = list.put(ids[i]);
        i += 1;
    }
    assert(ids@.take(i as int) =~= ids@);
    list.into_vec()
}

} // verus!
