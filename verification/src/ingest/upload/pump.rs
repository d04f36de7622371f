//! What is read and written for each entry, and what comes of the segments.

use vstd::prelude::*;
use vstd::slice::slice_subrange;

use crate::error::Error;
use crate::ingest::plan::WireRef;
use crate::ingest::upload::choice::Body;
use crate::ingest::upload::layout::{body_len, measure, PlannedEntry, PlannedImage};
use crate::ingest::upload::STREAM_THRESHOLD_BYTES;
use crate::object::{Kind, ObjectId};
use crate::objects::location::{SegmentLocation, Ulid};

verus! {

/// What is read of an entry before it is its turn to be written.
#[derive(Clone, Copy, Debug, PartialEq, Eq, Structural)]
pub enum Fetch {
    /// Nothing: it is in memory.
    Resident,
    /// A range of a staged chunk.
    Chunk { chunk_id: u32, from: usize, to: usize },
    /// A range of a segment.
    Slice { segment: Ulid, start: u64, len: u64 },
    /// Nothing: it is passed through in pieces when it is its turn.
    Inline,
}

/// What is read of an entry ahead of its turn.
pub open spec fn fetched(body: Body) -> Fetch {
    match body {
        Body::Wire { .. } => Fetch::Resident,
        Body::Staged { chunk_id, from, to, .. } => if body_len(body) >= STREAM_THRESHOLD_BYTES {
            Fetch::Inline
        } else {
            Fetch::Chunk { chunk_id, from, to }
        },
        Body::Indexed { segment, start, entry_len } => if entry_len >= STREAM_THRESHOLD_BYTES {
            Fetch::Inline
        } else {
            Fetch::Slice { segment, start, len: entry_len }
        },
    }
}

/// What to read of an entry ahead of its turn.
pub fn prefetch_payload(body: Body) -> (fetch: Fetch)
    ensures
        fetch == fetched(body),
{
    match body {
        Body::Wire { .. } => Fetch::Resident,
        Body::Staged { chunk_id, from, to, .. } => if measure(body) >= STREAM_THRESHOLD_BYTES {
            Fetch::Inline
        } else {
            Fetch::Chunk { chunk_id, from, to }
        },
        Body::Indexed { segment, start, entry_len } => if entry_len >= STREAM_THRESHOLD_BYTES {
            Fetch::Inline
        } else {
            Fetch::Slice { segment, start, len: entry_len }
        },
    }
}

/// What is written of an entry behind its header, if it has one of its own.
#[derive(Clone, Copy, Debug, PartialEq, Eq, Structural)]
pub enum Written {
    /// The client's bytes.
    Wire(WireRef),
    /// What was read ahead.
    Payload,
    /// A staged chunk's range, in pieces.
    ChunkStream { chunk_id: u32, from: usize, to: usize },
    /// A segment's range, in pieces.
    SegmentStream { segment: Ulid, start: u64, len: u64 },
}

/// How an entry is written.
#[derive(Clone, Copy, Debug, PartialEq, Eq, Structural)]
pub struct Pump {
    /// Whether a header of our own goes first. An entry that is passed on has
    /// its own in front.
    pub with_header: bool,
    pub written: Written,
    /// What it inflates to; none where its own header has to say.
    pub length: Option<u64>,
}

/// How an entry is written, where its payload was read ahead or not.
pub open spec fn pumped(body: Body, buffered: bool) -> Pump {
    match body {
        Body::Wire { at, length, .. } => Pump {
            with_header: true,
            written: Written::Wire(at),
            length: Some(length),
        },
        Body::Staged { chunk_id, from, to, length } => Pump {
            with_header: true,
            written: if buffered {
                Written::Payload
            } else {
                Written::ChunkStream { chunk_id, from, to }
            },
            length: Some(length),
        },
        Body::Indexed { segment, start, entry_len } => Pump {
            with_header: false,
            written: if buffered {
                Written::Payload
            } else {
                Written::SegmentStream { segment, start, len: entry_len }
            },
            length: None,
        },
    }
}

/// How to write an entry.
pub fn pump_entry(body: Body, buffered: bool) -> (pump: Pump)
    ensures
        pump == pumped(body, buffered),
{
    match body {
        Body::Wire { at, length, .. } => Pump {
            with_header: true,
            written: Written::Wire(at),
            length: Some(length),
        },
        Body::Staged { chunk_id, from, to, length } => Pump {
            with_header: true,
            written: if buffered {
                Written::Payload
            } else {
                Written::ChunkStream { chunk_id, from, to }
            },
            length: Some(length),
        },
        Body::Indexed { segment, start, entry_len } => Pump {
            with_header: false,
            written: if buffered {
                Written::Payload
            } else {
                Written::SegmentStream { segment, start, len: entry_len }
            },
            length: None,
        },
    }
}

/// What the header of a stored entry says.
#[derive(Clone, Copy, Debug, PartialEq, Eq, Structural)]
pub struct ForwardedHeader {
    pub sha: ObjectId,
    /// What the entry inflates to.
    pub length: u64,
}

/// Whether an entry that is passed on is the object it is taken for. Where it
/// is not, index and segment disagree, and its bytes must not be copied.
pub fn check_forwarded_sha(oid: ObjectId, header: ForwardedHeader) -> (r: Result<(), Error>)
    ensures
        r == (if header.sha == oid {
            Ok::<(), Error>(())
        } else {
            Err(Error::ForwardedOther)
        }),
{
    if header.sha == oid {
        Ok(())
    } else {
        Err(Error::ForwardedOther)
    }
}

/// At most `max` bytes of a run, from its front.
pub open spec fn front(run: Seq<u8>, max: usize) -> Seq<u8> {
    if run.len() <= max {
        run
    } else {
        run.take(max as int)
    }
}

/// An entry's header on its way through: the front of the stream, until the
/// header can be read from it.
#[derive(Debug)]
pub struct HeaderWatch {
    pub prefix: Vec<u8>,
    /// What the entry inflates to, once its header was read.
    pub decoded: Option<u64>,
}

impl HeaderWatch {
    pub fn new() -> (watch: HeaderWatch)
        ensures
            watch.prefix@ == Seq::<u8>::empty(),
            watch.decoded is None,
    {
        HeaderWatch { prefix: Vec::new(), decoded: None }
    }

    /// Take the next piece of the stream in, as far as a header of at most
    /// `max` bytes reaches. However large the entry is, little is kept.
    pub fn feed(&mut self, chunk: &[u8], max: usize)
        ensures
            final(self).decoded == old(self).decoded,
            final(self).prefix@ == (if old(self).decoded is Some || old(self).prefix@.len() >= max {
                old(self).prefix@
            } else {
                front(old(self).prefix@ + chunk@, max)
            }),
    {
        if self.decoded.is_some() || self.prefix.len() >= max {
            return;
        }
        let room: usize = max - self.prefix.len();
        let n: usize = if chunk.len() < room {
            chunk.len()
        } else {
            room
        };
        self.prefix.extend_from_slice(slice_subrange(chunk, 0, n));
        assert(self.prefix@ =~= front(old(self).prefix@ + chunk@, max));
    }

    /// Settle what the header says, if the front of the stream has it.
    pub fn settle(&mut self, oid: ObjectId, header: Option<ForwardedHeader>) -> (r: Result<
        (),
        Error,
    >)
        ensures
            final(self).prefix@ == old(self).prefix@,
            match header {
                Some(header) => if old(self).decoded is Some {
                    r is Ok && final(self).decoded == old(self).decoded
                } else if header.sha == oid {
                    r is Ok && final(self).decoded == Some(header.length)
                } else {
                    r == Err::<(), Error>(Error::ForwardedOther) && final(self).decoded is None
                },
                None => r is Ok && final(self).decoded == old(self).decoded,
            },
    {
        if self.decoded.is_some() {
            return Ok(());
        }
        if let Some(header) = header {
            match check_forwarded_sha(oid, header) {
                Ok(_) => {},
                Err(error) => {
                    return Err(error);
                },
            }
            self.decoded = Some(header.length);
        }
        Ok(())
    }

    /// What the entry inflates to; an error where the stream ended before its
    /// header did.
    pub fn finish(self) -> (length: Result<u64, Error>)
        ensures
            length == (match self.decoded {
                Some(length) => Ok::<u64, Error>(length),
                None => Err(Error::EntryHeaderCut),
            }),
    {
        match self.decoded {
            Some(length) => Ok(length),
            None => Err(Error::EntryHeaderCut),
        }
    }
}

/// However a stream is cut into pieces, the same front of it is kept.
pub proof fn a_header_is_kept_however_it_comes(first: Seq<u8>, second: Seq<u8>, max: usize)
    ensures
        front(front(first, max) + second, max) == front(first + second, max),
{
    assert(front(front(first, max) + second, max) =~= front(first + second, max));
}

/// What an image's trailer says of an entry.
#[derive(Clone, Copy, Debug, PartialEq, Eq, Structural)]
pub struct TrailerEntry {
    pub sha: ObjectId,
    pub kind: Kind,
    /// What the entry inflates to.
    pub length: u64,
    pub offset: u64,
    pub entry_len: u64,
}

/// What an image's trailer says of an entry.
pub fn trailer_entry(entry: &PlannedEntry, length: u64) -> (trailer: TrailerEntry)
    ensures
        trailer == (TrailerEntry {
            sha: entry.oid,
            kind: entry.kind,
            length,
            offset: entry.offset,
            entry_len: entry.entry_len,
        }),
{
    TrailerEntry {
        sha: entry.oid,
        kind: entry.kind,
        length,
        offset: entry.offset,
        entry_len: entry.entry_len,
    }
}

/// Where an image lands in the segment `id`.
pub fn segment_of(image: &PlannedImage, id: Ulid) -> (segment: SegmentLocation)
    ensures
        segment == (SegmentLocation {
            id,
            base_offset: image.base_offset,
            image_len: image.image_len,
        }),
{
    SegmentLocation { id, base_offset: image.base_offset, image_len: image.image_len }
}

/// What came of writing one segment.
#[derive(Debug)]
pub enum Outcome<T, E> {
    /// It was written: the segment's place among the others, and its images.
    Landed(usize, Vec<T>),
    /// Another had failed before, so it was given up. That is not the failure
    /// to report.
    StoodDown,
    Failed(E),
}

/// Why the segments of a push were not all written.
#[derive(Debug)]
pub enum Unwritten<E> {
    /// The first failure.
    Failed(E),
    /// A segment never reported.
    Silent,
}

/// The first failure.
pub open spec fn first_failure<T, E>(outcomes: Seq<Outcome<T, E>>) -> Option<E>
    decreases outcomes.len(),
{
    if outcomes.len() == 0 {
        None
    } else {
        match first_failure(outcomes.drop_last()) {
            Some(error) => Some(error),
            None => match outcomes.last() {
                Outcome::Failed(error) => Some(error),
                _ => None,
            },
        }
    }
}

/// What a segment reported last.
pub open spec fn landed_at<T, E>(outcomes: Seq<Outcome<T, E>>, index: int) -> Option<Seq<T>>
    decreases outcomes.len(),
{
    if outcomes.len() == 0 {
        None
    } else {
        match outcomes.last() {
            Outcome::Landed(at, images) if at == index => Some(images@),
            _ => landed_at(outcomes.drop_last(), index),
        }
    }
}

/// The images of the first `n` segments in their order, if all have reported.
pub open spec fn landed_in_order<T, E>(outcomes: Seq<Outcome<T, E>>, n: int) -> Option<Seq<T>>
    decreases n,
{
    if n <= 0 {
        Some(Seq::empty())
    } else {
        match (landed_in_order(outcomes, n - 1), landed_at(outcomes, n - 1)) {
            (Some(before), Some(last)) => Some(before + last),
            _ => None,
        }
    }
}

proof fn lemma_one_is_missing<T, E>(outcomes: Seq<Outcome<T, E>>, k: int, n: int)
    requires
        0 <= k < n,
        landed_at(outcomes, k) is None,
    ensures
        landed_in_order(outcomes, n) is None,
    decreases n,
{
    if k < n - 1 {
        lemma_one_is_missing(outcomes, k, n - 1);
    }
}

/// Put together what came of a push's segments, in whatever order they
/// finished: the first failure, or every image in the order of the plan.
pub fn collect_segments<T, E>(outcomes: Vec<Outcome<T, E>>, segment_count: usize) -> (r: Result<
    Vec<T>,
    Unwritten<E>,
>)
    ensures
        match r {
            Ok(images) => {
                &&& first_failure(outcomes@) is None
                &&& landed_in_order(outcomes@, segment_count as int) == Some(images@)
            },
            Err(Unwritten::Failed(error)) => first_failure(outcomes@) == Some(error),
            Err(Unwritten::Silent) => {
                &&& first_failure(outcomes@) is None
                &&& landed_in_order(outcomes@, segment_count as int) is None
            },
        },
{
    let ghost all = outcomes@;
    let count: usize = outcomes.len();
    let mut landed: Vec<Option<Vec<T>>> = Vec::new();
    let mut i: usize = 0;
    while i < segment_count
        invariant
            i <= segment_count,
            landed@.len() == i,
            forall|k: int| 0 <= k < i ==> (#[trigger] landed@[k]) is None,
        decreases segment_count - i,
    {
        landed.push(None);
        i += 1;
    }
    let mut failed: Option<E> = None;
    assert(all.take(0) =~= Seq::<Outcome<T, E>>::empty());
    for outcome in it: outcomes
        invariant
            it.seq() == all,
            all == outcomes@,
            landed@.len() == segment_count,
            failed == first_failure(all.take(it.index() as int)),
            forall|k: int|
                0 <= k < segment_count ==> reported(#[trigger] landed@[k]) == landed_at(
                    all.take(it.index() as int),
                    k,
                ),
    {
        let ghost at = it.index() as int;
        let ghost before = landed@;
        proof {
            assert(all.take(at + 1).drop_last() =~= all.take(at));
            assert(all.take(at + 1).last() == outcome);
        }
        match outcome {
            Outcome::Landed(index, images) => {
                if index < segment_count {
                    landed.set(index, Some(images));
                }
            },
            Outcome::StoodDown => {},
            Outcome::Failed(error) => {
                if failed.is_none() {
                    failed = Some(error);
                }
            },
        }
        proof {
            assert forall|k: int| 0 <= k < segment_count implies reported(
                #[trigger] landed@[k],
            ) == landed_at(all.take(at + 1), k) by {
                assert(reported(before[k]) == landed_at(all.take(at), k));
            }
        }
    }
    assert(all.take(count as int) =~= all);
    if let Some(error) = failed {
        return Err(Unwritten::Failed(error));
    }
    let ghost slots = landed@;
    let mut images: Vec<T> = Vec::new();
    for slot in it: landed
        invariant
            it.seq() == slots,
            slots == landed@,
            slots.len() == segment_count,
            all == outcomes@,
            first_failure(all) is None,
            forall|k: int|
                0 <= k < segment_count ==> reported(#[trigger] slots[k]) == landed_at(all, k),
            landed_in_order(all, it.index() as int) == Some(images@),
    {
        let ghost at = it.index() as int;
        assert(reported(slots[at]) == landed_at(all, at));
        match slot {
            Some(run) => {
                let mut run = run;
                images.append(&mut run);
            },
            None => {
                proof {
                    lemma_one_is_missing(all, at, segment_count as int);
                }
                return Err(Unwritten::Silent);
            },
        }
    }
    Ok(images)
}

/// What a slot holds.
spec fn reported<T>(slot: Option<Vec<T>>) -> Option<Seq<T>> {
    match slot {
        Some(images) => Some(images@),
        None => None,
    }
}

} // verus!
