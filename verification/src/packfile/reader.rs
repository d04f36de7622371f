//! Reading a pack as it arrives.
//!
//! Large pushes are common, so this reads entry by entry and inflates no more
//! than one compressed body at a time. Whoever holds the stream feeds the
//! reader what arrives and asks again wherever it says that it needs more.
//! Every byte of the pack but its trailer goes into a running SHA-1, which
//! [`PackReader::verify_trailer`] holds against the trailer.

use vstd::prelude::*;
use vstd::slice::slice_subrange;

use crate::bytes::{append, lemma_byte_ranges, read_be, same_bytes};
use crate::deps::digest::{feed_hasher, finish_hasher, hashed, new_hasher, sha1_of};
use crate::deps::zlib::{
    begins_stream, ends_at, given_out, has_failed, holds_stream, inflate, new_inflater,
    nothing_shorter_is_whole, reset_inflater, taken_in, total_in, total_out, zlib_whole,
};
use crate::error::Error;
use crate::object::{Kind, ObjectId};
use crate::packfile::format::EntryHeader;
use crate::packfile::parse::{
    a_stream_has_one_end, kind_of_type, parse_distance, parse_distance_from, parse_entry_header,
    parse_pack_header, parse_size, Parsed,
};
use crate::packfile::varint::{lemma_end_bounds, place, varint_end, varint_sum};

verus! {

/// Sink size for the output that [`PackReader::skip_entry_body`] discards: only
/// large enough that the inflater makes progress per call.
pub const INFLATE_SCRATCH_BYTES: usize = 65_536;

/// What a reader holds.
#[verifier::ext_equal]
pub struct ReaderState {
    /// What has arrived and was not read yet.
    pub unread: Seq<u8>,
    /// Whether nothing more will arrive.
    pub over: bool,
    /// Every byte read so far, for a reader that keeps them.
    pub kept: Option<Seq<u8>>,
    /// What the running hash covers.
    pub hashed: Seq<u8>,
    /// How many bytes of the pack were read.
    pub position: u64,
    /// What was read of the entry body that reading is inside of.
    pub body: Option<Seq<u8>>,
}

/// `a + b`, or the largest value where that does not fit.
pub open spec fn capped_sum(a: u64, b: nat) -> u64 {
    if a + b > u64::MAX {
        u64::MAX
    } else {
        (a + b) as u64
    }
}

/// A kept copy with `bytes` behind it.
pub open spec fn keeping(kept: Option<Seq<u8>>, bytes: Seq<u8>) -> Option<Seq<u8>> {
    match kept {
        None => None,
        Some(kept) => Some(kept + bytes),
    }
}

impl ReaderState {
    /// The state once the next `n` bytes were read.
    pub open spec fn accepting(self, n: nat) -> ReaderState {
        let taken = self.unread.take(n as int);
        ReaderState {
            unread: self.unread.skip(n as int),
            kept: keeping(self.kept, taken),
            hashed: self.hashed + taken,
            position: capped_sum(self.position, n),
            ..self
        }
    }

    /// Everything that arrived, for a reader that keeps what it reads.
    pub open spec fn arrived(self) -> Option<Seq<u8>> {
        keeping(self.kept, self.unread)
    }

    /// The body read so far, none of it where reading is not inside of one.
    pub open spec fn body_so_far(self) -> Seq<u8> {
        match self.body {
            None => Seq::empty(),
            Some(body) => body,
        }
    }

    /// The body that reading is inside of or about to start on, and whatever has
    /// arrived behind it.
    pub open spec fn body_ahead(self) -> Seq<u8> {
        self.body_so_far() + self.unread
    }

    /// How `next` is reached from here by `parsed`: a value is handed out and
    /// its bytes are read, and in every other case nothing changes.
    pub open spec fn reads<T>(
        self,
        parsed: Parsed<T>,
        r: Result<Option<T>, Error>,
        next: ReaderState,
    ) -> bool {
        match parsed {
            Parsed::NeedsMore => {
                &&& r == (if self.over {
                    Err::<Option<T>, Error>(Error::StreamEnded)
                } else {
                    Ok(None)
                })
                &&& next == self
            },
            Parsed::Refused(e) => r == Err::<Option<T>, Error>(e) && next == self,
            Parsed::Read { value, len } => {
                &&& r == Ok::<Option<T>, Error>(Some(value))
                &&& next == self.accepting(len)
            },
        }
    }
}

/// What the executable parsers below hand back.
enum Front<T> {
    NeedsMore,
    Refused(Error),
    Read(T, usize),
}

impl<T> Front<T> {
    spec fn parsed(self) -> Parsed<T> {
        match self {
            Front::NeedsMore => Parsed::NeedsMore,
            Front::Refused(e) => Parsed::Refused(e),
            Front::Read(value, n) => Parsed::Read { value, len: n as nat },
        }
    }

    spec fn fits(self, data: Seq<u8>) -> bool {
        self matches Front::Read(_, n) ==> n <= data.len()
    }
}

/// Streaming decoder for one packfile.
pub struct PackReader {
    /// What has arrived; the bytes before `at` are read.
    arrived: Vec<u8>,
    at: usize,
    over: bool,
    /// Every byte accepted so far; none where nothing is kept.
    kept: Option<Vec<u8>>,
    // Plain SHA-1, not the collision-detecting variant used for object ids:
    // this is a transport integrity check over bytes the sender chose.
    hasher: sha1::Sha1,
    offset: u64,
    /// Inflate state, allocated once per pack and not per entry.
    inflater: flate2::Decompress,
    sink: Vec<u8>,
    /// Whether reading is inside of an entry's body.
    inside: bool,
    /// How much of that body's content has come out.
    produced: u64,
}

impl View for PackReader {
    type V = ReaderState;

    closed spec fn view(&self) -> ReaderState {
        ReaderState {
            unread: self.arrived@.skip(self.at as int),
            over: self.over,
            kept: match self.kept {
                None => None,
                Some(kept) => Some(kept@),
            },
            hashed: hashed(self.hasher),
            position: self.offset,
            body: if self.inside {
                Some(taken_in(self.inflater))
            } else {
                None
            },
        }
    }
}

impl PackReader {
    /// The read position stands within what has arrived, what came out of the
    /// body at hand is counted, and that body has not ended before its last byte.
    pub closed spec fn wf(self) -> bool {
        &&& self.at <= self.arrived@.len()
        &&& self.sink@.len() > 0
        &&& self.inside ==> {
            &&& self.produced == given_out(self.inflater)
            &&& nothing_shorter_is_whole(taken_in(self.inflater))
            &&& !has_failed(self.inflater)
        }
    }

    /// Start decoding a pack, keeping none of it.
    pub fn new() -> (reader: PackReader)
        ensures
            reader.wf(),
            reader@ == (ReaderState {
                unread: Seq::empty(),
                over: false,
                kept: None,
                hashed: Seq::empty(),
                position: 0,
                body: None,
            }),
    {
        PackReader::with_kept(None)
    }

    /// Start decoding, keeping a verbatim copy as it is parsed, for a caller
    /// that reads entries back in an order the stream cannot give it.
    ///
    /// `capacity` reserves for that copy, which otherwise doubles its way up to
    /// as much as twice the pack.
    pub fn retaining(capacity: usize) -> (reader: PackReader)
        requires
            capacity <= isize::MAX,
        ensures
            reader.wf(),
            reader@ == (ReaderState {
                unread: Seq::empty(),
                over: false,
                kept: Some(Seq::empty()),
                hashed: Seq::empty(),
                position: 0,
                body: None,
            }),
    {
        PackReader::with_kept(Some(Vec::with_capacity(capacity)))
    }

    fn with_kept(kept: Option<Vec<u8>>) -> (reader: PackReader)
        ensures
            reader.wf(),
            reader@ == (ReaderState {
                unread: Seq::empty(),
                over: false,
                kept: match kept {
                    None => None,
                    Some(kept) => Some(kept@),
                },
                hashed: Seq::empty(),
                position: 0,
                body: None,
            }),
    {
        let reader = PackReader {
            arrived: Vec::new(),
            at: 0,
            over: false,
            kept,
            hasher: new_hasher(),
            offset: 0,
            inflater: new_inflater(),
            sink: vec![0u8; INFLATE_SCRATCH_BYTES],
            inside: false,
            produced: 0,
        };
        assert(reader@.unread =~= Seq::<u8>::empty());
        reader
    }

    /// Hand over what arrived next.
    pub fn feed(&mut self, bytes: &[u8])
        requires
            old(self).wf(),
        ensures
            final(self).wf(),
            final(self)@ == (ReaderState {
                unread: old(self)@.unread + bytes@,
                ..old(self)@
            }),
            final(self)@.arrived() == keeping(old(self)@.arrived(), bytes@),
    {
        let mut arrived: Vec<u8> = Vec::new();
        append(&mut arrived, slice_subrange(self.arrived.as_slice(), self.at, self.arrived.len()));
        append(&mut arrived, bytes);
        self.arrived = arrived;
        self.at = 0;
        assert(self@.unread =~= old(self)@.unread + bytes@);
        assert(old(self)@.kept matches Some(kept) ==> kept + (old(self)@.unread + bytes@) =~= (kept
            + old(self)@.unread) + bytes@);
    }

    /// Nothing more will arrive.
    pub fn finish(&mut self)
        requires
            old(self).wf(),
        ensures
            final(self).wf(),
            final(self)@ == (ReaderState { over: true, ..old(self)@ }),
            final(self)@.arrived() == old(self)@.arrived(),
    {
        self.over = true;
    }

    /// Take the verbatim copy built by [`PackReader::retaining`]: empty for a
    /// reader built with [`PackReader::new`], and after the first call.
    pub fn take_pack(&mut self) -> (pack: Vec<u8>)
        requires
            old(self).wf(),
        ensures
            final(self).wf(),
            pack@ == (match old(self)@.kept {
                None => Seq::empty(),
                Some(kept) => kept,
            }),
            final(self)@ == (ReaderState { kept: None, ..old(self)@ }),
    {
        match self.kept.take() {
            None => Vec::new(),
            Some(kept) => kept,
        }
    }

    /// Byte offset of the current position from the very start of the pack, and
    /// so where an entry sits in what [`PackReader::take_pack`] returns.
    pub fn offset(&self) -> (offset: u64)
        ensures
            offset == self@.position,
    {
        self.offset
    }

    /// How many bytes the kept copy has.
    pub fn kept_len(&self) -> (n: usize)
        ensures
            n == (match self@.kept {
                None => 0,
                Some(kept) => kept.len(),
            }),
    {
        match &self.kept {
            None => 0,
            Some(kept) => kept.len(),
        }
    }

    /// Append to the kept copy, if one is being built.
    fn keep(&mut self, bytes: &[u8])
        requires
            old(self).wf(),
        ensures
            final(self).wf(),
            final(self)@ == (ReaderState { kept: keeping(old(self)@.kept, bytes@), ..old(self)@ }),
            final(self).arrived == old(self).arrived,
            final(self).at == old(self).at,
            final(self).inflater == old(self).inflater,
            final(self).inside == old(self).inside,
    {
        let mut kept: Option<Vec<u8>> = self.kept.take();
        if let Some(copy) = &mut kept {
            append(copy, bytes);
        }
        self.kept = kept;
    }

    /// Read the next `n` bytes: feed them to the hash, keep them, and advance
    /// the offset. Every pack byte but the trailer's goes through here.
    fn accept(&mut self, n: usize)
        requires
            old(self).wf(),
            n <= old(self)@.unread.len(),
        ensures
            final(self).wf(),
            final(self)@ == old(self)@.accepting(n as nat),
            final(self)@.arrived() == old(self)@.arrived(),
            final(self).inflater == old(self).inflater,
            final(self).inside == old(self).inside,
    {
        let mut taken: Vec<u8> = Vec::new();
        let left: usize = self.arrived.len() - self.at;
        assert(n <= left);
        append(&mut taken, slice_subrange(self.arrived.as_slice(), self.at, self.at + n));
        assert(taken@ =~= old(self)@.unread.take(n as int));
        feed_hasher(&mut self.hasher, taken.as_slice());
        self.keep(taken.as_slice());
        self.at = self.at + n;
        self.offset = self.offset.saturating_add(n as u64);
        assert(self@.unread =~= old(self)@.unread.skip(n as int));
        proof {
            lemma_reading_keeps(old(self)@, n as nat);
        }
    }

    fn unread(&self) -> (bytes: &[u8])
        requires
            self.wf(),
        ensures
            bytes@ == self@.unread,
    {
        let bytes = slice_subrange(self.arrived.as_slice(), self.at, self.arrived.len());
        assert(bytes@ =~= self@.unread);
        bytes
    }

    /// Hand out what a parser found at the front of the unread bytes.
    fn conclude<T>(&mut self, front: Front<T>) -> (r: Result<Option<T>, Error>)
        requires
            old(self).wf(),
            front.fits(old(self)@.unread),
        ensures
            final(self).wf(),
            old(self)@.reads(front.parsed(), r, final(self)@),
            final(self)@.arrived() == old(self)@.arrived(),
    {
        match front {
            Front::NeedsMore => {
                if self.over {
                    Err(Error::StreamEnded)
                } else {
                    Ok(None)
                }
            },
            Front::Refused(e) => Err(e),
            Front::Read(value, n) => {
                self.accept(n);
                Ok(Some(value))
            },
        }
    }

    /// Parse the 12-byte pack file header, returning the object count.
    ///
    /// Format: `PACK` (4 bytes), version `u32` big-endian (must be 2), object
    /// count `u32` big-endian. Nothing comes back where more bytes are needed.
    pub fn read_pack_header(&mut self) -> (r: Result<Option<u32>, Error>)
        requires
            old(self).wf(),
        ensures
            final(self).wf(),
            old(self)@.reads(parse_pack_header(old(self)@.unread), r, final(self)@),
            final(self)@.arrived() == old(self)@.arrived(),
    {
        let front = pack_header_front(self.unread());
        self.conclude(front)
    }

    /// Parse one entry's header, returning it and the payload's decompressed
    /// size; for a delta, its instructions', not the object's.
    pub fn read_entry_header(&mut self) -> (r: Result<Option<(EntryHeader, u64)>, Error>)
        requires
            old(self).wf(),
        ensures
            final(self).wf(),
            old(self)@.reads(parse_entry_header(old(self)@.unread), r, final(self)@),
            final(self)@.arrived() == old(self)@.arrived(),
    {
        let front = entry_header_front(self.unread());
        self.conclude(front)
    }

    /// Advances past one entry's compressed body, inflating only far enough to
    /// find where the zlib stream ends.
    ///
    /// A pack entry has no length prefix, so the inflater alone finds where the
    /// next entry starts. A body that is all there is read to its end, whether
    /// anything is behind it or not. Bytes that the inflater refuses fail with
    /// [`Error::EntryNotZlib`]: none that a stream begins with are among them, and
    /// no more is said of which are.
    pub fn skip_entry_body(&mut self, expected_size: u64) -> (r: Result<Option<()>, Error>)
        requires
            old(self).wf(),
        ensures
            final(self).wf(),
            final(self)@.unread.len() <= old(self)@.unread.len(),
            final(self)@.arrived() == old(self)@.arrived(),
            ({
                let n = (old(self)@.unread.len() - final(self)@.unread.len()) as nat;
                let body = old(self)@.body_so_far() + old(self)@.unread.take(n as int);
                let read = old(self)@.accepting(n);
                match r {
                    Ok(None) => {
                        &&& !old(self)@.over
                        &&& final(self)@ == (ReaderState { body: Some(body), ..read })
                    },
                    Ok(Some(_)) => {
                        &&& final(self)@ == (ReaderState { body: None, ..read })
                        &&& zlib_whole(body) == Some(expected_size as nat)
                        &&& nothing_shorter_is_whole(body)
                    },
                    Err(Error::EntryLength) => {
                        &&& final(self)@ == (ReaderState { body: None, ..read })
                        &&& zlib_whole(body) matches Some(produced)
                        &&& produced != expected_size
                    },
                    Err(Error::StreamEnded) => {
                        &&& old(self)@.over
                        &&& final(self)@ == (ReaderState { body: Some(body), ..read })
                    },
                    Err(e) => e == Error::EntryNotZlib && !begins_stream(old(self)@.body_ahead()),
                }
            }),
            forall|end: int| #[trigger]
                ends_at(old(self)@.body_ahead(), end) ==> {
                    &&& final(self)@.unread.len() == old(self)@.body_ahead().len() - end
                    &&& r == (if zlib_whole(old(self)@.body_ahead().take(end)) == Some(
                        expected_size as nat,
                    ) {
                        Ok::<Option<()>, Error>(Some(()))
                    } else {
                        Err(Error::EntryLength)
                    })
                },
    {
        let ghost whole = self@.body_ahead();
        if !self.inside {
            reset_inflater(&mut self.inflater);
            self.produced = 0;
            self.inside = true;
        }
        let ghost first = self@;
        let ghost mut taken = 0nat;
        proof {
            assert(first == (ReaderState { body: Some(old(self)@.body_so_far()), ..old(self)@ }));
            assert(first.unread.take(0) =~= Seq::<u8>::empty());
            assert(first.unread.skip(0) =~= first.unread);
            assert(first.hashed + Seq::<u8>::empty() =~= first.hashed);
            assert(first.kept matches Some(kept) ==> kept + Seq::<u8>::empty() =~= kept);
            assert(first.body_so_far() + Seq::<u8>::empty() =~= first.body_so_far());
        }
        loop
            invariant
                self.wf(),
                self.inside,
                taken <= first.unread.len(),
                first.body == Some(old(self)@.body_so_far()),
                self@ == (ReaderState {
                    body: Some(first.body_so_far() + first.unread.take(taken as int)),
                    ..first.accepting(taken)
                }),
                first == (ReaderState { body: first.body, ..old(self)@ }),
                self@.arrived() == old(self)@.arrived(),
                whole == old(self)@.body_ahead(),
            decreases self@.unread.len(), u64::MAX - self.produced,
        {
            let ghost before = *self;
            let input = slice_subrange(self.arrived.as_slice(), self.at, self.arrived.len());
            assert(input@ =~= before@.unread);
            assert(before@.body_so_far() + before@.unread =~= whole);
            let in_before: u64 = total_in(&self.inflater);
            let out_before: u64 = self.produced;
            let room: u64 = self.sink.len() as u64;
            let ended: bool = match inflate(&mut self.inflater, input, &mut self.sink) {
                None => {
                    self.inside = false;
                    proof {
                        lemma_no_stream(whole);
                    }
                    return Err(Error::EntryNotZlib);
                },
                Some(ended) => ended,
            };
            let n: usize = (total_in(&self.inflater) - in_before) as usize;
            self.produced = total_out(&self.inflater);
            self.accept(n);
            proof {
                let all = (taken + n) as int;
                assert(first.unread.take(all) =~= first.unread.take(taken as int)
                    + before@.unread.take(n as int));
                assert(first.unread.skip(all) =~= before@.unread.skip(n as int));
                assert(first.hashed + first.unread.take(all) =~= before@.hashed
                    + before@.unread.take(n as int));
                assert(first.kept matches Some(kept) ==> kept + first.unread.take(all) =~= (kept
                    + first.unread.take(taken as int)) + before@.unread.take(n as int));
                assert(first.body_so_far() + first.unread.take(all) =~= (first.body_so_far()
                    + first.unread.take(taken as int)) + before@.unread.take(n as int));
                taken = (taken + n) as nat;
            }
            if ended {
                self.inside = false;
                proof {
                    let stop = (whole.len() - self@.unread.len()) as int;
                    assert(whole.take(stop) =~= taken_in(self.inflater));
                    assert forall|end: int| #[trigger] ends_at(whole, end) implies end == stop by {
                        a_stream_has_one_end(whole, end as nat, stop as nat);
                    }
                }
                return check_body_length(self.produced, expected_size);
            }
            // What is still held back comes out without more input; a sink that
            // was not filled says that nothing is.
            if self.at == self.arrived.len() && self.produced - out_before < room {
                proof {
                    assert(self@.body_so_far() =~= whole);
                    assert forall|end: int| #[trigger] ends_at(whole, end) implies false by {
                        if end < whole.len() {
                            assert(zlib_whole(whole.take(end)) is None);
                        } else {
                            assert(whole.take(end) =~= whole);
                        }
                    }
                }
                return if self.over {
                    Err(Error::StreamEnded)
                } else {
                    Ok(None)
                };
            }
        }
    }

    /// Finalizes the hash and checks it against the 20-byte pack trailer, which
    /// is read directly (not hashed) since it is metadata, not content.
    pub fn verify_trailer(&mut self) -> (r: Result<Option<()>, Error>)
        requires
            old(self).wf(),
        ensures
            final(self).wf(),
            if old(self)@.unread.len() < 20 {
                &&& r == (if old(self)@.over {
                    Err::<Option<()>, Error>(Error::StreamEnded)
                } else {
                    Ok(None)
                })
                &&& final(self)@ == old(self)@
            } else {
                let trailer = old(self)@.unread.take(20);
                &&& r == (if trailer == sha1_of(old(self)@.hashed) {
                    Ok::<Option<()>, Error>(Some(()))
                } else {
                    Err(Error::PackChecksum)
                })
                &&& final(self)@ == (ReaderState {
                    unread: old(self)@.unread.skip(20),
                    kept: keeping(old(self)@.kept, trailer),
                    hashed: Seq::empty(),
                    ..old(self)@
                })
            },
            final(self)@.arrived() == old(self)@.arrived(),
    {
        if self.arrived.len() - self.at < 20 {
            return if self.over {
                Err(Error::StreamEnded)
            } else {
                Ok(None)
            };
        }
        let mut trailer: Vec<u8> = Vec::new();
        append(&mut trailer, slice_subrange(self.arrived.as_slice(), self.at, self.at + 20));
        assert(trailer@ =~= old(self)@.unread.take(20));
        let computed = finish_hasher(&mut self.hasher);
        // Kept though deliberately not hashed: a copy without it is not the pack.
        self.keep(trailer.as_slice());
        self.at = self.at + 20;
        assert(self@.unread =~= old(self)@.unread.skip(20));
        proof {
            lemma_reading_keeps(old(self)@, 20);
        }
        check_trailer(computed.as_slice(), trailer.as_slice())
    }
}

/// Reading takes nothing away and adds nothing.
proof fn lemma_reading_keeps(state: ReaderState, n: nat)
    requires
        n <= state.unread.len(),
    ensures
        state.accepting(n).arrived() == state.arrived(),
{
    let taken = state.unread.take(n as int);
    let rest = state.unread.skip(n as int);
    assert(state.kept matches Some(kept) ==> (kept + taken) + rest =~= kept + state.unread);
}

/// The copy that a reader keeps is, byte for byte, what it read: all that was
/// fed to it but what it has not read yet.
///
/// `trace` are the states that a reader went through and `fed` is what arrived
/// at each step, nothing where the step was no feeding. So over a pack with
/// something behind it, in however many pieces it arrives, the copy is the pack
/// once all of the pack was read and none of what is behind it.
pub proof fn the_copy_is_what_was_read(
    trace: Seq<ReaderState>,
    fed: Seq<Seq<u8>>,
    pack: Seq<u8>,
    behind: Seq<u8>,
)
    requires
        trace.len() == fed.len() + 1,
        trace[0].kept == Some(Seq::<u8>::empty()),
        trace[0].unread == Seq::<u8>::empty(),
        forall|i: int|
            0 <= i < fed.len() ==> #[trigger] trace[i + 1].arrived() == keeping(
                trace[i].arrived(),
                fed[i],
            ),
        fed.flatten_alt() == pack + behind,
        trace.last().unread.len() == behind.len(),
    ensures
        trace.last().unread == behind,
        trace.last().kept == Some(pack),
{
    lemma_arrived(trace, fed);
    let kept = trace.last().kept->0;
    assert((kept + trace.last().unread).len() == (pack + behind).len());
    assert(kept.len() == pack.len());
    assert(kept + trace.last().unread == pack + behind);
    assert(kept =~= (kept + trace.last().unread).take(pack.len() as int));
    assert(pack =~= (pack + behind).take(pack.len() as int));
    assert(trace.last().unread =~= (kept + trace.last().unread).skip(pack.len() as int));
    assert(behind =~= (pack + behind).skip(pack.len() as int));
}

proof fn lemma_arrived(trace: Seq<ReaderState>, fed: Seq<Seq<u8>>)
    requires
        trace.len() == fed.len() + 1,
        trace[0].kept == Some(Seq::<u8>::empty()),
        trace[0].unread == Seq::<u8>::empty(),
        forall|i: int|
            0 <= i < fed.len() ==> #[trigger] trace[i + 1].arrived() == keeping(
                trace[i].arrived(),
                fed[i],
            ),
    ensures
        trace.last().arrived() == Some(fed.flatten_alt()),
    decreases fed.len(),
{
    if fed.len() == 0 {
        assert(Seq::<u8>::empty() + Seq::<u8>::empty() =~= Seq::<u8>::empty());
    } else {
        let shorter = trace.drop_last();
        let before = fed.drop_last();
        assert forall|i: int| 0 <= i < before.len() implies #[trigger] shorter[i + 1].arrived()
            == keeping(shorter[i].arrived(), before[i]) by {
            assert(trace[i + 1].arrived() == keeping(trace[i].arrived(), fed[i]));
        }
        lemma_arrived(shorter, before);
        let n = fed.len() as int;
        assert(trace[(n - 1) + 1].arrived() == keeping(trace[n - 1].arrived(), fed[n - 1]));
    }
}

/// A reader that does not keep what it reads never has a copy.
pub proof fn nothing_is_kept_unasked(trace: Seq<ReaderState>, fed: Seq<Seq<u8>>)
    requires
        trace.len() == fed.len() + 1,
        trace[0].kept is None,
        forall|i: int|
            0 <= i < fed.len() ==> #[trigger] trace[i + 1].arrived() == keeping(
                trace[i].arrived(),
                fed[i],
            ),
    ensures
        trace.last().kept is None,
    decreases fed.len(),
{
    if fed.len() > 0 {
        let shorter = trace.drop_last();
        let before = fed.drop_last();
        assert forall|i: int| 0 <= i < before.len() implies #[trigger] shorter[i + 1].arrived()
            == keeping(shorter[i].arrived(), before[i]) by {
            assert(trace[i + 1].arrived() == keeping(trace[i].arrived(), fed[i]));
        }
        nothing_is_kept_unasked(shorter, before);
        let n = fed.len() as int;
        assert(trace[(n - 1) + 1].arrived() == keeping(trace[n - 1].arrived(), fed[n - 1]));
    }
}

/// A pack that was read to a good trailer is kept with it: the copy is what the
/// hash covers, and its digest behind that.
pub proof fn a_good_copy_ends_with_its_digest(before: ReaderState, after: ReaderState)
    requires
        before.kept == Some(before.hashed),
        before.unread.len() >= 20,
        before.unread.take(20) == sha1_of(before.hashed),
        after.kept == keeping(before.kept, before.unread.take(20)),
    ensures
        after.kept == Some(before.hashed + sha1_of(before.hashed)),
{
}

/// Until its trailer is read, what a pack's copy holds is what the hash covers.
pub proof fn the_copy_is_what_is_hashed(before: ReaderState, n: nat)
    requires
        before.kept == Some(before.hashed),
        n <= before.unread.len(),
    ensures
        before.accepting(n).kept == Some(before.accepting(n).hashed),
{
}

/// Bytes that no stream begins with hold none.
proof fn lemma_no_stream(bytes: Seq<u8>)
    requires
        !begins_stream(bytes),
    ensures
        !holds_stream(bytes),
        forall|end: int| !#[trigger] ends_at(bytes, end),
{
    assert(bytes + Seq::<u8>::empty() =~= bytes);
    if holds_stream(bytes) {
        assert(holds_stream(bytes + Seq::<u8>::empty()));
    }
}

/// Whether a body inflated to what its header promised.
pub fn check_body_length(produced: u64, expected_size: u64) -> (r: Result<Option<()>, Error>)
    ensures
        r == (if produced == expected_size {
            Ok::<Option<()>, Error>(Some(()))
        } else {
            Err(Error::EntryLength)
        }),
{
    if produced != expected_size {
        return Err(Error::EntryLength);
    }
    Ok(Some(()))
}

/// Whether a pack's trailer is the digest of what came before it.
pub fn check_trailer(computed: &[u8], trailer: &[u8]) -> (r: Result<Option<()>, Error>)
    ensures
        r == (if trailer@ == computed@ {
            Ok::<Option<()>, Error>(Some(()))
        } else {
            Err(Error::PackChecksum)
        }),
{
    if !same_bytes(computed, trailer) {
        return Err(Error::PackChecksum);
    }
    Ok(Some(()))
}

fn pack_header_front(data: &[u8]) -> (front: Front<u32>)
    ensures
        front.parsed() == parse_pack_header(data@),
        front.fits(data@),
{
    if data.len() < 12 {
        return Front::NeedsMore;
    }
    let magic: [u8; 4] = [0x50, 0x41, 0x43, 0x4b];
    assert(magic@ =~= seq![0x50u8, 0x41u8, 0x43u8, 0x4bu8]);
    assert(data@.subrange(0, 4) =~= data@.take(4));
    if !same_bytes(slice_subrange(data, 0, 4), magic.as_slice()) {
        return Front::Refused(Error::PackMagic);
    }
    proof {
        lemma_byte_ranges();
    }
    if read_be(slice_subrange(data, 4, 8)) != 2 {
        return Front::Refused(Error::PackVersion);
    }
    Front::Read(read_be(slice_subrange(data, 8, 12)) as u32, 12)
}

fn size_front(data: &[u8]) -> (front: Front<u64>)
    ensures
        front.parsed() == parse_size(data@),
        front.fits(data@),
        front matches Front::Read(_, n) ==> n >= 1,
{
    if data.len() == 0 {
        return Front::NeedsMore;
    }
    let first: u8 = data[0];
    if first < 128 {
        return Front::Read((first % 16) as u64, 1);
    }
    let ghost rest = data@.skip(1);
    let mut value: u128 = 0;
    let mut scale: u128 = 1;
    let mut i: usize = 0;
    assert(rest.take(0) =~= Seq::<u8>::empty());
    while i < data.len() - 1
        invariant
            rest == data@.skip(1),
            data@.len() >= 1,
            first == data@[0],
            first >= 128,
            i <= rest.len(),
            i <= 9,
            value == varint_sum(rest.take(i as int)),
            value < scale,
            scale == place(i as nat),
            varint_end(rest, 0) == varint_end(rest, i as nat),
        decreases rest.len() - i,
    {
        if i == 9 {
            proof {
                lemma_end_bounds(rest, i as nat);
            }
            return Front::Refused(Error::EntrySizeOverflow);
        }
        proof {
            assert(rest.take(i + 1).drop_last() =~= rest.take(i as int));
            reveal_with_fuel(place, 10);
            assert(place(i as nat) <= place(8));
            assert(place((i + 1) as nat) == 128 * place(i as nat));
        }
        let byte: u8 = data[1 + i];
        let digit: u128 = (byte % 128) as u128;
        assert(digit * scale <= 127 * scale) by (nonlinear_arith)
            requires
                digit <= 127,
        ;
        value = value + digit * scale;
        scale = scale * 128;
        i = i + 1;
        if byte < 128 {
            let whole: u128 = (first % 16) as u128 + 16 * value;
            return Front::Read((whole % 0x1_0000_0000_0000_0000) as u64, i + 1);
        }
    }
    Front::NeedsMore
}

fn distance_front(data: &[u8]) -> (front: Front<u64>)
    ensures
        front.parsed() == parse_distance(data@),
        front.fits(data@),
{
    if data.len() == 0 {
        return Front::NeedsMore;
    }
    let first: u8 = data[0];
    if first < 128 {
        return Front::Read(first as u64, 1);
    }
    let mut value: u64 = (first % 128) as u64;
    let mut i: usize = 1;
    while i < data.len()
        invariant
            1 <= i <= data@.len(),
            parse_distance(data@) == parse_distance_from(data@, i as nat, value as nat),
        decreases data@.len() - i,
    {
        if value == u64::MAX {
            return Front::Refused(Error::DistanceOverflow);
        }
        let byte: u8 = data[i];
        let shifted: u128 = (value as u128 + 1) * 128 % 0x1_0000_0000_0000_0000;
        assert(shifted <= 0x1_0000_0000_0000_0000 - 128) by {
            let whole = (value + 1) * 128;
            assert(whole % 0x1_0000_0000_0000_0000 <= 0x1_0000_0000_0000_0000 - 128)
                by (nonlinear_arith)
                requires
                    whole == (value + 1) * 128,
            ;
        }
        value = shifted as u64 + (byte % 128) as u64;
        i = i + 1;
        if byte < 128 {
            return Front::Read(value, i);
        }
    }
    Front::NeedsMore
}

fn kind_for(type_id: u8) -> (kind: Option<Kind>)
    ensures
        kind == kind_of_type(type_id),
{
    if type_id == 1 {
        Some(Kind::Commit)
    } else if type_id == 2 {
        Some(Kind::Tree)
    } else if type_id == 3 {
        Some(Kind::Blob)
    } else if type_id == 4 {
        Some(Kind::Tag)
    } else {
        None
    }
}

fn entry_header_front(data: &[u8]) -> (front: Front<(EntryHeader, u64)>)
    ensures
        front.parsed() == parse_entry_header(data@),
        front.fits(data@),
{
    let (size, n) = match size_front(data) {
        Front::NeedsMore => {
            return Front::NeedsMore;
        },
        Front::Refused(e) => {
            return Front::Refused(e);
        },
        Front::Read(size, n) => (size, n),
    };
    let type_id: u8 = data[0] / 16 % 8;
    let rest = slice_subrange(data, n, data.len());
    assert(rest@ =~= data@.skip(n as int));
    if type_id == 6 {
        match distance_front(rest) {
            Front::NeedsMore => Front::NeedsMore,
            Front::Refused(e) => Front::Refused(e),
            Front::Read(base_distance, m) => Front::Read(
                (EntryHeader::OfsDelta { base_distance }, size),
                n + m,
            ),
        }
    } else if type_id == 7 {
        if rest.len() < 20 {
            return Front::NeedsMore;
        }
        assert(rest@.subrange(0, 20) =~= rest@.take(20));
        let base_id = ObjectId::from_bytes(slice_subrange(rest, 0, 20));
        Front::Read((EntryHeader::RefDelta { base_id }, size), n + 20)
    } else {
        match kind_for(type_id) {
            Some(kind) => Front::Read((EntryHeader::Full(kind), size), n),
            None => Front::Refused(Error::EntryType),
        }
    }
}

} // verus!
