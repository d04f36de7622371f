//! Finding a pack's entries while it arrives.
//!
//! The scan reads the pack once, keeps a verbatim copy, and notes where each
//! entry sits, rebuilding nothing. The trailer is checked before any object is
//! rebuilt: a corrupt pack costs one pass.

use vstd::prelude::*;

use crate::deps::digest::sha1_of;
use crate::deps::zlib::{begins_stream, ends_at, nothing_shorter_is_whole, zlib_whole};
use crate::error::Error;
use crate::ingest::pack::{EntryBase, RawSpan, ScannedEntry};
use crate::ordmap::OrdMap;
use crate::packfile::format::{EntryHeader, MAX_OBJECT_BYTES, MAX_PACK_OBJECTS};
use crate::packfile::parse::{
    a_stream_has_one_end, parse_entry_header, parse_pack_header, reading_is_local,
    reading_is_stable, Parsed,
};
use crate::packfile::reader::{PackReader, ReaderState};

verus! {

/// The most that a length hint may reserve ahead: a wrong one should cost a
/// reallocation, not gigabytes before the first byte is read.
pub const MAX_HINT_BYTES: u64 = 1_073_741_824;

/// The last of `entries` that starts at `offset`.
pub open spec fn last_at(entries: Seq<ScannedEntry>, offset: u64) -> Option<usize>
    decreases entries.len(),
{
    if entries.len() == 0 {
        None
    } else if entries.last().entry.offset == offset {
        Some((entries.len() - 1) as usize)
    } else {
        last_at(entries.drop_last(), offset)
    }
}

/// What the entry that starts at `start` needs, given those before it.
///
/// A base distance counts back from the entry's own start, and has to reach the
/// start of an earlier one.
pub open spec fn resolved(
    header: EntryHeader,
    start: u64,
    earlier: Seq<ScannedEntry>,
) -> Result<EntryBase, Error> {
    match header {
        EntryHeader::Full(kind) => Ok(EntryBase::Whole(kind)),
        EntryHeader::RefDelta { base_id } => Ok(EntryBase::Ref(base_id)),
        EntryHeader::OfsDelta { base_distance } => if base_distance > start {
            Err(Error::BaseBeforePack)
        } else {
            match last_at(earlier, (start - base_distance) as u64) {
                Some(at) => Ok(EntryBase::InPack(at)),
                None => Err(Error::BaseNotAnEntry),
            }
        },
    }
}

/// Where the entry behind `entries` starts.
pub open spec fn next_start(entries: Seq<ScannedEntry>) -> int {
    if entries.len() == 0 {
        12
    } else {
        entries.last().entry.offset + entries.last().entry.len
    }
}

/// Whether an acceptable header stands at `start`, and says this.
pub open spec fn heads(
    data: Seq<u8>,
    earlier: Seq<ScannedEntry>,
    start: u64,
    header_len: usize,
    base: EntryBase,
    size: u64,
) -> bool {
    match parse_entry_header(data.skip(start as int)) {
        Parsed::Read { value, len } => {
            &&& len == header_len
            &&& value.1 == size
            &&& size <= MAX_OBJECT_BYTES
            &&& resolved(value.0, start, earlier) == Ok::<EntryBase, Error>(base)
        },
        _ => false,
    }
}

/// Whether `entry` is what stands in `data` behind `earlier`.
#[verifier::opaque]
pub open spec fn stands_next(
    data: Seq<u8>,
    earlier: Seq<ScannedEntry>,
    entry: ScannedEntry,
) -> bool {
    let start = entry.entry.offset as int;
    let end = start + entry.entry.len;
    let body = data.subrange(start + entry.header_len, end);
    &&& start == next_start(earlier)
    &&& end <= data.len()
    &&& entry.header_len <= entry.entry.len
    &&& heads(
        data,
        earlier,
        entry.entry.offset,
        entry.header_len,
        entry.base,
        entry.decompressed_size,
    )
    &&& zlib_whole(body) == Some(entry.decompressed_size as nat)
    &&& nothing_shorter_is_whole(body)
}

/// Whether `entries` are what stands in `data`, from the first on.
pub open spec fn stand_in(data: Seq<u8>, entries: Seq<ScannedEntry>) -> bool {
    forall|i: int|
        0 <= i < entries.len() ==> stands_next(data, entries.take(i), #[trigger] entries[i])
}

/// Whether a pack is whole, with these entries: a header that counts them, the
/// entries end to end, and the digest of all that.
pub open spec fn is_pack(pack: Seq<u8>, entries: Seq<ScannedEntry>) -> bool {
    let end = next_start(entries);
    &&& parse_pack_header(pack) == (Parsed::Read { value: entries.len() as u32, len: 12 })
    &&& entries.len() <= MAX_PACK_OBJECTS
    &&& stand_in(pack, entries)
    &&& pack.len() == end + 20
    &&& pack.skip(end) == sha1_of(pack.take(end))
}

/// An entry that stands in `data` stands in everything that starts with as much
/// of it as the entry takes.
#[verifier::spinoff_prover]
#[verifier::rlimit(40)]
proof fn lemma_stands_elsewhere(
    data: Seq<u8>,
    other: Seq<u8>,
    earlier: Seq<ScannedEntry>,
    entry: ScannedEntry,
    n: int,
)
    requires
        stands_next(data, earlier, entry),
        0 <= n <= data.len(),
        n <= other.len(),
        entry.entry.offset + entry.entry.len <= n,
        other.take(n) == data.take(n),
    ensures
        stands_next(other, earlier, entry),
{
    reveal(stands_next);
    let start = entry.entry.offset as int;
    let h = entry.header_len as int;
    let end = start + entry.entry.len;
    reading_is_local(data.skip(start), other.skip(start));
    assert(data.skip(start).take(h) =~= data.take(n).subrange(start, start + h));
    assert(other.skip(start).take(h) =~= other.take(n).subrange(start, start + h));
    assert(data.subrange(start + h, end) =~= data.take(n).subrange(start + h, end));
    assert(other.subrange(start + h, end) =~= other.take(n).subrange(start + h, end));
}

/// Entries that stand in `data` stand in everything that starts with as much of
/// it as they take.
proof fn lemma_stand_elsewhere(data: Seq<u8>, other: Seq<u8>, entries: Seq<ScannedEntry>, n: int)
    requires
        stand_in(data, entries),
        12 <= n <= data.len(),
        n <= other.len(),
        next_start(entries) <= n,
        other.take(n) == data.take(n),
    ensures
        stand_in(other, entries),
    decreases entries.len(),
{
    if entries.len() > 0 {
        let last = entries.last();
        let earlier = entries.drop_last();
        assert(entries.take(entries.len() - 1) =~= earlier);
        assert(stands_next(data, entries.take(entries.len() - 1), entries[entries.len() - 1]));
        assert(last.entry.offset == next_start(earlier)) by {
            reveal(stands_next);
        }
        assert forall|i: int| 0 <= i < earlier.len() implies stands_next(
            data,
            earlier.take(i),
            #[trigger] earlier[i],
        ) by {
            assert(entries[i] == earlier[i]);
            assert(entries.take(i) =~= earlier.take(i));
        }
        lemma_stand_elsewhere(data, other, earlier, n);
        lemma_stands_elsewhere(data, other, earlier, last, n);
        assert forall|i: int| 0 <= i < entries.len() implies stands_next(
            other,
            entries.take(i),
            #[trigger] entries[i],
        ) by {
            if i < earlier.len() {
                assert(entries[i] == earlier[i]);
                assert(entries.take(i) =~= earlier.take(i));
            }
        }
    }
}

/// One more entry in its place.
pub(crate) proof fn lemma_stand_push(data: Seq<u8>, entries: Seq<ScannedEntry>, entry: ScannedEntry)
    requires
        stand_in(data, entries),
        stands_next(data, entries, entry),
    ensures
        stand_in(data, entries.push(entry)),
{
    let all = entries.push(entry);
    assert forall|i: int| 0 <= i < all.len() implies stands_next(
        data,
        all.take(i),
        #[trigger] all[i],
    ) by {
        if i < entries.len() {
            assert(all[i] == entries[i]);
            assert(all.take(i) =~= entries.take(i));
        } else {
            assert(all.take(i) =~= entries);
        }
    }
}

/// Two scans of one pack found the same: nothing in it can be read two ways.
pub proof fn a_pack_scans_one_way(
    pack: Seq<u8>,
    a: Seq<ScannedEntry>,
    b: Seq<ScannedEntry>,
)
    requires
        is_pack(pack, a),
        is_pack(pack, b),
    ensures
        a == b,
{
    assert(a.len() == b.len());
    lemma_scans_one_way(pack, a, b, a.len() as int);
    assert(a.take(a.len() as int) =~= a);
    assert(b.take(b.len() as int) =~= b);
}

#[verifier::spinoff_prover]
#[verifier::rlimit(40)]
proof fn lemma_scans_one_way(
    pack: Seq<u8>,
    a: Seq<ScannedEntry>,
    b: Seq<ScannedEntry>,
    n: int,
)
    requires
        stand_in(pack, a),
        stand_in(pack, b),
        0 <= n <= a.len(),
        n <= b.len(),
    ensures
        a.take(n) == b.take(n),
    decreases n,
{
    if n > 0 {
        reveal(stands_next);
        lemma_scans_one_way(pack, a, b, n - 1);
        let x = a[n - 1];
        let y = b[n - 1];
        assert(stands_next(pack, a.take(n - 1), a[n - 1]));
        assert(stands_next(pack, b.take(n - 1), b[n - 1]));
        let start = x.entry.offset as int;
        let h = x.header_len as int;
        let rest = pack.skip(start + h);
        let la = (x.entry.len - h) as nat;
        let lb = (y.entry.len - h) as nat;
        assert(rest.take(la as int) =~= pack.subrange(start + h, start + x.entry.len));
        assert(rest.take(lb as int) =~= pack.subrange(start + h, start + y.entry.len));
        a_stream_has_one_end(rest, la, lb);
        assert(x == y);
        assert(a.take(n) =~= a.take(n - 1).push(x));
        assert(b.take(n) =~= b.take(n - 1).push(y));
    } else {
        assert(a.take(0) =~= b.take(0));
    }
}

/// What an entry deltas against within its pack comes before it.
pub proof fn bases_come_first(pack: Seq<u8>, entries: Seq<ScannedEntry>, i: int)
    requires
        is_pack(pack, entries),
        0 <= i < entries.len(),
    ensures
        entries[i].base matches EntryBase::InPack(at) ==> at < i,
{
    reveal(stands_next);
    assert(stands_next(pack, entries.take(i), entries[i]));
    if let EntryBase::InPack(at) = entries[i].base {
        let parsed = parse_entry_header(pack.skip(entries[i].entry.offset as int));
        if let Parsed::Read { value, len: _ } = parsed {
            if let EntryHeader::OfsDelta { base_distance } = value.0 {
                let back = (entries[i].entry.offset - base_distance) as u64;
                lemma_last_at(entries.take(i), back);
            }
        }
    }
}

proof fn lemma_last_at(entries: Seq<ScannedEntry>, offset: u64)
    requires
        entries.len() <= MAX_PACK_OBJECTS,
    ensures
        last_at(entries, offset) matches Some(at) ==> at < entries.len()
            && entries[at as int].entry.offset == offset,
    decreases entries.len(),
{
    if entries.len() > 0 {
        lemma_last_at(entries.drop_last(), offset);
    }
}

/// What a scan reads next.
#[derive(Clone, Copy, Debug, PartialEq, Eq, Structural)]
pub enum ScanStage {
    /// The pack's header.
    Start,
    /// An entry's header, or the trailer once all entries were read.
    Between,
    /// The rest of the body of the entry that starts at `start`.
    Inside { start: u64, header_len: usize, base: EntryBase, size: u64 },
    /// Nothing: the pack is whole.
    Done,
}

/// How far a scan has come.
#[verifier::ext_equal]
pub struct ScanState {
    /// Everything that arrived.
    pub arrived: Seq<u8>,
    /// Whether nothing more will arrive.
    pub over: bool,
    /// The entries found so far.
    pub entries: Seq<ScannedEntry>,
    pub stage: ScanStage,
}

/// Whether an index says of every offset which entry starts there.
spec fn finds(index: Map<u64, usize>, entries: Seq<ScannedEntry>) -> bool {
    forall|offset: u64|
        match #[trigger] last_at(entries, offset) {
            Some(at) => index.contains_key(offset) && index[offset] == at,
            None => !index.contains_key(offset),
        }
}

/// What holds of a reader that stands where `stage` says, `entries` of `count`
/// having been found.
spec fn stands(
    reader: ReaderState,
    stage: ScanStage,
    count: nat,
    entries: Seq<ScannedEntry>,
) -> bool {
    let kept = reader.kept->0;
    let data = kept + reader.unread;
    &&& reader.kept is Some
    &&& match stage {
        ScanStage::Start => {
            &&& kept.len() == 0
            &&& reader.hashed == kept
            &&& reader.position == 0
            &&& reader.body is None
            &&& entries.len() == 0
        },
        ScanStage::Between => {
            &&& is_under_way(reader, count, entries)
            &&& entries.len() <= count
            &&& next_start(entries) == kept.len()
            &&& reader.body is None
        },
        ScanStage::Inside { start, header_len, base, size } => {
            let from = start + header_len;
            &&& is_under_way(reader, count, entries)
            &&& entries.len() < count
            &&& next_start(entries) == start
            &&& from <= kept.len()
            &&& heads(data, entries, start, header_len, base, size)
            &&& reader.body_so_far() == kept.skip(from)
        },
        ScanStage::Done => is_pack(kept, entries),
    }
}

/// What holds of a reader between the pack's header and its trailer.
spec fn is_under_way(reader: ReaderState, count: nat, entries: Seq<ScannedEntry>) -> bool {
    let kept = reader.kept->0;
    let data = kept + reader.unread;
    &&& parse_pack_header(data) == (Parsed::Read { value: count as u32, len: 12 })
    &&& count <= MAX_PACK_OBJECTS
    &&& stand_in(data, entries)
    &&& 12 <= next_start(entries) <= kept.len()
    &&& reader.hashed == kept
    &&& reader.position == kept.len()
}

/// A scan of a pack as it arrives.
pub struct PackScan {
    reader: PackReader,
    stage: ScanStage,
    count: usize,
    entries: Vec<ScannedEntry>,
    index_by_offset: OrdMap<u64, usize>,
}

impl View for PackScan {
    type V = ScanState;

    closed spec fn view(&self) -> ScanState {
        ScanState {
            arrived: self.reader@.kept->0 + self.reader@.unread,
            over: self.reader@.over,
            entries: self.entries@,
            stage: self.stage,
        }
    }
}

impl PackScan {
    pub closed spec fn wf(self) -> bool {
        &&& self.reader.wf()
        &&& stands(self.reader@, self.stage, self.count as nat, self.entries@)
        &&& finds(self.index_by_offset@, self.entries@)
    }

    /// Start a scan. `len_hint` is how long the pack is said to be, if anything
    /// is known; it only sizes the copy.
    pub fn new(len_hint: Option<u64>) -> (scan: PackScan)
        ensures
            scan.wf(),
            scan@ == (ScanState {
                arrived: Seq::empty(),
                over: false,
                entries: Seq::empty(),
                stage: ScanStage::Start,
            }),
    {
        let hint: u64 = match len_hint {
            Some(hint) => if hint < MAX_HINT_BYTES {
                hint
            } else {
                MAX_HINT_BYTES
            },
            None => 0,
        };
        let scan = PackScan {
            reader: PackReader::retaining(hint as usize),
            stage: ScanStage::Start,
            count: 0,
            entries: Vec::new(),
            index_by_offset: OrdMap::new(),
        };
        assert(scan@.arrived =~= Seq::<u8>::empty());
        scan
    }

    /// Hand over what arrived next.
    pub fn feed(&mut self, bytes: &[u8])
        requires
            old(self).wf(),
        ensures
            final(self).wf(),
            final(self)@ == (ScanState { arrived: old(self)@.arrived + bytes@, ..old(self)@ }),
    {
        let ghost data = self@.arrived;
        self.reader.feed(bytes);
        proof {
            let more = data + bytes@;
            assert(self@.arrived =~= more);
            assert(more.take(data.len() as int) =~= data.take(data.len() as int));
            if self.stage is Between || self.stage is Inside {
                reading_is_stable(data, bytes@);
                lemma_stand_elsewhere(data, more, self.entries@, data.len() as int);
            }
            if let ScanStage::Inside { start, .. } = self.stage {
                assert(more.skip(start as int) =~= data.skip(start as int) + bytes@);
                reading_is_stable(data.skip(start as int), bytes@);
            }
        }
    }

    /// Nothing more will arrive.
    pub fn finish(&mut self)
        requires
            old(self).wf(),
        ensures
            final(self).wf(),
            final(self)@ == (ScanState { over: true, ..old(self)@ }),
    {
        self.reader.finish();
    }
}

/// Why the entry behind `entries` is refused.
pub open spec fn entry_refused(data: Seq<u8>, entries: Seq<ScannedEntry>, error: Error) -> bool {
    let start = next_start(entries);
    match parse_entry_header(data.skip(start)) {
        Parsed::NeedsMore => false,
        Parsed::Refused(why) => error == why,
        Parsed::Read { value, len } => if value.1 > MAX_OBJECT_BYTES {
            error == Error::ObjectTooLarge
        } else {
            match resolved(value.0, start as u64, entries) {
                Err(why) => error == why,
                Ok(_) => error == Error::EntryNotZlib && !begins_stream(data.skip(start + len))
                    || error == Error::EntryLength && exists|
                    end: int,
                |
                    start + len <= end <= data.len() && {
                        let produced = #[trigger] zlib_whole(data.subrange(start + len, end));
                        produced is Some && produced->0 != value.1
                    },
            }
        },
    }
}

/// Why a scan that found `entries` goes no further.
pub open spec fn refused(
    data: Seq<u8>,
    over: bool,
    entries: Seq<ScannedEntry>,
    error: Error,
) -> bool {
    let end = next_start(entries);
    ||| over && error == Error::StreamEnded
    ||| match parse_pack_header(data) {
        Parsed::NeedsMore => false,
        Parsed::Refused(why) => error == why,
        Parsed::Read { value: count, len: _ } => if count > MAX_PACK_OBJECTS {
            error == Error::TooManyObjects
        } else {
            &&& stand_in(data, entries)
            &&& entries.len() <= count
            &&& if entries.len() < count {
                entry_refused(data, entries, error)
            } else {
                &&& error == Error::PackChecksum
                &&& end + 20 <= data.len()
                &&& data.subrange(end, end + 20) != sha1_of(data.take(end))
            }
        },
    }
}

/// Whether the body at `from` has ended, with something behind it, and is not
/// as long as its header says.
pub open spec fn is_misjudged(data: Seq<u8>, from: int, size: u64) -> bool {
    exists|end: int| #[trigger]
        ends_at(data.skip(from), end) && end < data.skip(from).len() && zlib_whole(
            data.skip(from).take(end),
        ) != Some(size as nat)
}

/// What the bytes behind `entries` settle of the next entry: that it is refused,
/// and why; nothing while it may still stand.
pub open spec fn entry_verdict(data: Seq<u8>, entries: Seq<ScannedEntry>) -> Option<Error> {
    let start = next_start(entries);
    match parse_entry_header(data.skip(start)) {
        Parsed::NeedsMore => None,
        Parsed::Refused(why) => Some(why),
        Parsed::Read { value, len } => if value.1 > MAX_OBJECT_BYTES {
            Some(Error::ObjectTooLarge)
        } else {
            match resolved(value.0, start as u64, entries) {
                Err(why) => Some(why),
                Ok(_) => if is_misjudged(data, start + len, value.1) {
                    Some(Error::EntryLength)
                } else {
                    None
                },
            }
        },
    }
}

/// What the bytes settle of a pack in which `entries` stand: that it is whole
/// with these entries, or that it is refused, and why; nothing while neither can
/// be told.
pub open spec fn verdict(data: Seq<u8>, entries: Seq<ScannedEntry>) -> Option<Result<(), Error>> {
    let end = next_start(entries);
    match parse_pack_header(data) {
        Parsed::NeedsMore => None,
        Parsed::Refused(why) => Some(Err(why)),
        Parsed::Read { value: count, len: _ } => if count > MAX_PACK_OBJECTS {
            Some(Err(Error::TooManyObjects))
        } else if !stand_in(data, entries) || entries.len() > count {
            None
        } else if entries.len() < count {
            match entry_verdict(data, entries) {
                Some(why) => Some(Err(why)),
                None => None,
            }
        } else if data.len() < end + 20 {
            None
        } else if data.subrange(end, end + 20) == sha1_of(data.take(end)) {
            Some(Ok(()))
        } else {
            Some(Err(Error::PackChecksum))
        },
    }
}

/// Whether an entry stands behind `entries` and something behind it.
spec fn entry_follows(data: Seq<u8>, entries: Seq<ScannedEntry>) -> bool {
    exists|entry: ScannedEntry| #[trigger]
        stands_next(data, entries, entry) && entry.entry.offset + entry.entry.len < data.len()
}

/// Whether `entries` are as many as the pack's header says.
spec fn are_all(data: Seq<u8>, entries: Seq<ScannedEntry>) -> bool {
    parse_pack_header(data) matches Parsed::Read { value: count, len: _ } && entries.len() == count
}

/// Whether a scan that found `entries` may end in `r`: they are all or no other
/// follows, and what is settled is what it says.
spec fn gives_up(data: Seq<u8>, entries: Seq<ScannedEntry>, r: Result<bool, Error>) -> bool {
    &&& are_all(data, entries) || !entry_follows(data, entries)
    &&& match verdict(data, entries) {
        None => true,
        Some(Ok(_)) => false,
        Some(Err(why)) => r == Err::<bool, Error>(why),
    }
}

/// A pack's entries start behind its header.
proof fn lemma_ends_within(pack: Seq<u8>, entries: Seq<ScannedEntry>)
    requires
        is_pack(pack, entries),
    ensures
        12 <= next_start(entries) <= pack.len(),
{
    reveal(stands_next);
    reading_is_local(pack, pack);
    if entries.len() > 0 {
        let k = entries.len() - 1;
        assert(stands_next(pack, entries.take(k), entries[k]));
        lemma_starts_behind(pack, entries, k);
    }
}

proof fn lemma_starts_behind(pack: Seq<u8>, entries: Seq<ScannedEntry>, k: int)
    requires
        stand_in(pack, entries),
        0 <= k < entries.len(),
    ensures
        entries[k].entry.offset >= 12,
    decreases k,
{
    reveal(stands_next);
    assert(stands_next(pack, entries.take(k), entries[k]));
    if k > 0 {
        lemma_starts_behind(pack, entries, k - 1);
        assert(entries.take(k).last() == entries[k - 1]);
    }
}

/// Nothing is settled of entries that are not all that stand.
#[verifier::spinoff_prover]
#[verifier::rlimit(40)]
proof fn lemma_verdict_falls_later(
    data: Seq<u8>,
    entries: Seq<ScannedEntry>,
    k: int,
)
    requires
        stand_in(data, entries),
        0 <= k < entries.len(),
        parse_pack_header(data) matches Parsed::Read { value: count, len: _ } && entries.len()
            <= count <= MAX_PACK_OBJECTS,
    ensures
        verdict(data, entries.take(k)) is None,
{
    reveal(stands_next);
    let entry = entries[k];
    let earlier = entries.take(k);
    assert(stands_next(data, entries.take(k), entries[k]));
    let from = (entry.entry.offset + entry.header_len) as int;
    let rest = data.skip(from);
    let n = (entry.entry.len - entry.header_len) as nat;
    assert(rest.take(n as int) =~= data.subrange(from, entry.entry.offset + entry.entry.len));
    if is_misjudged(data, from, entry.decompressed_size) {
        let end = choose|end: int| #[trigger]
            ends_at(rest, end) && end < rest.len() && zlib_whole(rest.take(end)) != Some(
                entry.decompressed_size as nat,
            );
        a_stream_has_one_end(rest, n, end as nat);
    }
}

/// Behind each of the entries that a verdict is about there is something more.
#[verifier::spinoff_prover]
#[verifier::rlimit(40)]
proof fn lemma_something_follows(data: Seq<u8>, entries: Seq<ScannedEntry>, k: int)
    requires
        parse_pack_header(data) matches Parsed::Read { value: count, len: _ } && count
            <= MAX_PACK_OBJECTS,
        verdict(data, entries) is Some,
        stand_in(data, entries),
        0 <= k < entries.len(),
    ensures
        entry_follows(data, entries.take(k)),
{
    reveal(stands_next);
    let entry = entries[k];
    assert(stands_next(data, entries.take(k), entries[k]));
    let end = (entry.entry.offset + entry.entry.len) as int;
    assert(entries.take(k + 1).last() == entry);
    assert(next_start(entries.take(k + 1)) == end);
    if k + 1 < entries.len() {
        assert(stands_next(data, entries.take(k + 1), entries[k + 1]));
        if end == data.len() {
            assert(data.skip(end) =~= Seq::<u8>::empty());
        }
    } else {
        assert(entries.take(k + 1) =~= entries);
        if end == data.len() {
            assert(data.skip(end) =~= Seq::<u8>::empty());
        }
    }
}

/// No entry follows where no acceptable header does.
#[verifier::spinoff_prover]
proof fn lemma_no_header(data: Seq<u8>, entries: Seq<ScannedEntry>)
    ensures
        match parse_entry_header(data.skip(next_start(entries))) {
            Parsed::Read { value, len: _ } => value.1 > MAX_OBJECT_BYTES || resolved(
                value.0,
                next_start(entries) as u64,
                entries,
            ) is Err,
            _ => true,
        } ==> !entry_follows(data, entries),
{
    reveal(stands_next);
}

/// No entry follows where its body does not end as its header says, with
/// something behind it.
#[verifier::spinoff_prover]
proof fn lemma_no_body(
    data: Seq<u8>,
    entries: Seq<ScannedEntry>,
    start: u64,
    header_len: usize,
    base: EntryBase,
    size: u64,
)
    requires
        next_start(entries) == start,
        heads(data, entries, start, header_len, base, size),
        forall|end: int| #[trigger]
            ends_at(data.skip(start + header_len), end) && end < data.skip(
                start + header_len,
            ).len() ==> zlib_whole(data.skip(start + header_len).take(end)) != Some(size as nat),
    ensures
        !entry_follows(data, entries),
{
    reveal(stands_next);
    if entry_follows(data, entries) {
        let entry = choose|entry: ScannedEntry| #[trigger]
            stands_next(data, entries, entry) && entry.entry.offset + entry.entry.len < data.len();
        let rest = data.skip(start + header_len);
        let n = (entry.entry.len - header_len) as int;
        assert(rest.take(n) =~= data.subrange(start + header_len, start + entry.entry.len));
        assert(ends_at(rest, n));
    }
}

/// A scan that gives up says what is settled, whichever entries that is of.
#[verifier::spinoff_prover]
#[verifier::rlimit(40)]
proof fn lemma_given_up(
    data: Seq<u8>,
    entries: Seq<ScannedEntry>,
    r: Result<bool, Error>,
    found: Seq<ScannedEntry>,
)
    requires
        parse_pack_header(data) matches Parsed::Read { value: count, len: _ } && entries.len()
            <= count <= MAX_PACK_OBJECTS,
        stand_in(data, entries),
        gives_up(data, entries, r),
    ensures
        match verdict(data, found) {
            None => true,
            Some(Ok(_)) => false,
            Some(Err(why)) => r == Err::<bool, Error>(why),
        },
{
    if verdict(data, found) is Some {
        assert(stand_in(data, found));
        if found.len() < entries.len() {
            lemma_scans_one_way(data, entries, found, found.len() as int);
            assert(found.take(found.len() as int) =~= found);
            lemma_verdict_falls_later(data, entries, found.len() as int);
        } else {
            lemma_scans_one_way(data, entries, found, entries.len() as int);
            assert(entries.take(entries.len() as int) =~= entries);
            if found.len() > entries.len() {
                lemma_something_follows(data, found, entries.len() as int);
            } else {
                assert(found.take(entries.len() as int) =~= found);
            }
        }
    }
}

/// How one reading step of a scan ends.
spec fn stepped(before: PackScan, r: Result<bool, Error>, after: PackScan) -> bool {
    match r {
        Ok(on) => {
            &&& after.wf()
            &&& after@.arrived == before@.arrived
            &&& after@.over == before@.over
            &&& before@.entries == after@.entries.take(before@.entries.len() as int)
            &&& before@.entries.len() <= after@.entries.len()
            &&& !on ==> !before@.over
        },
        Err(error) => refused(before@.arrived, before@.over, before@.entries, error),
    }
}

impl PackScan {
    /// Read the pack's header.
    #[verifier::spinoff_prover]
    #[verifier::rlimit(60)]
    fn read_start(&mut self) -> (r: Result<bool, Error>)
        requires
            old(self).wf(),
            old(self).stage is Start,
        ensures
            stepped(*old(self), r, *final(self)),
            r matches Ok(on) ==> final(self).stage is Between == on,
            r matches Ok(on) ==> final(self).stage is Start == !on,
            r != Ok::<bool, Error>(true) ==> forall|found: Seq<ScannedEntry>|
                match #[trigger] verdict(old(self)@.arrived, found) {
                    None => true,
                    Some(Ok(_)) => false,
                    Some(Err(why)) => r == Err::<bool, Error>(why),
                },
    {
        let ghost data = self@.arrived;
        assert(data =~= self.reader@.unread);
        match self.reader.read_pack_header() {
            Err(error) => Err(error),
            Ok(None) => {
                assert(self@.entries.take(0) =~= self@.entries);
                Ok(false)
            },
            Ok(Some(count)) => {
                let count: usize = count as usize;
                if count > MAX_PACK_OBJECTS {
                    return Err(Error::TooManyObjects);
                }
                self.count = count;
                self.stage = ScanStage::Between;
                let _ = self.reader.kept_len();
                proof {
                    reading_is_local(data, data);
                    assert(self@.arrived =~= data);
                    assert(self.reader@.kept->0 =~= data.take(12));
                    assert(self.reader@.hashed =~= self.reader@.kept->0);
                    assert(self@.entries.take(0) =~= self@.entries);
                }
                Ok(true)
            },
        }
    }

    /// What an entry needs, given the entries before it.
    fn resolve(&self, header: EntryHeader, start: u64) -> (base: Result<EntryBase, Error>)
        requires
            finds(self.index_by_offset@, self.entries@),
        ensures
            base == resolved(header, start, self.entries@),
    {
        match header {
            EntryHeader::Full(kind) => Ok(EntryBase::Whole(kind)),
            EntryHeader::RefDelta { base_id } => Ok(EntryBase::Ref(base_id)),
            EntryHeader::OfsDelta { base_distance } => {
                if base_distance > start {
                    return Err(Error::BaseBeforePack);
                }
                let offset: u64 = start - base_distance;
                assert(last_at(self.entries@, offset) is Some
                    == self.index_by_offset@.contains_key(offset));
                match self.index_by_offset.get(&offset) {
                    Some(at) => Ok(EntryBase::InPack(*at)),
                    None => Err(Error::BaseNotAnEntry),
                }
            },
        }
    }

    /// Read the header of the next entry.
    #[verifier::spinoff_prover]
    #[verifier::rlimit(60)]
    fn read_header(&mut self) -> (r: Result<bool, Error>)
        requires
            old(self).wf(),
            old(self).stage is Between,
            old(self).entries@.len() < old(self).count,
        ensures
            stepped(*old(self), r, *final(self)),
            r is Ok ==> final(self).count == old(self).count,
            r is Ok ==> final(self).entries@ == old(self).entries@,
            r matches Ok(on) ==> final(self).stage is Inside == on,
            r matches Ok(on) ==> final(self).stage is Between == !on,
            r != Ok::<bool, Error>(true) ==> gives_up(old(self)@.arrived, old(self)@.entries, r),
    {
        let ghost data = self@.arrived;
        let ghost unread = self.reader@.unread;
        let ghost kept = self.reader@.kept->0;
        let start: u64 = self.reader.offset();
        proof {
            assert(data.skip(start as int) =~= unread);
            reading_is_local(unread, unread);
            lemma_no_header(data, self.entries@);
        }
        match self.reader.read_entry_header() {
            Err(error) => Err(error),
            Ok(None) => {
                assert(self@.entries.take(self@.entries.len() as int) =~= self@.entries);
                Ok(false)
            },
            Ok(Some((header, size))) => {
                let _ = self.reader.kept_len();
                let header_len: usize = (self.reader.offset() - start) as usize;
                if size > MAX_OBJECT_BYTES {
                    return Err(Error::ObjectTooLarge);
                }
                let base = match self.resolve(header, start) {
                    Ok(base) => base,
                    Err(error) => {
                        return Err(error);
                    },
                };
                self.stage = ScanStage::Inside { start, header_len, base, size };
                proof {
                    assert(self@.arrived =~= data);
                    assert(self.reader@.kept->0 =~= kept + unread.take(header_len as int));
                    assert(self.reader@.hashed =~= self.reader@.kept->0);
                    assert(self.reader@.body_so_far() =~= self.reader@.kept->0.skip(
                        start + header_len,
                    ));
                    assert(self@.entries.take(self@.entries.len() as int) =~= self@.entries);
                }
                Ok(true)
            },
        }
    }
}

/// A reader that read `n` more bytes of a body.
spec fn read_on(before: ReaderState, after: ReaderState, n: int) -> bool {
    &&& 0 <= n <= before.unread.len()
    &&& after.kept == Some(before.kept->0 + before.unread.take(n))
    &&& after.unread == before.unread.skip(n)
    &&& after.hashed == before.hashed + before.unread.take(n)
    &&& after.position == after.kept->0.len()
}

/// Further on in an entry's body.
#[verifier::spinoff_prover]
#[verifier::rlimit(40)]
proof fn lemma_further_on(
    before: ReaderState,
    after: ReaderState,
    stage: ScanStage,
    count: nat,
    entries: Seq<ScannedEntry>,
    n: int,
)
    requires
        stands(before, stage, count, entries),
        stage is Inside,
        read_on(before, after, n),
        after.body == Some(before.body_so_far() + before.unread.take(n)),
    ensures
        stands(after, stage, count, entries),
        after.kept->0 + after.unread == before.kept->0 + before.unread,
{
    let kept = before.kept->0;
    let from = (stage->start + stage->header_len) as int;
    assert(after.kept->0 + after.unread =~= kept + before.unread);
    assert(after.hashed =~= after.kept->0);
    assert(after.body_so_far() =~= after.kept->0.skip(from));
}

/// Past an entry's body.
#[verifier::spinoff_prover]
#[verifier::rlimit(40)]
proof fn lemma_past_body(
    before: ReaderState,
    after: ReaderState,
    stage: ScanStage,
    count: nat,
    entries: Seq<ScannedEntry>,
    entry: ScannedEntry,
    n: int,
)
    requires
        stands(before, stage, count, entries),
        stage is Inside,
        read_on(before, after, n),
        after.body is None,
        zlib_whole(before.body_so_far() + before.unread.take(n)) == Some(stage->size as nat),
        nothing_shorter_is_whole(before.body_so_far() + before.unread.take(n)),
        entry == (ScannedEntry {
            base: stage->base,
            decompressed_size: stage->size,
            entry: RawSpan {
                offset: stage->start,
                len: (after.kept->0.len() - stage->start) as usize,
            },
            header_len: stage->header_len,
        }),
        after.kept->0.len() <= usize::MAX,
    ensures
        stands(after, ScanStage::Between, count, entries.push(entry)),
        after.kept->0 + after.unread == before.kept->0 + before.unread,
{
    let kept = before.kept->0;
    let data = kept + before.unread;
    let from = (stage->start + stage->header_len) as int;
    assert(after.kept->0 + after.unread =~= data);
    assert(after.hashed =~= after.kept->0);
    assert(data.subrange(from, kept.len() + n) =~= before.body_so_far() + before.unread.take(n));
    assert(stands_next(data, entries, entry)) by {
        reveal(stands_next);
    }
    lemma_stand_push(data, entries, entry);
}

/// An index with the next entry in it.
#[verifier::spinoff_prover]
#[verifier::rlimit(40)]
proof fn lemma_finds_next(
    index: Map<u64, usize>,
    entries: Seq<ScannedEntry>,
    entry: ScannedEntry,
)
    requires
        finds(index, entries),
        entries.len() <= usize::MAX,
    ensures
        finds(index.insert(entry.entry.offset, entries.len() as usize), entries.push(entry)),
{
    let after = entries.push(entry);
    let next = index.insert(entry.entry.offset, entries.len() as usize);
    assert(after.drop_last() =~= entries);
    assert forall|offset: u64|
        match #[trigger] last_at(after, offset) {
            Some(at) => next.contains_key(offset) && next[offset] == at,
            None => !next.contains_key(offset),
        } by {
        assert(last_at(entries, offset) is Some == index.contains_key(offset));
    }
}

impl PackScan {
    /// Read on in an entry's body.
    #[verifier::spinoff_prover]
    #[verifier::rlimit(60)]
    fn read_body(&mut self) -> (r: Result<bool, Error>)
        requires
            old(self).wf(),
            old(self).stage is Inside,
        ensures
            stepped(*old(self), r, *final(self)),
            r is Ok ==> final(self).count == old(self).count,
            r matches Ok(true) ==> final(self).stage is Between && final(self).entries@.len()
                == old(self).entries@.len() + 1,
            r matches Ok(false) ==> final(self).stage is Inside,
            r != Ok::<bool, Error>(true) ==> gives_up(old(self)@.arrived, old(self)@.entries, r),
    {
        let ghost data = self@.arrived;
        let ghost unread = self.reader@.unread;
        let ghost kept = self.reader@.kept->0;
        let ghost before = self.entries@;
        let ghost first = self.reader@;
        let (start, header_len, base, size) = match self.stage {
            ScanStage::Inside { start, header_len, base, size } => (start, header_len, base, size),
            _ => {
                return Ok(false);
            },
        };
        let ghost from = start + header_len;
        assert(first.body_ahead() =~= data.skip(from));
        let r = self.reader.skip_entry_body(size);
        let ghost n = (unread.len() - self.reader@.unread.len()) as int;
        let ghost body = kept.skip(from) + unread.take(n);
        proof {
            assert(body =~= data.subrange(from, kept.len() + n));
            if r != Ok::<Option<()>, Error>(Some(())) {
                lemma_no_body(data, before, start, header_len, base, size);
            }
        }
        match r {
            Err(error) => {
                proof {
                    assert(next_start(before) == start);
                    if error == Error::EntryLength {
                        let produced = zlib_whole(data.subrange(from, kept.len() + n));
                        assert(produced is Some && produced->0 != size);
                    }
                }
                Err(error)
            },
            Ok(None) => {
                let _ = self.reader.kept_len();
                proof {
                    lemma_further_on(first, self.reader@, self.stage, self.count as nat, before, n);
                    assert(before.take(before.len() as int) =~= before);
                }
                Ok(false)
            },
            Ok(Some(_)) => {
                let _ = self.reader.kept_len();
                let len: usize = (self.reader.offset() - start) as usize;
                let entry = ScannedEntry {
                    base,
                    decompressed_size: size,
                    entry: RawSpan { offset: start, len },
                    header_len,
                };
                let at: usize = self.entries.len();
                proof {
                    lemma_past_body(
                        first,
                        self.reader@,
                        self.stage,
                        self.count as nat,
                        before,
                        entry,
                        n,
                    );
                    lemma_finds_next(self.index_by_offset@, before, entry);
                }
                let _ = self.index_by_offset.insert(start, at);
                self.entries.push(entry);
                self.stage = ScanStage::Between;
                assert(self.entries@.take(before.len() as int) =~= before);
                Ok(true)
            },
        }
    }

    /// Read the trailer.
    #[verifier::spinoff_prover]
    #[verifier::rlimit(60)]
    fn read_trailer(&mut self) -> (r: Result<bool, Error>)
        requires
            old(self).wf(),
            old(self).stage is Between,
            old(self).entries@.len() == old(self).count,
        ensures
            stepped(*old(self), r, *final(self)),
            r matches Ok(on) ==> final(self).stage is Done == on,
            r is Ok ==> final(self).count == old(self).count,
            r is Ok ==> final(self).entries@ == old(self).entries@,
            r != Ok::<bool, Error>(true) ==> gives_up(old(self)@.arrived, old(self)@.entries, r),
    {
        let ghost data = self@.arrived;
        let ghost unread = self.reader@.unread;
        let ghost kept = self.reader@.kept->0;
        let ghost entries = self.entries@;
        proof {
            assert(entries.take(entries.len() as int) =~= entries);
        }
        match self.reader.verify_trailer() {
            Err(error) => {
                proof {
                    if unread.len() >= 20 {
                        let end = next_start(entries);
                        assert(data.subrange(end, end + 20) =~= unread.take(20));
                        assert(data.take(end) =~= kept);
                    }
                }
                Err(error)
            },
            Ok(None) => Ok(false),
            Ok(Some(_)) => {
                self.stage = ScanStage::Done;
                proof {
                    let pack = self.reader@.kept->0;
                    let end = next_start(entries);
                    assert(self@.arrived =~= data);
                    assert(pack =~= kept + unread.take(20));
                    assert(pack.skip(end) =~= unread.take(20));
                    assert(pack.take(end) =~= kept);
                    assert(pack.take(end) =~= data.take(end));
                    lemma_stand_elsewhere(data, pack, entries, end);
                    reading_is_local(data, pack);
                    assert(pack.take(12) =~= data.take(12));
                }
                Ok(true)
            },
        }
    }

    /// Of a pack that is whole nothing else is settled, whatever follows it.
    #[verifier::spinoff_prover]
    proof fn lemma_done(self)
        requires
            self.wf(),
            self.stage is Done,
        ensures
            forall|found: Seq<ScannedEntry>|
                match #[trigger] verdict(self@.arrived, found) {
                    None => true,
                    Some(Ok(_)) => found == self@.entries,
                    Some(Err(_)) => false,
                },
    {
        let pack = self.reader@.kept->0;
        let data = self@.arrived;
        let entries = self.entries@;
        let end = next_start(entries);
        reading_is_stable(pack, self.reader@.unread);
        assert(data.take(pack.len() as int) =~= pack);
        assert(pack.take(pack.len() as int) =~= pack);
        lemma_ends_within(pack, entries);
        lemma_stand_elsewhere(pack, data, entries, pack.len() as int);
        assert(data.subrange(end, end + 20) =~= pack.skip(end));
        assert(data.take(end) =~= pack.take(end));
        assert forall|found: Seq<ScannedEntry>|
            match #[trigger] verdict(data, found) {
                None => true,
                Some(Ok(_)) => found == entries,
                Some(Err(_)) => false,
            } by {
            if verdict(data, found) is Some {
                assert(stand_in(data, found));
                lemma_scans_one_way(data, entries, found, found.len() as int);
                assert(found.take(found.len() as int) =~= found);
                if found.len() < entries.len() {
                    lemma_verdict_falls_later(data, entries, found.len() as int);
                } else {
                    assert(entries.take(found.len() as int) =~= entries);
                }
            }
        }
    }

    /// Read as far as what arrived allows, and say whether the pack is whole.
    ///
    /// Where it is not, more has to be fed; once nothing more will arrive, a
    /// scan that is not done fails. A pack that is whole is found to be, and one
    /// that has to be refused is. No more is said of which bytes fail as no
    /// deflate stream than that none begins with them.
    #[verifier::spinoff_prover]
    #[verifier::rlimit(60)]
    pub fn run(&mut self) -> (r: Result<bool, Error>)
        requires
            old(self).wf(),
        ensures
            match r {
                Ok(done) => {
                    &&& final(self).wf()
                    &&& final(self)@.arrived == old(self)@.arrived
                    &&& final(self)@.over == old(self)@.over
                    &&& done == (final(self)@.stage is Done)
                    &&& !done ==> !old(self)@.over
                },
                Err(error) => exists|found: Seq<ScannedEntry>| #[trigger]
                    refused(old(self)@.arrived, old(self)@.over, found, error),
            },
            forall|found: Seq<ScannedEntry>|
                match #[trigger] verdict(old(self)@.arrived, found) {
                    None => true,
                    Some(Ok(_)) => r == Ok::<bool, Error>(true) && final(self)@.entries == found,
                    Some(Err(why)) => r == Err::<bool, Error>(why),
                },
    {
        let ghost data = self@.arrived;
        loop
            invariant
                self.wf(),
                data == old(self)@.arrived,
                self@.arrived == data,
                self@.over == old(self)@.over,
            decreases
                    (if self.stage is Start {
                        MAX_PACK_OBJECTS + 1
                    } else {
                        self.count - self.entries@.len()
                    }),
                    (match self.stage {
                        ScanStage::Start => 2int,
                        ScanStage::Between => 2int,
                        ScanStage::Inside { .. } => 1int,
                        ScanStage::Done => 0int,
                    }),
        {
            let ghost found = self@.entries;
            let ghost stage = self.stage;
            let r = match self.stage {
                ScanStage::Done => {
                    proof {
                        self.lemma_done();
                    }
                    return Ok(true);
                },
                ScanStage::Start => self.read_start(),
                ScanStage::Inside { .. } => self.read_body(),
                ScanStage::Between => if self.entries.len() < self.count {
                    self.read_header()
                } else {
                    self.read_trailer()
                },
            };
            proof {
                if r != Ok::<bool, Error>(true) && !(stage is Start) {
                    assert forall|other: Seq<ScannedEntry>|
                        match #[trigger] verdict(data, other) {
                            None => true,
                            Some(Ok(_)) => false,
                            Some(Err(why)) => r == Err::<bool, Error>(why),
                        } by {
                        lemma_given_up(data, found, r, other);
                    }
                }
            }
            match r {
                Err(error) => {
                    assert(refused(old(self)@.arrived, old(self)@.over, found, error));
                    return Err(error);
                },
                Ok(false) => {
                    return Ok(false);
                },
                Ok(true) => {},
            }
        }
    }

    /// The entries found and the pack as it came, once the scan is done.
    pub fn into_parts(self) -> (parts: (Vec<ScannedEntry>, Vec<u8>))
        requires
            self.wf(),
            self@.stage is Done,
        ensures
            parts.0@ == self@.entries,
            is_pack(parts.1@, parts.0@),
            parts.1@.len() <= self@.arrived.len(),
            parts.1@ == self@.arrived.take(parts.1@.len() as int),
    {
        let mut reader = self.reader;
        let pack = reader.take_pack();
        assert(pack@ =~= self@.arrived.take(pack@.len() as int));
        (self.entries, pack)
    }
}

} // verus!
