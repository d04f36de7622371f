//! How a pack that arrives is taken apart, and in which order its objects are
//! rebuilt.

use vstd::prelude::*;

use crate::deps::zlib::zlib_inflated;
use crate::error::Error;
use crate::ingest::pack::{EntryBase, ScannedEntry, WirePack};
use crate::ingest::plan::WireRef;
use crate::ingest::rebuild::{brought, hop_of, passed, root_content, step_from, HopView, Root, Step};
use crate::ingest::resolve::{
    hanging_off, inflated, names_its_base, rebuilt, BaseView, IN_FLIGHT_BYTES, IN_FLIGHT_ENTRIES,
};
use crate::ingest::scan::{is_pack, last_at, next_start, resolved, stands_next, verdict};
use crate::ingest::schedule::{count, seeded, starts_as, waiters, Progress, ScheduleState};
use crate::object::{Kind, ObjectId};
use crate::packfile::format::{entry_content, EntryHeader, MAX_PACK_OBJECTS};
use crate::packfile::parse::{parse_pack_header, Parsed};
use crate::packfile::reader::ReaderState;

verus! {

proof fn lemma_last_at(entries: Seq<ScannedEntry>, offset: u64)
    requires
        entries.len() <= usize::MAX,
    ensures
        match last_at(entries, offset) {
            Some(at) => at < entries.len() && entries[at as int].entry.offset == offset,
            None => forall|i: int|
                0 <= i < entries.len() ==> (#[trigger] entries[i]).entry.offset != offset,
        },
    decreases entries.len(),
{
    if entries.len() > 0 && entries.last().entry.offset != offset {
        let rest = entries.drop_last();
        lemma_last_at(rest, offset);
        if last_at(entries, offset) is None {
            assert forall|i: int| 0 <= i < entries.len() implies (
            #[trigger] entries[i]).entry.offset != offset by {
                if i < rest.len() {
                    assert(rest[i] == entries[i]);
                }
            }
        }
    }
}

/// A whole entry is of the kind that its header says, one against an id is
/// against that id, and one against a distance is against the entry that begins
/// that far before it; it is refused exactly where no entry begins there.
pub proof fn a_base_is_the_entry_at_its_distance(
    header: EntryHeader,
    start: u64,
    earlier: Seq<ScannedEntry>,
)
    requires
        earlier.len() <= usize::MAX,
    ensures
        match header {
            EntryHeader::Full(kind) => resolved(header, start, earlier) == Ok::<EntryBase, Error>(
                EntryBase::Whole(kind),
            ),
            EntryHeader::RefDelta { base_id } => resolved(header, start, earlier) == Ok::<
                EntryBase,
                Error,
            >(EntryBase::Ref(base_id)),
            EntryHeader::OfsDelta { base_distance } => match resolved(header, start, earlier) {
                Ok(base) => {
                    &&& base matches EntryBase::InPack(at)
                    &&& at < earlier.len()
                    &&& earlier[at as int].entry.offset + base_distance == start
                },
                Err(_) => forall|i: int|
                    0 <= i < earlier.len() ==> (#[trigger] earlier[i]).entry.offset + base_distance
                        != start,
            },
        },
{
    if let EntryHeader::OfsDelta { base_distance } = header {
        if base_distance <= start {
            lemma_last_at(earlier, (start - base_distance) as u64);
        }
    }
}

/// The entries of a pack lie end to end between its header and its checksum, and
/// the checksum is that of everything before it.
pub proof fn a_pack_is_its_entries(pack: Seq<u8>, entries: Seq<ScannedEntry>, i: int)
    requires
        is_pack(pack, entries),
        0 <= i < entries.len(),
    ensures
        i == 0 ==> entries[i].entry.offset == 12,
        i > 0 ==> entries[i].entry.offset == entries[i - 1].entry.offset + entries[i - 1].entry.len,
        i == entries.len() - 1 ==> entries[i].entry.offset + entries[i].entry.len + 20 == pack.len(),
        entries[i].header_len <= entries[i].entry.len,
        entries[i].entry.offset + entries[i].entry.len <= pack.len(),
        crate::deps::zlib::zlib_whole(
            pack.subrange(
                entries[i].entry.offset + entries[i].header_len,
                entries[i].entry.offset + entries[i].entry.len,
            ),
        ) == Some(entries[i].decompressed_size as nat),
        pack.skip(pack.len() - 20) == crate::deps::digest::sha1_of(pack.take(pack.len() - 20)),
{
    reveal(stands_next);
    assert(stands_next(pack, entries.take(i), entries[i]));
    if i > 0 {
        assert(entries.take(i).last() == entries[i - 1]);
    }
    assert(next_start(entries) == pack.len() - 20);
}

/// The body of an entry is the bytes of the pack between its header and its end.
pub proof fn a_body_is_what_follows_its_header(pack: WirePack, at: usize)
    ensures
        match pack.body_of(at) {
            Ok(body) => {
                let entry = pack.scanned()[at as int];
                &&& at < pack.scanned().len()
                &&& body == pack.bytes().subrange(
                    entry.entry.offset + entry.header_len,
                    entry.entry.offset + entry.entry.len,
                )
            },
            Err(_) => {
                let entry = pack.scanned()[at as int];
                ||| at >= pack.scanned().len()
                ||| entry.entry.offset + entry.entry.len > pack.bytes().len()
                ||| entry.header_len > entry.entry.len
            },
        },
{
    if pack.body_of(at) is Ok {
        let entry = pack.scanned()[at as int];
        assert(pack.body_of(at)->Ok_0 =~= pack.bytes().subrange(
            entry.entry.offset + entry.header_len,
            entry.entry.offset + entry.entry.len,
        ));
    }
}

/// A step of a chain is an entry with its own object, its body and its size.
pub proof fn a_step_is_its_entry(packs: Seq<WirePack>, at: WireRef)
    ensures
        hop_of(packs, at) matches Ok(hop) ==> {
            let pack = packs[at.pack as int];
            &&& at.pack < packs.len() && at.at < pack.identified().len()
            &&& hop.at == at
            &&& hop.oid == pack.identified()[at.at as int]
            &&& hop.size == pack.scanned()[at.at as int].decompressed_size
            &&& pack.body_of(at.at) == Ok::<Seq<u8>, Error>(hop.body)
        },
        at.pack < packs.len() && at.at < packs[at.pack as int].identified().len()
            && packs[at.pack as int].body_of(at.at) is Ok ==> hop_of(packs, at) is Ok,
{
}

/// An entry that inflates gives as many bytes as it says, and is refused where
/// it gives another number of them.
pub proof fn an_entry_inflates_to_its_size(body: Seq<u8>, size: nat)
    ensures
        inflated(body, size) matches Ok(content) ==> content.len() == size && zlib_inflated(
            body,
            size,
        ) == Some(content),
        zlib_inflated(body, size) matches Some(content) ==> (inflated(body, size) is Ok
            <==> content.len() == size),
        zlib_inflated(body, size) is None ==> inflated(body, size) is Err,
{
}

/// A whole entry is what its body inflates to, and a delta is what that makes of
/// its base.
pub proof fn an_entry_is_rebuilt_on_its_base(
    raw: Seq<u8>,
    header_len: nat,
    size: nat,
    base: Seq<u8>,
)
    requires
        header_len <= raw.len(),
    ensures
        rebuilt(raw, header_len, size, None) == inflated(raw.skip(header_len as int), size),
        inflated(raw.skip(header_len as int), size) matches Ok(delta) ==> rebuilt(
            raw,
            header_len,
            size,
            Some(base),
        ) == crate::packfile::delta::applied(base, delta),
        inflated(raw.skip(header_len as int), size) matches Err(error) ==> rebuilt(
            raw,
            header_len,
            size,
            Some(base),
        ) == Err::<Seq<u8>, Error>(error),
{
}

/// Every version that a chain comes past is kept under its own id, unless it is
/// too long to be kept.
pub proof fn what_a_chain_comes_past_is_kept(root: Root<'_>, chain: Seq<HopView>, k: int)
    requires
        0 <= k < chain.len(),
    ensures
        brought(root_content(root), chain.skip(k)) matches Ok(content) ==> content.len()
            <= crate::ingest::cache::MAX_CACHED_BYTES ==> passed(root, chain).contains(
            (chain[k].oid, content),
        ),
    decreases chain.len(),
{
    let rest = chain.skip(1);
    let own = crate::ingest::rebuild::kept(chain[0].oid, brought(root_content(root), chain));
    let earlier = passed(root, rest);
    assert(passed(root, chain) == earlier + own);
    if k == 0 {
        assert(chain.skip(0) =~= chain);
        if let Ok(content) = brought(root_content(root), chain) {
            if content.len() <= crate::ingest::cache::MAX_CACHED_BYTES {
                assert(own[0] == (chain[0].oid, content));
                assert((earlier + own)[earlier.len() as int] == own[0]);
            }
        }
    } else {
        what_a_chain_comes_past_is_kept(root, rest, k - 1);
        assert(rest.skip(k - 1) =~= chain.skip(k));
        assert(rest[k - 1] == chain[k]);
        if let Ok(content) = brought(root_content(root), chain.skip(k)) {
            if content.len() <= crate::ingest::cache::MAX_CACHED_BYTES {
                let i = choose|i: int|
                    0 <= i < earlier.len() && earlier[i] == (chain[k].oid, content);
                assert((earlier + own)[i] == (chain[k].oid, content));
            }
        }
    }
}

/// Whether an entry is ready with a base.
pub open spec fn is_ready_with(
    ready: Seq<(usize, BaseView)>,
    at: int,
    kind: Kind,
    content: Option<Seq<u8>>,
) -> bool {
    exists|i: int|
        0 <= i < ready.len() && (#[trigger] ready[i]).0 == at && ready[i].1.kind == kind
            && ready[i].1.content == content
}

proof fn lemma_ready_grows(
    shorter: Seq<(usize, BaseView)>,
    longer: Seq<(usize, BaseView)>,
    at: int,
    kind: Kind,
    content: Option<Seq<u8>>,
)
    requires
        shorter.len() <= longer.len(),
        forall|i: int| 0 <= i < shorter.len() ==> #[trigger] longer[i] == shorter[i],
        is_ready_with(shorter, at, kind, content),
    ensures
        is_ready_with(longer, at, kind, content),
{
    let i = choose|i: int|
        0 <= i < shorter.len() && (#[trigger] shorter[i]).0 == at && shorter[i].1.kind == kind
            && shorter[i].1.content == content;
    assert(longer[i] == shorter[i]);
}

/// At the start an entry is ready exactly where it is whole, or where the base
/// that it names is at hand, and then with that base; where it is not at hand,
/// the entry waits for it.
pub proof fn an_entry_starts_once_its_base_is_at_hand(
    entries: Seq<ScannedEntry>,
    bases: Map<ObjectId, (Kind, Seq<u8>)>,
    at: int,
)
    requires
        entries.len() <= usize::MAX,
        0 <= at < entries.len(),
    ensures
        ({
            let (ready, waiting) = seeded(entries, bases);
            match entries[at].base {
                EntryBase::Whole(kind) => is_ready_with(ready, at, kind, None),
                EntryBase::InPack(_) => true,
                EntryBase::Ref(oid) => if bases.contains_key(oid) {
                    is_ready_with(ready, at, bases[oid].0, Some(bases[oid].1))
                } else {
                    waiting.contains_key(oid) && waiting[oid].contains(at as usize)
                },
            }
        }),
    decreases entries.len(),
{
    let rest = entries.drop_last();
    let (before, waited) = seeded(rest, bases);
    let (ready, waiting) = seeded(entries, bases);
    if at < rest.len() {
        an_entry_starts_once_its_base_is_at_hand(rest, bases, at);
        assert(rest[at] == entries[at]);
        match entries[at].base {
            EntryBase::Whole(kind) => {
                lemma_ready_grows(before, ready, at, kind, None);
            },
            EntryBase::InPack(_) => {},
            EntryBase::Ref(oid) => {
                if bases.contains_key(oid) {
                    lemma_ready_grows(before, ready, at, bases[oid].0, Some(bases[oid].1));
                } else {
                    let k = choose|k: int|
                        0 <= k < waited[oid].len() && waited[oid][k] == at as usize;
                    assert(waiting[oid][k] == at as usize);
                }
            },
        }
    } else {
        match entries[at].base {
            EntryBase::Whole(kind) => {
                assert(ready[ready.len() - 1].0 == at);
            },
            EntryBase::InPack(_) => {},
            EntryBase::Ref(oid) => {
                if bases.contains_key(oid) {
                    assert(ready[ready.len() - 1].0 == at);
                } else {
                    assert(waiting[oid][waiting[oid].len() - 1] == at as usize);
                }
            },
        }
    }
}

/// Once an entry is known, every entry against it is ready with what it came to:
/// those that name it by place, and those that wait for its id. What was ready
/// stays so, the entry has its id, and the others keep theirs.
pub proof fn a_known_entry_releases_what_hangs_off_it(
    state: ScheduleState,
    at: usize,
    cost: usize,
    oid: ObjectId,
    content: BaseView,
    other: int,
)
    requires
        state.entries.len() <= usize::MAX,
        state.progress.len() == state.entries.len(),
        state.oids.len() == state.entries.len(),
        at < state.entries.len(),
        0 <= other < state.entries.len(),
    ensures
        ({
            let next = state.knowing(at, cost, oid, content);
            let waited = state.waiting.contains_key(oid) && state.waiting[oid].contains(
                other as usize,
            );
            &&& next.entries == state.entries
            &&& next.oids[at as int] == oid
            &&& other != at ==> next.oids[other] == state.oids[other]
            &&& state.entries[other].base == EntryBase::InPack(at) || waited ==> is_ready_with(
                next.ready,
                other,
                content.kind,
                content.content,
            ) && next.progress[other] == Progress::Ready
            &&& !(state.entries[other].base == EntryBase::InPack(at)) && !waited && other != at
                ==> next.progress[other] == state.progress[other]
            &&& !(state.entries[at as int].base == EntryBase::InPack(at)) && !(
            state.waiting.contains_key(oid) && state.waiting[oid].contains(at))
                ==> next.progress[at as int] == Progress::Done
            &&& forall|kind: Kind, held: Option<Seq<u8>>|
                is_ready_with(state.ready, other, kind, held) ==> #[trigger] is_ready_with(
                    next.ready,
                    other,
                    kind,
                    held,
                )
            &&& !next.waiting.contains_key(oid)
            &&& forall|id: ObjectId|
                id != oid && state.waiting.contains_key(id) ==> #[trigger] next.waiting.contains_key(
                    id,
                ) && next.waiting[id] == state.waiting[id]
        }),
{
    let next = state.knowing(at, cost, oid, content);
    let hanging = hanging_off(state.entries, at);
    let waiting = waiters(state.waiting, oid);
    let released = hanging + waiting;
    crate::ingest::resolve::an_entry_hangs_off_its_base(state.entries, at);
    assert(released == state.released_by(at, oid));
    let place = other as usize;
    assert(hanging.contains(place) <==> state.entries[other].base == EntryBase::InPack(at));
    if hanging.contains(place) {
        let k = choose|k: int| 0 <= k < hanging.len() && hanging[k] == place;
        assert(released[k] == place);
    }
    if waiting.contains(place) {
        let k = choose|k: int| 0 <= k < waiting.len() && waiting[k] == place;
        assert(released[hanging.len() + k] == place);
    }
    if released.contains(place) {
        let k = choose|k: int| 0 <= k < released.len() && released[k] == place;
        let i = released.len() - 1 - k;
        assert(next.ready[i] == (released[k], content));
        if k < hanging.len() {
            assert(hanging[k] == place);
        } else {
            assert(waiting[k - hanging.len()] == place);
        }
    }
    assert(hanging.contains(at) <==> state.entries[at as int].base == EntryBase::InPack(at));
    if released.contains(at) {
        let k = choose|k: int| 0 <= k < released.len() && released[k] == at;
        if k < hanging.len() {
            assert(hanging[k] == at);
        } else {
            assert(waiting[k - hanging.len()] == at);
        }
    }
    assert forall|kind: Kind, held: Option<Seq<u8>>|
        is_ready_with(state.ready, other, kind, held) implies #[trigger] is_ready_with(
        next.ready,
        other,
        kind,
        held,
    ) by {
        let i = choose|i: int|
            0 <= i < state.ready.len() && (#[trigger] state.ready[i]).0 == other
                && state.ready[i].1.kind == kind && state.ready[i].1.content == held;
        assert(next.ready[released.len() + i] == state.ready[i]);
    }
}

/// An entry that is handed out counts until it is known: it takes a place and
/// its bytes, and both come back.
pub proof fn what_is_handed_out_comes_back(
    state: ScheduleState,
    cost: usize,
    oid: ObjectId,
    content: BaseView,
)
    requires
        state.ready.len() > 0,
        state.in_flight < usize::MAX,
        state.in_flight_bytes + cost <= usize::MAX,
    ensures
        ({
            let running = state.handing_out(cost);
            let known = running.knowing(state.ready[0].0, cost, oid, content);
            &&& running.in_flight == state.in_flight + 1
            &&& running.in_flight_bytes == state.in_flight_bytes + cost
            &&& running.ready == state.ready.skip(1)
            &&& known.in_flight == state.in_flight
            &&& known.in_flight_bytes == state.in_flight_bytes
        }),
{
    assert(state.ready.drop_first() =~= state.ready.skip(1));
}

/// The next step of a chain is the entry's own base: nothing where it is whole,
/// the entry at the place that it names, the entry of the id that it names where
/// that arrived and was not come through already, and else what is stored.
pub proof fn a_chain_goes_on_to_its_base(
    packs: Seq<WirePack>,
    at: WireRef,
    walked: Seq<WireRef>,
)
    ensures
        match packs[at.pack as int].scanned()[at.at as int].base {
            EntryBase::Whole(_) => step_from(packs, at, walked) is Whole,
            EntryBase::InPack(base) => step_from(packs, at, walked) matches Step::Entry(next)
                && next.pack == at.pack && next.at == base,
            EntryBase::Ref(oid) => match step_from(packs, at, walked) {
                Step::Whole => false,
                Step::Entry(next) => crate::ingest::pack::first_arrival(packs, oid) == Some(next)
                    && !walked.contains(next),
                Step::Repo(stored) => stored == oid && (crate::ingest::pack::first_arrival(
                    packs,
                    oid,
                ) matches Some(next) ==> walked.contains(next)),
            },
        },
{
}

/// An entry that is ready at the start is one that can be rebuilt: a whole one,
/// or one whose base is at hand.
pub proof fn an_entry_starts_blocked_without_its_base(
    entry: ScannedEntry,
    bases: Map<ObjectId, (Kind, Seq<u8>)>,
)
    ensures
        match entry.base {
            EntryBase::Whole(_) => starts_as(entry, bases) is Ready,
            EntryBase::InPack(_) => starts_as(entry, bases) is Blocked,
            EntryBase::Ref(oid) => if bases.contains_key(oid) {
                starts_as(entry, bases) is Ready
            } else {
                starts_as(entry, bases) is Blocked
            },
        },
{
}

/// A pack is taken: bytes that are one of those entries are not refused.
pub proof fn a_pack_is_taken(data: Seq<u8>, entries: Seq<ScannedEntry>)
    requires
        is_pack(data, entries),
    ensures
        verdict(data, entries) == Some(Ok::<(), Error>(())),
{
    let end = next_start(entries);
    assert(data.subrange(end, end + 20) =~= data.skip(end));
}

/// Nothing is handed out past the limit on entries, nor past the limit on bytes
/// but for an entry that is handed out alone.
pub proof fn what_is_handed_out_is_bounded(state: ScheduleState)
    ensures
        state.has_room() ==> state.in_flight < IN_FLIGHT_ENTRIES,
        state.has_room() && state.in_flight > 0 ==> state.in_flight_bytes < IN_FLIGHT_BYTES,
        state.in_flight == 0 ==> state.has_room(),
        state.in_flight < IN_FLIGHT_ENTRIES && state.in_flight_bytes < IN_FLIGHT_BYTES
            ==> state.has_room(),
{
}

/// An entry's content is what its body inflates to, where that is as long as it
/// should be, and there is none otherwise.
pub proof fn an_entry_s_content_is_as_long_as_it_says(body: Seq<u8>, len: nat)
    ensures
        entry_content(body, len) matches Some(content) ==> content.len() == len && zlib_inflated(
            body,
            len,
        ) == Some(content),
        zlib_inflated(body, len) matches Some(content) ==> content.len() == len
            ==> entry_content(body, len) == Some(content),
{
}

/// What is counted is one for each entry that stands so.
pub proof fn each_entry_counts_once(progress: Seq<Progress>, at: int, like: Progress)
    requires
        0 <= at < progress.len(),
        progress[at] != like,
    ensures
        count(progress.update(at, like), like) == count(progress, like) + 1,
        count(progress.update(at, like), progress[at]) + 1 == count(progress, progress[at]),
        count(Seq::empty(), like) == 0,
    decreases progress.len(),
{
    let rest = progress.drop_last();
    let after = progress.update(at, like);
    if at < rest.len() {
        each_entry_counts_once(rest, at, like);
        assert(after.drop_last() =~= rest.update(at, like));
        assert(rest[at] == progress[at]);
    } else {
        assert(after.drop_last() =~= rest);
    }
}

/// Bytes that are accepted are no longer ahead: they are kept where a copy is
/// kept, they are hashed, and the reader stands behind them.
pub proof fn what_is_accepted_is_kept_and_hashed(state: ReaderState, n: nat)
    requires
        n <= state.unread.len(),
        state.position + n <= u64::MAX,
    ensures
        ({
            let next = state.accepting(n);
            let taken = state.unread.take(n as int);
            &&& taken + next.unread == state.unread
            &&& next.hashed == state.hashed + taken
            &&& next.position == state.position + n
            &&& match state.kept {
                Some(kept) => next.kept == Some(kept + taken),
                None => next.kept is None,
            }
            &&& next.over == state.over && next.body == state.body
        }),
{
    assert(state.unread.take(n as int) + state.unread.skip(n as int) =~= state.unread);
}

/// What is taken is a pack: as many entries as its header counts, no more than
/// may be, each where the one before it ends, and a checksum of all that stands
/// before it. A header that counts more than may be is refused.
pub proof fn what_is_taken_is_a_pack(data: Seq<u8>, entries: Seq<ScannedEntry>)
    ensures
        verdict(data, entries) == Some(Ok::<(), Error>(())) ==> {
            let end = next_start(entries);
            &&& parse_pack_header(data) matches Parsed::Read { value, .. }
            &&& entries.len() == value && value <= MAX_PACK_OBJECTS
            &&& data.len() >= end + 20
            &&& data.subrange(end, end + 20) == crate::deps::digest::sha1_of(data.take(end))
            &&& forall|i: int|
                0 <= i < entries.len() ==> stands_next(data, entries.take(i), #[trigger] entries[i])
        },
        parse_pack_header(data) matches Parsed::Read { value, .. } ==> value > MAX_PACK_OBJECTS
            ==> verdict(data, entries) == Some(Err::<(), Error>(Error::TooManyObjects)),
{
}

/// An entry names its base where it is against an id.
pub proof fn an_entry_against_an_id_names_its_base(entry: ScannedEntry)
    ensures
        names_its_base(entry) <==> (entry.base matches EntryBase::Ref(_)),
{
}

} // verus!
