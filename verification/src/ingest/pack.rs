//! The packs that a push arrived in.
//!
//! A push keeps its packs as they came for as long as it runs: every later
//! pass reads entries back out of them, in whatever order it needs.

use vstd::prelude::*;
use vstd::slice::slice_subrange;

use crate::error::Error;
use crate::ingest::plan::WireRef;
use crate::object::{Kind, ObjectId};
use crate::ordmap::OrdMap;

verus! {

/// Where one entry sits in its pack.
#[derive(Clone, Copy, Debug, PartialEq, Eq, Structural)]
pub struct RawSpan {
    pub offset: u64,
    /// How many bytes the entry takes.
    pub len: usize,
}

/// Whether a span lies within `pack`.
pub open spec fn lies_within(span: RawSpan, pack: Seq<u8>) -> bool {
    span.offset + span.len <= pack.len()
}

/// The bytes of a span.
pub open spec fn spanned(span: RawSpan, pack: Seq<u8>) -> Seq<u8> {
    pack.subrange(span.offset as int, span.offset + span.len)
}

/// One entry's bytes, lent and not copied.
pub fn read_span(pack: &[u8], span: RawSpan) -> (bytes: Result<&[u8], Error>)
    ensures
        match bytes {
            Ok(bytes) => lies_within(span, pack@) && bytes@ == spanned(span, pack@),
            Err(error) => error == Error::EntrySpan && !lies_within(span, pack@),
        },
{
    let len: usize = pack.len();
    if span.offset > len as u64 {
        return Err(Error::EntrySpan);
    }
    let start: usize = span.offset as usize;
    if span.len > len - start {
        return Err(Error::EntrySpan);
    }
    Ok(slice_subrange(pack, start, start + span.len))
}

/// What an entry needs before it can be rebuilt.
#[derive(Clone, Copy, Debug, PartialEq, Eq, Structural)]
pub enum EntryBase {
    /// Complete on its own, with the kind that deltas on it take.
    Whole(Kind),
    /// Deltas against an earlier entry of the pack, by its index.
    InPack(usize),
    /// Deltas against an object by id: one that the repository has, or another
    /// entry whose id is not known before it is rebuilt.
    Ref(ObjectId),
}

/// One entry as the scan of its pack found it.
#[derive(Clone, Copy, Debug, PartialEq, Eq, Structural)]
pub struct ScannedEntry {
    pub base: EntryBase,
    /// What its payload inflates to; a delta's instructions, not its object.
    pub decompressed_size: u64,
    /// The whole entry, header and all.
    pub entry: RawSpan,
    /// How much of it is header.
    pub header_len: usize,
}

/// A pack that arrived: its bytes, where each entry sits in them, and what each
/// entry turned out to be.
#[derive(Debug)]
pub struct WirePack {
    pack: Vec<u8>,
    entries: Vec<ScannedEntry>,
    /// Each entry's object, in the order of `entries`.
    oids: Vec<ObjectId>,
}

impl WirePack {
    #[verifier::type_invariant]
    spec fn is_parallel(self) -> bool {
        self.entries@.len() == self.oids@.len()
    }

    pub closed spec fn bytes(self) -> Seq<u8> {
        self.pack@
    }

    pub closed spec fn scanned(self) -> Seq<ScannedEntry> {
        self.entries@
    }

    pub closed spec fn identified(self) -> Seq<ObjectId> {
        self.oids@
    }

    /// Fails unless every entry was identified.
    pub fn new(pack: Vec<u8>, entries: Vec<ScannedEntry>, oids: Vec<ObjectId>) -> (wire: Result<
        WirePack,
        Error,
    >)
        ensures
            match wire {
                Ok(wire) => {
                    &&& entries@.len() == oids@.len()
                    &&& wire.bytes() == pack@
                    &&& wire.scanned() == entries@
                    &&& wire.identified() == oids@
                },
                Err(error) => error == Error::EntriesUnidentified && entries@.len() != oids@.len(),
            },
    {
        if entries.len() != oids.len() {
            return Err(Error::EntriesUnidentified);
        }
        Ok(WirePack { pack, entries, oids })
    }

    pub fn len(&self) -> (n: usize)
        ensures
            n == self.scanned().len(),
            n == self.identified().len(),
    {
        proof {
            use_type_invariant(self);
        }
        self.entries.len()
    }

    /// What the scan found of entry `at`.
    pub fn entry(&self, at: usize) -> (entry: Result<ScannedEntry, Error>)
        ensures
            entry == (if at < self.scanned().len() {
                Ok::<ScannedEntry, Error>(self.scanned()[at as int])
            } else {
                Err(Error::NoSuchEntry)
            }),
    {
        if at < self.entries.len() {
            Ok(self.entries[at])
        } else {
            Err(Error::NoSuchEntry)
        }
    }

    /// What the body of entry `at` is, or why there is none.
    pub open spec fn body_of(self, at: usize) -> Result<Seq<u8>, Error> {
        let entry = self.scanned()[at as int];
        if at >= self.scanned().len() {
            Err(Error::NoSuchEntry)
        } else if !lies_within(entry.entry, self.bytes()) {
            Err(Error::EntrySpan)
        } else if entry.header_len > entry.entry.len {
            Err(Error::EntryShorterThanHeader)
        } else {
            Ok(spanned(entry.entry, self.bytes()).skip(entry.header_len as int))
        }
    }

    /// The entry's compressed body, with the pack's framing left behind.
    pub fn body(&self, at: usize) -> (body: Result<&[u8], Error>)
        ensures
            match body {
                Ok(body) => self.body_of(at) == Ok::<Seq<u8>, Error>(body@),
                Err(error) => self.body_of(at) == Err::<Seq<u8>, Error>(error),
            },
    {
        let entry = match self.entry(at) {
            Ok(entry) => entry,
            Err(error) => {
                return Err(error);
            },
        };
        let raw = match read_span(self.pack.as_slice(), entry.entry) {
            Ok(raw) => raw,
            Err(error) => {
                return Err(error);
            },
        };
        if entry.header_len > raw.len() {
            return Err(Error::EntryShorterThanHeader);
        }
        let body = slice_subrange(raw, entry.header_len, raw.len());
        assert(body@ =~= raw@.skip(entry.header_len as int));
        Ok(body)
    }

    /// What entry `at` rebuilds to.
    pub fn oid(&self, at: usize) -> (oid: Result<ObjectId, Error>)
        ensures
            oid == (if at < self.identified().len() {
                Ok::<ObjectId, Error>(self.identified()[at as int])
            } else {
                Err(Error::NoSuchEntry)
            }),
    {
        if at < self.oids.len() {
            Ok(self.oids[at])
        } else {
            Err(Error::NoSuchEntry)
        }
    }
}

/// Whether `at` is an entry that rebuilds to `oid`.
pub open spec fn arrives_at(packs: Seq<WirePack>, at: WireRef, oid: ObjectId) -> bool {
    &&& at.pack < packs.len()
    &&& at.at < packs[at.pack as int].identified().len()
    &&& packs[at.pack as int].identified()[at.at as int] == oid
}

/// Whether one entry comes before another.
pub open spec fn comes_before(a: WireRef, b: WireRef) -> bool {
    a.pack < b.pack || a.pack == b.pack && a.at < b.at
}

/// Whether `at` is the first entry that rebuilds to `oid`.
pub open spec fn arrives_first_at(packs: Seq<WirePack>, at: WireRef, oid: ObjectId) -> bool {
    &&& arrives_at(packs, at, oid)
    &&& forall|other: WireRef| #[trigger]
        arrives_at(packs, other, oid) ==> !comes_before(other, at)
}

/// Every pack that a push arrived in, and where each object sits in them.
#[derive(Debug)]
pub struct WirePacks {
    packs: Vec<WirePack>,
    /// A repeated object is the same bytes wherever it stands: the first
    /// occurrence counts.
    entry_of: OrdMap<ObjectId, WireRef>,
}

impl View for WirePacks {
    type V = Seq<WirePack>;

    closed spec fn view(&self) -> Seq<WirePack> {
        self.packs@
    }
}

impl WirePacks {
    #[verifier::type_invariant]
    spec fn is_indexed(self) -> bool {
        indexes(self.entry_of@, self.packs@)
    }

    pub fn new() -> (packs: WirePacks)
        ensures
            packs@ == Seq::<WirePack>::empty(),
    {
        WirePacks { packs: Vec::new(), entry_of: OrdMap::new() }
    }

    /// Take a scanned and identified pack as the push's next.
    pub fn adopt(&mut self, pack: WirePack)
        ensures
            final(self)@ == old(self)@.push(pack),
    {
        proof {
            use_type_invariant(&*self);
        }
        let mut taken = WirePacks::new();
        std::mem::swap(self, &mut taken);
        let WirePacks { mut packs, mut entry_of } = taken;
        let at: usize = packs.len();
        let ghost before = packs@;
        let ghost held = entry_of@;
        let ghost all = before.push(pack);
        proof {
            assert forall|oid: ObjectId| #[trigger] held.contains_key(oid) implies arrives_first_at(
                all,
                held[oid],
                oid,
            ) by {
                assert(arrives_at(before, held[oid], oid));
                assert forall|other: WireRef| #[trigger] arrives_at(
                    all,
                    other,
                    oid,
                ) implies !comes_before(other, held[oid]) by {
                    if other.pack < at {
                        assert(arrives_at(before, other, oid));
                    }
                }
            }
        }
        let mut index: usize = 0;
        while index < pack.len()
            invariant
                index <= pack.identified().len(),
                at == before.len(),
                all == before.push(pack),
                indexes(held, before),
                forall|oid: ObjectId| #[trigger]
                    entry_of@.contains_key(oid) <==> held.contains_key(oid)
                        || pack.identified().take(index as int).contains(oid),
                forall|oid: ObjectId| #[trigger]
                    held.contains_key(oid) ==> entry_of@[oid] == held[oid],
                forall|oid: ObjectId| #[trigger]
                    entry_of@.contains_key(oid) ==> arrives_first_at(all, entry_of@[oid], oid),
            decreases pack.identified().len() - index,
        {
            let ghost earlier = pack.identified().take(index as int);
            let ghost known = entry_of@;
            let oid = pack.oids[index];
            if !entry_of.contains_key(&oid) {
                let entry = WireRef { pack: at, at: index };
                let _ = entry_of.insert(oid, entry);
                assert(arrives_first_at(all, entry, oid)) by {
                    assert forall|other: WireRef| #[trigger]
                        arrives_at(all, other, oid) implies !comes_before(other, entry) by {
                        if other.pack < at {
                            assert(arrives_at(before, other, oid));
                            assert(held.contains_key(oid));
                        } else if other.at < index {
                            assert(earlier[other.at as int] == oid);
                        }
                    }
                }
            }
            index += 1;
            proof {
                let longer = pack.identified().take(index as int);
                assert(longer =~= earlier.push(oid));
                assert forall|other: ObjectId| #[trigger]
                    entry_of@.contains_key(other) <==> held.contains_key(other)
                        || longer.contains(other) by {
                    crate::ingest::lists::lemma_push_contains(earlier, oid, other);
                }
            }
        }
        packs.push(pack);
        proof {
            assert(pack.identified().take(index as int) =~= pack.identified());
            assert forall|oid: ObjectId, entry: WireRef| #[trigger]
                arrives_at(all, entry, oid) implies entry_of@.contains_key(oid) by {
                if entry.pack < at {
                    assert(arrives_at(before, entry, oid));
                } else {
                    assert(pack.identified()[entry.at as int] == oid);
                }
            }
        }
        *self = WirePacks { packs, entry_of };
    }

    /// Where `oid` arrived, if the push has it at all.
    pub fn entry_of(&self, oid: ObjectId) -> (at: Option<WireRef>)
        ensures
            at == first_arrival(self@, oid),
            match at {
                Some(at) => arrives_first_at(self@, at, oid),
                None => forall|at: WireRef| !#[trigger] arrives_at(self@, at, oid),
            },
    {
        proof {
            use_type_invariant(self);
            lemma_first_arrival(self@, oid);
        }
        match self.entry_of.get(&oid) {
            Some(at) => Some(*at),
            None => None,
        }
    }

    fn pack(&self, at: usize) -> (pack: Result<&WirePack, Error>)
        ensures
            match pack {
                Ok(pack) => at < self@.len() && *pack == self@[at as int],
                Err(error) => error == Error::NoSuchPack && at >= self@.len(),
            },
    {
        if at < self.packs.len() {
            Ok(&self.packs[at])
        } else {
            Err(Error::NoSuchPack)
        }
    }

    /// What the scan found of an entry.
    pub fn entry(&self, at: WireRef) -> (entry: Result<ScannedEntry, Error>)
        ensures
            entry == (if at.pack >= self@.len() {
                Err::<ScannedEntry, Error>(Error::NoSuchPack)
            } else if at.at >= self@[at.pack as int].scanned().len() {
                Err(Error::NoSuchEntry)
            } else {
                Ok(self@[at.pack as int].scanned()[at.at as int])
            }),
    {
        match self.pack(at.pack) {
            Ok(pack) => pack.entry(at.at),
            Err(error) => Err(error),
        }
    }

    /// What an entry rebuilds to.
    pub fn oid(&self, at: WireRef) -> (oid: Result<ObjectId, Error>)
        ensures
            oid == (if at.pack >= self@.len() {
                Err::<ObjectId, Error>(Error::NoSuchPack)
            } else if at.at >= self@[at.pack as int].identified().len() {
                Err(Error::NoSuchEntry)
            } else {
                Ok(self@[at.pack as int].identified()[at.at as int])
            }),
    {
        match self.pack(at.pack) {
            Ok(pack) => pack.oid(at.at),
            Err(error) => Err(error),
        }
    }

    /// What an entry's body is, or why there is none.
    pub open spec fn body_of(self, at: WireRef) -> Result<Seq<u8>, Error> {
        if at.pack >= self@.len() {
            Err(Error::NoSuchPack)
        } else {
            self@[at.pack as int].body_of(at.at)
        }
    }

    /// An entry's compressed body.
    pub fn body(&self, at: WireRef) -> (body: Result<&[u8], Error>)
        ensures
            match body {
                Ok(body) => self.body_of(at) == Ok::<Seq<u8>, Error>(body@),
                Err(error) => self.body_of(at) == Err::<Seq<u8>, Error>(error),
            },
    {
        match self.pack(at.pack) {
            Ok(pack) => pack.body(at.at),
            Err(error) => Err(error),
        }
    }

    /// How much rebuilding `oid` would put in memory, as far as its pack can
    /// say: nothing for an object that the push does not have.
    pub fn size_of(&self, oid: ObjectId) -> (size: u64)
        ensures
            (forall|at: WireRef| !#[trigger] arrives_at(self@, at, oid)) ==> size == 0,
            forall|at: WireRef| #[trigger]
                arrives_first_at(self@, at, oid) && at.at < self@[at.pack as int].scanned().len()
                    ==> size == self@[at.pack as int].scanned()[at.at as int].decompressed_size,
    {
        match self.entry_of(oid) {
            None => 0,
            Some(at) => match self.entry(at) {
                Ok(entry) => {
                    proof {
                        assert forall|other: WireRef| #[trigger]
                            arrives_first_at(self@, other, oid) implies other == at by {
                            assert(arrives_at(self@, other, oid));
                            assert(arrives_at(self@, at, oid));
                        }
                    }
                    entry.decompressed_size
                },
                Err(_) => {
                    proof {
                        assert forall|other: WireRef| #[trigger]
                            arrives_first_at(self@, other, oid) implies other == at by {
                            assert(arrives_at(self@, other, oid));
                            assert(arrives_at(self@, at, oid));
                        }
                        assert(arrives_at(self@, at, oid));
                    }
                    0
                },
            },
        }
    }

    /// The packs themselves.
    pub fn packs(&self) -> (packs: &Vec<WirePack>)
        ensures
            packs@ == self@,
    {
        &self.packs
    }
}

/// Whether an index says of every object where it arrived first.
pub open spec fn indexes(entry_of: Map<ObjectId, WireRef>, packs: Seq<WirePack>) -> bool {
    &&& forall|oid: ObjectId, at: WireRef| #[trigger]
        arrives_at(packs, at, oid) ==> entry_of.contains_key(oid)
    &&& forall|oid: ObjectId| #[trigger]
        entry_of.contains_key(oid) ==> arrives_first_at(packs, entry_of[oid], oid)
}

/// The first entry that rebuilds to `oid`, if the push has one.
pub open spec fn first_arrival(packs: Seq<WirePack>, oid: ObjectId) -> Option<WireRef> {
    if exists|at: WireRef| #[trigger] arrives_first_at(packs, at, oid) {
        Some(choose|at: WireRef| #[trigger] arrives_first_at(packs, at, oid))
    } else {
        None
    }
}

/// There is one first entry.
pub(crate) proof fn lemma_first_arrival(packs: Seq<WirePack>, oid: ObjectId)
    ensures
        forall|at: WireRef| #[trigger]
            arrives_first_at(packs, at, oid) ==> first_arrival(packs, oid) == Some(at),
        (forall|at: WireRef| !#[trigger] arrives_at(packs, at, oid)) ==> first_arrival(
            packs,
            oid,
        ) is None,
{
    assert forall|at: WireRef| #[trigger] arrives_first_at(packs, at, oid) implies first_arrival(
        packs,
        oid,
    ) == Some(at) by {
        let other = choose|other: WireRef| #[trigger] arrives_first_at(packs, other, oid);
        assert(arrives_at(packs, other, oid));
        assert(arrives_at(packs, at, oid));
    }
}

} // verus!
