//! Working out what every entry of a pack is.
//!
//! Each entry is inflated, its delta applied, and the result hashed and parsed.
//! Here are the parts that decide: what an entry rebuilds to, and which entry
//! is worked on when. Entries run once their base is at hand, as many at a time
//! as a count and a budget of bytes allow.

use vstd::prelude::*;
use vstd::slice::slice_subrange;

use crate::deps::zlib::zlib_inflated;
use crate::error::Error;
use crate::ingest::content::Content;
use crate::ingest::pack::{EntryBase, ScannedEntry};
use crate::ingest::progress::as_usize;
use crate::object::{Kind, ObjectId};
use crate::packfile::delta::apply::apply_delta;
use crate::packfile::delta::applied;
use crate::packfile::format::inflate_entry;

verus! {

/// How many entries are worked on at once.
pub const IN_FLIGHT_ENTRIES: usize = 64;

/// About how much object content is worked on at once. An entry over it is
/// worked on alone.
pub const IN_FLIGHT_BYTES: usize = 268_435_456;

/// What an entry is made from: its own bytes, or a base to apply them to. A
/// delta's object takes its base's kind.
#[derive(Debug)]
pub struct JobBase {
    pub kind: Kind,
    /// None for a whole object.
    pub content: Option<Content>,
}

/// What an entry is made from.
#[verifier::ext_equal]
pub struct BaseView {
    pub kind: Kind,
    pub content: Option<Seq<u8>>,
}

impl View for JobBase {
    type V = BaseView;

    open spec fn view(&self) -> BaseView {
        BaseView {
            kind: self.kind,
            content: match self.content {
                Some(content) => Some(content@),
                None => None,
            },
        }
    }
}

/// `a + b`, or the largest size where that does not fit.
pub open spec fn capped(a: nat, b: nat) -> usize {
    if a + b > usize::MAX {
        usize::MAX
    } else {
        (a + b) as usize
    }
}

/// What working on an entry puts in memory: its base, and what it inflates to.
pub fn cost_of(entry: &ScannedEntry, base: &JobBase) -> (cost: usize)
    ensures
        cost == capped(
            match base@.content {
                Some(content) => content.len(),
                None => 0,
            },
            entry.decompressed_size as nat,
        ),
{
    let held: usize = match &base.content {
        Some(content) => content.len(),
        None => 0,
    };
    held.saturating_add(as_usize(entry.decompressed_size))
}

/// Whether an entry names its base by id.
pub open spec fn names_its_base(entry: ScannedEntry) -> bool {
    entry.base is Ref
}

/// The bases that entries name by id, in their order.
pub fn named_bases(entries: &[ScannedEntry]) -> (named: Vec<ObjectId>)
    ensures
        named@ == entries@.filter(|entry: ScannedEntry| names_its_base(entry)).map_values(
            |entry: ScannedEntry| entry.base->Ref_0,
        ),
{
    let ghost keep = |entry: ScannedEntry| names_its_base(entry);
    let ghost with = |entry: ScannedEntry| entry.base->Ref_0;
    let mut named: Vec<ObjectId> = Vec::new();
    let mut i: usize = 0;
    assert(named@ =~= entries@.take(0).filter(keep).map_values(with)) by {
        reveal(Seq::filter);
    }
    while i < entries.len()
        invariant
            i <= entries@.len(),
            keep == (|entry: ScannedEntry| names_its_base(entry)),
            with == (|entry: ScannedEntry| entry.base->Ref_0),
            named@ == entries@.take(i as int).filter(keep).map_values(with),
        decreases entries@.len() - i,
    {
        proof {
            reveal(Seq::filter);
            assert(entries@.take(i as int + 1).drop_last() =~= entries@.take(i as int));
        }
        if let EntryBase::Ref(oid) = entries[i].base {
            named.push(oid);
        }
        i += 1;
        assert(named@ =~= entries@.take(i as int).filter(keep).map_values(with));
    }
    assert(entries@.take(i as int) =~= entries@);
    named
}

/// The entries that delta against entry `base` by position, in their order.
pub open spec fn hanging_off(entries: Seq<ScannedEntry>, base: usize) -> Seq<usize>
    decreases entries.len(),
{
    if entries.len() == 0 {
        Seq::empty()
    } else {
        let earlier = hanging_off(entries.drop_last(), base);
        if entries.last().base == EntryBase::InPack(base) {
            earlier.push((entries.len() - 1) as usize)
        } else {
            earlier
        }
    }
}

/// For each entry, the entries that delta against it by position.
pub fn dependents_by_index(entries: &[ScannedEntry]) -> (dependents: Vec<Vec<usize>>)
    ensures
        dependents@.len() == entries@.len(),
        forall|base: int|
            0 <= base < entries@.len() ==> (#[trigger] dependents@[base])@ == hanging_off(
                entries@,
                base as usize,
            ),
{
    let mut dependents: Vec<Vec<usize>> = Vec::new();
    let mut i: usize = 0;
    while i < entries.len()
        invariant
            i <= entries@.len(),
            dependents@.len() == i,
            forall|base: int|
                0 <= base < i ==> (#[trigger] dependents@[base])@ == Seq::<usize>::empty(),
        decreases entries@.len() - i,
    {
        dependents.push(Vec::new());
        i += 1;
    }
    let mut at: usize = 0;
    assert(entries@.take(0) =~= Seq::<ScannedEntry>::empty());
    while at < entries.len()
        invariant
            at <= entries@.len(),
            dependents@.len() == entries@.len(),
            forall|base: int|
                0 <= base < entries@.len() ==> (#[trigger] dependents@[base])@ == hanging_off(
                    entries@.take(at as int),
                    base as usize,
                ),
        decreases entries@.len() - at,
    {
        let ghost before = dependents@;
        assert(entries@.take(at as int + 1).drop_last() =~= entries@.take(at as int));
        if let EntryBase::InPack(base) = entries[at].base {
            if base < dependents.len() {
                dependents[base].push(at);
                assert(dependents@ =~= before.update(base as int, dependents@[base as int]));
            }
        }
        at += 1;
        proof {
            assert forall|base: int| 0 <= base < entries@.len() implies (
            #[trigger] dependents@[base])@ == hanging_off(
                entries@.take(at as int),
                base as usize,
            ) by {
                assert(before[base]@ == hanging_off(entries@.take(at as int - 1), base as usize));
            }
        }
    }
    assert(entries@.take(at as int) =~= entries@);
    dependents
}

/// An entry that hangs off another is listed once, under that one alone.
pub proof fn an_entry_hangs_off_its_base(entries: Seq<ScannedEntry>, base: usize)
    requires
        entries.len() <= usize::MAX,
    ensures
        hanging_off(entries, base).no_duplicates(),
        forall|at: usize| #[trigger]
            hanging_off(entries, base).contains(at) <==> at < entries.len()
                && entries[at as int].base == EntryBase::InPack(base),
    decreases entries.len(),
{
    if entries.len() > 0 {
        let shorter = entries.drop_last();
        an_entry_hangs_off_its_base(shorter, base);
        let earlier = hanging_off(shorter, base);
        let all = hanging_off(entries, base);
        assert forall|at: usize| #[trigger] all.contains(at) <==> at < entries.len()
            && entries[at as int].base == EntryBase::InPack(base) by {
            let last = (entries.len() - 1) as usize;
            if all.contains(at) && at != last {
                let k = choose|k: int| 0 <= k < all.len() && all[k] == at;
                assert(earlier[k] == at);
                assert(earlier.contains(at));
            }
            if at < entries.len() && entries[at as int].base == EntryBase::InPack(base) {
                if at == last {
                    assert(all[earlier.len() as int] == at);
                } else {
                    assert(shorter[at as int] == entries[at as int]);
                    assert(earlier.contains(at));
                    let k = choose|k: int| 0 <= k < earlier.len() && earlier[k] == at;
                    assert(all[k] == at);
                }
            }
        }
        assert(all.no_duplicates()) by {
            assert forall|i: int, j: int|
                0 <= i < all.len() && 0 <= j < all.len() && i != j implies all[i] != all[j] by {
                if i < earlier.len() {
                    assert(earlier.contains(earlier[i]));
                }
                if j < earlier.len() {
                    assert(earlier.contains(earlier[j]));
                }
            }
        }
    }
}

/// What a body inflates to, or why it does not.
pub open spec fn inflated(body: Seq<u8>, size: nat) -> Result<Seq<u8>, Error> {
    match zlib_inflated(body, size) {
        None => Err(Error::EntryNotZlib),
        Some(content) => if content.len() == size {
            Ok(content)
        } else {
            Err(Error::EntryLength)
        },
    }
}

/// What an entry rebuilds to: what its body inflates to, applied to its base
/// where it has one.
pub open spec fn rebuilt(
    raw: Seq<u8>,
    header_len: nat,
    size: nat,
    base: Option<Seq<u8>>,
) -> Result<Seq<u8>, Error> {
    if header_len > raw.len() {
        Err(Error::EntryShorterThanHeader)
    } else {
        match inflated(raw.skip(header_len as int), size) {
            Err(error) => Err(error),
            Ok(inflated) => match base {
                None => Ok(inflated),
                Some(base) => applied(base, inflated),
            },
        }
    }
}

/// Rebuild an entry from its bytes in the pack and what it deltas against.
///
/// Its id and what it names follow from the content.
pub fn identify(raw: &[u8], entry: &ScannedEntry, base: &JobBase) -> (content: Result<
    Vec<u8>,
    Error,
>)
    requires
        entry.decompressed_size <= isize::MAX,
    ensures
        match content {
            Ok(content) => rebuilt(
                raw@,
                entry.header_len as nat,
                entry.decompressed_size as nat,
                base@.content,
            ) == Ok::<Seq<u8>, Error>(content@),
            Err(error) => rebuilt(
                raw@,
                entry.header_len as nat,
                entry.decompressed_size as nat,
                base@.content,
            ) == Err::<Seq<u8>, Error>(error),
        },
{
    if entry.header_len > raw.len() {
        return Err(Error::EntryShorterThanHeader);
    }
    let body = slice_subrange(raw, entry.header_len, raw.len());
    assert(body@ =~= raw@.skip(entry.header_len as int));
    let inflated = match inflate_entry(body, entry.decompressed_size) {
        Ok(inflated) => inflated,
        Err(error) => {
            return Err(error);
        },
    };
    match &base.content {
        None => Ok(inflated),
        Some(base) => apply_delta(base.as_slice(), inflated.as_slice()),
    }
}

} // verus!
