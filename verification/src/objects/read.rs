//! What a reader asks of the object index, answered from what was read of it.

use vstd::prelude::*;

use crate::model::{CommitPackLocation, ObjectMeta, ObjectSeq, PackImageLocation};
use crate::object::{Kind, ObjectId};
use crate::objects::format::ObjectView;
use crate::objects::index::ObjectIndex;
use crate::objects::location::Location;
use crate::objects::store::{Held, Shelf};
use crate::ordmap::OrdMap;
use crate::seqs::{ObjectSeqs, SeqSets};

verus! {

/// What one shelf's read produced: the index, and its bases resolved to ids.
///
/// A base is numbered in the same space as the entry deltaing against it, so
/// resolving one is a shelf-local question rather than a global one.
pub struct Read {
    pub index: ObjectIndex,
    pub base_oids: OrdMap<u64, ObjectId>,
}

/// Where a point read of `seq` resolves to.
pub open spec fn introducing_of(index: Map<u64, ObjectView>, seq: u64) -> Option<Location> {
    if index.contains_key(seq) && index[seq].locations.len() > 0 {
        Some(index[seq].locations[0])
    } else {
        None
    }
}

fn introducing(index: &ObjectIndex, seq: u64) -> (first: Option<Location>)
    ensures
        first == introducing_of(index@, seq),
{
    match index.get(seq) {
        None => None,
        Some(object) => match object.introducing() {
            None => None,
            Some(location) => Some(*location),
        },
    }
}

/// The numbers of `seqs` that are in `shelf`'s space.
pub fn shelved(seqs: &[ObjectSeq], shelf: Shelf) -> (wanted: Vec<u64>)
    ensures
        wanted@ == seqs@.filter(
            |seq: ObjectSeq| Shelf::holding(seq.its_kind()) == Some(shelf),
        ).map_values(|seq: ObjectSeq| seq.its_seq()),
{
    let ghost on_shelf = |seq: ObjectSeq| Shelf::holding(seq.its_kind()) == Some(shelf);
    let ghost number = |seq: ObjectSeq| seq.its_seq();
    let mut wanted: Vec<u64> = Vec::new();
    let mut i: usize = 0;
    proof {
        reveal(Seq::filter);
        assert(seqs@.take(0) =~= Seq::<ObjectSeq>::empty());
    }
    while i < seqs.len()
        invariant
            i <= seqs@.len(),
            on_shelf == (|seq: ObjectSeq| Shelf::holding(seq.its_kind()) == Some(shelf)),
            number == (|seq: ObjectSeq| seq.its_seq()),
            wanted@ == seqs@.take(i as int).filter(on_shelf).map_values(number),
        decreases seqs@.len() - i,
    {
        proof {
            reveal(Seq::filter);
            assert(seqs@.take(i + 1).drop_last() =~= seqs@.take(i as int));
        }
        let seq = seqs[i];
        let here: bool = match Shelf::for_kind(seq.kind()) {
            Some(other) => other == shelf,
            None => false,
        };
        if here {
            wanted.push(seq.seq());
        }
        i = i + 1;
        assert(wanted@ =~= seqs@.take(i as int).filter(on_shelf).map_values(number));
    }
    assert(seqs@.take(i as int) =~= seqs@);
    wanted
}

/// The numbers of the objects held on `shelf`.
pub fn held_on(named: &[(ObjectId, Held)], shelf: Shelf) -> (wanted: Vec<u64>)
    ensures
        wanted@ == named@.filter(
            |n: (ObjectId, Held)| Shelf::holding(n.1.kind) == Some(shelf),
        ).map_values(|n: (ObjectId, Held)| n.1.seq),
{
    let ghost on_shelf = |n: (ObjectId, Held)| Shelf::holding(n.1.kind) == Some(shelf);
    let ghost number = |n: (ObjectId, Held)| n.1.seq;
    let mut wanted: Vec<u64> = Vec::new();
    let mut i: usize = 0;
    proof {
        reveal(Seq::filter);
        assert(named@.take(0) =~= Seq::<(ObjectId, Held)>::empty());
    }
    while i < named.len()
        invariant
            i <= named@.len(),
            on_shelf == (|n: (ObjectId, Held)| Shelf::holding(n.1.kind) == Some(shelf)),
            number == (|n: (ObjectId, Held)| n.1.seq),
            wanted@ == named@.take(i as int).filter(on_shelf).map_values(number),
        decreases named@.len() - i,
    {
        proof {
            reveal(Seq::filter);
            assert(named@.take(i + 1).drop_last() =~= named@.take(i as int));
        }
        let (_, held) = named[i];
        let here: bool = match held.shelf() {
            Some(other) => other == shelf,
            None => false,
        };
        if here {
            wanted.push(held.seq);
        }
        i = i + 1;
        assert(wanted@ =~= named@.take(i as int).filter(on_shelf).map_values(number));
    }
    assert(named@.take(i as int) =~= named@);
    wanted
}

/// Whether the introducing entry of `seq` is a delta.
pub open spec fn has_base(index: Map<u64, ObjectView>, seq: u64) -> bool {
    introducing_of(index, seq) matches Some(location) && location.base_seq is Some
}

/// The bases that the introducing entries of `wanted` name, which have to be
/// resolved before any of them can be reported.
pub fn bases_of(index: &ObjectIndex, wanted: &[u64]) -> (bases: Vec<u64>)
    ensures
        bases@ == wanted@.filter(|seq: u64| has_base(index@, seq)).map_values(
            |seq: u64| introducing_of(index@, seq)->0.base_seq->0,
        ),
{
    let ghost delta = |seq: u64| has_base(index@, seq);
    let ghost base = |seq: u64| introducing_of(index@, seq)->0.base_seq->0;
    let mut bases: Vec<u64> = Vec::new();
    let mut i: usize = 0;
    proof {
        reveal(Seq::filter);
        assert(wanted@.take(0) =~= Seq::<u64>::empty());
    }
    while i < wanted.len()
        invariant
            i <= wanted@.len(),
            delta == (|seq: u64| has_base(index@, seq)),
            base == (|seq: u64| introducing_of(index@, seq)->0.base_seq->0),
            bases@ == wanted@.take(i as int).filter(delta).map_values(base),
        decreases wanted@.len() - i,
    {
        proof {
            reveal(Seq::filter);
            assert(wanted@.take(i + 1).drop_last() =~= wanted@.take(i as int));
        }
        if let Some(location) = introducing(index, wanted[i]) {
            if let Some(one) = location.base_seq {
                bases.push(one);
            }
        }
        i = i + 1;
        assert(bases@ =~= wanted@.take(i as int).filter(delta).map_values(base));
    }
    assert(wanted@.take(i as int) =~= wanted@);
    bases
}

/// One location, with its base named as the id a reader expects.
pub open spec fn resolved_location(
    location: Location,
    base_oids: Map<u64, ObjectId>,
) -> CommitPackLocation {
    CommitPackLocation {
        image: PackImageLocation {
            pack_sha: location.pack_oid,
            offset: location.offset,
            entry_len: location.entry_len,
            base: match location.base_seq {
                Some(seq) => if base_oids.contains_key(seq) {
                    Some(base_oids[seq])
                } else {
                    None
                },
                None => None,
            },
        },
        segment: location.segment,
    }
}

/// One location, with its base named as the id a reader expects.
pub fn resolved(location: &Location, base_oids: &OrdMap<u64, ObjectId>) -> (r: CommitPackLocation)
    ensures
        r == resolved_location(*location, base_oids@),
{
    let base: Option<ObjectId> = match location.base_seq {
        None => None,
        Some(seq) => match base_oids.get(&seq) {
            Some(oid) => Some(*oid),
            None => None,
        },
    };
    CommitPackLocation {
        image: PackImageLocation {
            pack_sha: location.pack_oid,
            offset: location.offset,
            entry_len: location.entry_len,
            base,
        },
        segment: location.segment,
    }
}

/// What was read of the shelf that holds `kind`.
pub open spec fn read_for(kind: Kind, trees: Option<Read>, blobs: Option<Read>) -> Option<Read> {
    match Shelf::holding(kind) {
        Some(Shelf::Trees) => trees,
        Some(Shelf::Blobs) => blobs,
        None => None,
    }
}

/// What a reader is told of one object.
pub open spec fn meta_of(held: Held, trees: Option<Read>, blobs: Option<Read>) -> ObjectMeta {
    ObjectMeta {
        kind: held.kind,
        location: match read_for(held.kind, trees, blobs) {
            None => None,
            Some(read) => match introducing_of(read.index@, held.seq) {
                None => None,
                Some(location) => Some(resolved_location(location, read.base_oids@)),
            },
        },
        object_seq: ObjectSeq::numbered(held.kind, held.seq),
    }
}

/// Builds one [`ObjectMeta`] per object, from what was read of each shelf; a
/// shelf that nothing was wanted of was not read.
pub fn assemble(named: &[(ObjectId, Held)], trees: &Option<Read>, blobs: &Option<Read>) -> (found:
    Vec<(ObjectId, ObjectMeta)>)
    ensures
        found@ == named@.map_values(|n: (ObjectId, Held)| (n.0, meta_of(n.1, *trees, *blobs))),
{
    let ghost shown = |n: (ObjectId, Held)| (n.0, meta_of(n.1, *trees, *blobs));
    let mut found: Vec<(ObjectId, ObjectMeta)> = Vec::new();
    let mut i: usize = 0;
    while i < named.len()
        invariant
            i <= named@.len(),
            shown == (|n: (ObjectId, Held)| (n.0, meta_of(n.1, *trees, *blobs))),
            found@ == named@.take(i as int).map_values(shown),
        decreases named@.len() - i,
    {
        let (oid, held) = named[i];
        let read: &Option<Read> = match held.shelf() {
            Some(Shelf::Trees) => trees,
            Some(Shelf::Blobs) => blobs,
            None => &None,
        };
        let location: Option<CommitPackLocation> = match read {
            None => None,
            Some(read) => match introducing(&read.index, held.seq) {
                None => None,
                Some(location) => Some(resolved(&location, &read.base_oids)),
            },
        };
        found.push((oid, ObjectMeta { kind: held.kind, location, object_seq: held.numbered() }));
        i = i + 1;
        assert(found@ =~= named@.take(i as int).map_values(shown));
    }
    assert(named@.take(i as int) =~= named@);
    found
}

/// The direct entries of a tree; nothing for one that the index does not hold.
pub open spec fn children_in(index: Map<u64, ObjectView>, tree: u64) -> SeqSets {
    if index.contains_key(tree) {
        index[tree].children
    } else {
        SeqSets::empty()
    }
}

/// The direct entries of every tree in `seqs`, empty ones left out.
pub fn children_of(index: &ObjectIndex, seqs: &[u64]) -> (found: OrdMap<u64, ObjectSeqs>)
    ensures
        forall|seq: u64| #[trigger]
            found@.contains_key(seq) <==> seqs@.contains(seq) && children_in(index@, seq)
                != SeqSets::empty(),
        forall|seq: u64| #[trigger]
            found@.contains_key(seq) ==> found@[seq]@ == children_in(index@, seq),
{
    let mut found: OrdMap<u64, ObjectSeqs> = OrdMap::new();
    let mut i: usize = 0;
    while i < seqs.len()
        invariant
            i <= seqs@.len(),
            forall|seq: u64| #[trigger]
                found@.contains_key(seq) <==> seqs@.take(i as int).contains(seq) && children_in(
                    index@,
                    seq,
                ) != SeqSets::empty(),
            forall|seq: u64| #[trigger]
                found@.contains_key(seq) ==> found@[seq]@ == children_in(index@, seq),
        decreases seqs@.len() - i,
    {
        let seq: u64 = seqs[i];
        if let Some(object) = index.get(seq) {
            if !object.children.is_empty() {
                let _ = found.insert(seq, object.children.duplicate());
            }
        }
        proof {
            assert forall|other: u64| #[trigger] seqs@.take(i + 1).contains(other) <==> seqs@.take(
                i as int,
            ).contains(other) || other == seq by {
                let (short, long) = (seqs@.take(i as int), seqs@.take(i + 1));
                assert(long[i as int] == seq);
                if short.contains(other) {
                    let j = choose|j: int| 0 <= j < short.len() && short[j] == other;
                    assert(long[j] == other);
                }
                if long.contains(other) {
                    let j = choose|j: int| 0 <= j < long.len() && long[j] == other;
                    if j < i {
                        assert(short[j] == other);
                    }
                }
            }
        }
        i = i + 1;
    }
    assert(seqs@.take(i as int) =~= seqs@);
    found
}

/// Every pack that stores `seq`, introducing pack first.
pub fn packs_of(index: &ObjectIndex, seq: u64) -> (packs: Vec<ObjectId>)
    ensures
        packs@ == (if index@.contains_key(seq) {
            index@[seq].locations.map_values(|l: Location| l.pack_oid)
        } else {
            Seq::empty()
        }),
{
    let mut packs: Vec<ObjectId> = Vec::new();
    if let Some(object) = index.get(seq) {
        let ghost pack = |l: Location| l.pack_oid;
        let mut i: usize = 0;
        while i < object.locations.len()
            invariant
                i <= object.locations@.len(),
                pack == (|l: Location| l.pack_oid),
                packs@ == object.locations@.take(i as int).map_values(pack),
            decreases object.locations@.len() - i,
        {
            packs.push(object.locations[i].pack_oid);
            i = i + 1;
            assert(packs@ =~= object.locations@.take(i as int).map_values(pack));
        }
        assert(object.locations@.take(i as int) =~= object.locations@);
    }
    packs
}

/// Where each object's shelf has it introduced.
pub open spec fn first_location(
    held: Held,
    trees: Map<u64, ObjectView>,
    blobs: Map<u64, ObjectView>,
) -> Option<Location> {
    match Shelf::holding(held.kind) {
        Some(Shelf::Trees) => introducing_of(trees, held.seq),
        Some(Shelf::Blobs) => introducing_of(blobs, held.seq),
        None => None,
    }
}

/// The introducing pack of every object in `named`, which names each id once;
/// one that is nowhere stored is absent.
pub fn first_packs(named: &[(ObjectId, Held)], trees: &ObjectIndex, blobs: &ObjectIndex) -> (found:
    OrdMap<ObjectId, i64>)
    requires
        forall|i: int, j: int|
            0 <= i < j < named@.len() ==> (#[trigger] named@[i]).0 != (#[trigger] named@[j]).0,
    ensures
        forall|oid: ObjectId| #[trigger]
            found@.contains_key(oid) <==> exists|i: int|
                0 <= i < named@.len() && (#[trigger] named@[i]).0 == oid && first_location(
                    named@[i].1,
                    trees@,
                    blobs@,
                ) is Some,
        forall|i: int|
            0 <= i < named@.len() && first_location(
                (#[trigger] named@[i]).1,
                trees@,
                blobs@,
            ) is Some ==> found@[named@[i].0] == first_location(
                named@[i].1,
                trees@,
                blobs@,
            )->0.pack_seq,
{
    let mut found: OrdMap<ObjectId, i64> = OrdMap::new();
    let mut i: usize = 0;
    while i < named.len()
        invariant
            i <= named@.len(),
            forall|a: int, b: int|
                0 <= a < b < named@.len() ==> (#[trigger] named@[a]).0 != (#[trigger] named@[b]).0,
            forall|oid: ObjectId| #[trigger]
                found@.contains_key(oid) <==> exists|j: int|
                    0 <= j < i && (#[trigger] named@[j]).0 == oid && first_location(
                        named@[j].1,
                        trees@,
                        blobs@,
                    ) is Some,
            forall|j: int|
                0 <= j < i && first_location((#[trigger] named@[j]).1, trees@, blobs@) is Some
                    ==> found@[named@[j].0] == first_location(
                    named@[j].1,
                    trees@,
                    blobs@,
                )->0.pack_seq,
        decreases named@.len() - i,
    {
        let (oid, held) = named[i];
        let ghost before = found@;
        let location: Option<Location> = match held.shelf() {
            Some(Shelf::Trees) => introducing(trees, held.seq),
            Some(Shelf::Blobs) => introducing(blobs, held.seq),
            None => None,
        };
        if let Some(location) = location {
            let _ = found.insert(oid, location.pack_seq);
        }
        proof {
            assert(named@[i as int].0 == oid);
            assert forall|other: ObjectId| #[trigger]
                found@.contains_key(other) <==> exists|j: int|
                    0 <= j < i + 1 && (#[trigger] named@[j]).0 == other && first_location(
                        named@[j].1,
                        trees@,
                        blobs@,
                    ) is Some by {
                if before.contains_key(other) {
                    let j = choose|j: int|
                        0 <= j < i && (#[trigger] named@[j]).0 == other && first_location(
                            named@[j].1,
                            trees@,
                            blobs@,
                        ) is Some;
                    assert(0 <= j < i + 1 && named@[j].0 == other);
                }
            }
        }
        i = i + 1;
    }
    found
}

} // verus!
