//! Which of the two catalogs an object is held in, and under which number.

use vstd::prelude::*;

use crate::error::Error;
use crate::model::{Identity, ObjectSeq};
use crate::object::{Kind, ObjectId};

verus! {

/// Which of the two catalogs a kind is held in, and counted in.
///
/// Tags are in neither: they are stored loose rather than packed, so there is
/// nothing about one a segment would hold and nothing to key it by.
#[derive(Clone, Copy, Debug, PartialEq, Eq, Structural, Hash)]
pub enum Shelf {
    /// Trees, whose records also carry their entries.
    Trees,
    /// Blobs, whose records are locations and nothing else.
    Blobs,
}

impl Shelf {
    /// Where `kind` is held, if anywhere.
    pub open spec fn holding(kind: Kind) -> Option<Shelf> {
        match kind {
            Kind::Tree => Some(Shelf::Trees),
            Kind::Blob => Some(Shelf::Blobs),
            Kind::Commit => None,
            Kind::Tag => None,
        }
    }

    /// Where `kind` is held, or none for a kind that is never packed.
    pub fn for_kind(kind: Kind) -> (shelf: Option<Shelf>)
        ensures
            shelf == Shelf::holding(kind),
    {
        match kind {
            Kind::Tree => Some(Shelf::Trees),
            Kind::Blob => Some(Shelf::Blobs),
            Kind::Commit => None,
            Kind::Tag => None,
        }
    }

    /// What this shelf holds.
    pub open spec fn held_kind(self) -> Kind {
        match self {
            Shelf::Trees => Kind::Tree,
            Shelf::Blobs => Kind::Blob,
        }
    }

    /// What this shelf holds.
    pub fn kind(self) -> (kind: Kind)
        ensures
            kind == self.held_kind(),
            Shelf::holding(kind) == Some(self),
    {
        match self {
            Shelf::Trees => Kind::Tree,
            Shelf::Blobs => Kind::Blob,
        }
    }

    /// The shelf's part of where its segments live.
    pub open spec fn path_name(self) -> Seq<char> {
        match self {
            Shelf::Trees => "trees"@,
            Shelf::Blobs => "blobs"@,
        }
    }

    /// The shelf's part of where its segments live.
    pub fn name(self) -> (name: &'static str)
        ensures
            name@ == self.path_name(),
    {
        match self {
            Shelf::Trees => "trees",
            Shelf::Blobs => "blobs",
        }
    }
}

/// An object this store holds, in the width its bitmaps are in.
///
/// [`Identity`] carries the number as its column holds it, and a bitmap counts
/// without a sign.
#[derive(Clone, Copy, Debug, PartialEq, Eq, Structural)]
pub struct Held {
    /// Its number, in the space its kind is counted by.
    pub seq: u64,
    /// What kind of object it is.
    pub kind: Kind,
}

impl Held {
    /// What identity said, in this store's width.
    ///
    /// A number below zero is refused; no counter hands one out.
    pub fn of(identity: Identity) -> (r: Result<Held, Error>)
        ensures
            r == (if identity.seq < 0 {
                Err::<Held, Error>(Error::NegativeSeq)
            } else {
                Ok(Held { seq: identity.seq as u64, kind: identity.kind })
            }),
    {
        if identity.seq < 0 {
            return Err(Error::NegativeSeq);
        }
        Ok(Held { seq: identity.seq as u64, kind: identity.kind })
    }

    /// Which shelf holds this object's record, if any does.
    pub fn shelf(&self) -> (shelf: Option<Shelf>)
        ensures
            shelf == Shelf::holding(self.kind),
    {
        Shelf::for_kind(self.kind)
    }

    /// The number with the space it belongs to, or none for a commit.
    pub fn numbered(&self) -> (seq: Option<ObjectSeq>)
        ensures
            seq == ObjectSeq::numbered(self.kind, self.seq),
    {
        ObjectSeq::of(self.kind, self.seq)
    }
}

/// Whether every one of `named` that is no commit has a number that is not
/// below zero.
pub open spec fn all_numbered(named: Seq<(ObjectId, Identity)>) -> bool {
    forall|i: int|
        0 <= i < named.len() && (#[trigger] named[i]).1.kind != Kind::Commit ==> named[i].1.seq >= 0
}

/// The objects among `named` that this store answers for: all but the commits,
/// which are the graph's.
pub open spec fn held_among(named: Seq<(ObjectId, Identity)>) -> Seq<(ObjectId, Held)> {
    named.filter(|n: (ObjectId, Identity)| n.1.kind != Kind::Commit).map_values(
        |n: (ObjectId, Identity)| (n.0, Held { seq: n.1.seq as u64, kind: n.1.kind }),
    )
}

/// The objects among `named` that this store answers for, in its own width.
pub fn held_objects(named: &[(ObjectId, Identity)]) -> (r: Result<Vec<(ObjectId, Held)>, Error>)
    ensures
        match r {
            Ok(held) => all_numbered(named@) && held@ == held_among(named@),
            Err(e) => e == Error::NegativeSeq && !all_numbered(named@),
        },
{
    let mut held: Vec<(ObjectId, Held)> = Vec::new();
    let mut i: usize = 0;
    proof {
        reveal(Seq::filter);
        assert(named@.take(0) =~= Seq::<(ObjectId, Identity)>::empty());
    }
    while i < named.len()
        invariant
            i <= named@.len(),
            held@ == held_among(named@.take(i as int)),
            forall|j: int|
                0 <= j < i && (#[trigger] named@[j]).1.kind != Kind::Commit ==> named@[j].1.seq
                    >= 0,
        decreases named@.len() - i,
    {
        let (oid, identity) = named[i];
        proof {
            reveal(Seq::filter);
            assert(named@.take(i + 1).drop_last() =~= named@.take(i as int));
        }
        match identity.kind {
            Kind::Commit => {},
            _ => {
                match Held::of(identity) {
                    Err(e) => {
                        return Err(e);
                    },
                    Ok(one) => {
                        held.push((oid, one));
                    },
                }
            },
        }
        i = i + 1;
        assert(held@ =~= held_among(named@.take(i as int)));
    }
    assert(named@.take(i as int) =~= named@);
    Ok(held)
}

/// Numbers as a signed column holds them; one past its range is refused.
pub fn as_i64(seqs: &[u64]) -> (r: Result<Vec<i64>, Error>)
    ensures
        match r {
            Ok(values) => {
                &&& values@.len() == seqs@.len()
                &&& forall|i: int| 0 <= i < seqs@.len() ==> (#[trigger] values@[i]) == seqs@[i]
            },
            Err(e) => {
                &&& e == Error::SeqTooLarge
                &&& exists|i: int| 0 <= i < seqs@.len() && (#[trigger] seqs@[i]) > i64::MAX
            },
        },
{
    let mut values: Vec<i64> = Vec::new();
    let mut i: usize = 0;
    while i < seqs.len()
        invariant
            i <= seqs@.len(),
            values@.len() == i,
            forall|j: int| 0 <= j < i ==> (#[trigger] values@[j]) == seqs@[j],
        decreases seqs@.len() - i,
    {
        let seq: u64 = seqs[i];
        if seq > 0x7fff_ffff_ffff_ffff {
            assert(seqs@[i as int] > i64::MAX);
            return Err(Error::SeqTooLarge);
        }
        values.push(seq as i64);
        i = i + 1;
    }
    Ok(values)
}

/// What the columns say, in this store's width; a number below zero is
/// refused.
pub fn from_i64(rows: &[(i64, ObjectId)]) -> (r: Result<Vec<(u64, ObjectId)>, Error>)
    ensures
        match r {
            Ok(values) => {
                &&& values@.len() == rows@.len()
                &&& forall|i: int|
                    0 <= i < rows@.len() ==> (#[trigger] values@[i]).0 == rows@[i].0
                        && values@[i].1 == rows@[i].1
            },
            Err(e) => {
                &&& e == Error::NegativeSeq
                &&& exists|i: int| 0 <= i < rows@.len() && (#[trigger] rows@[i]).0 < 0
            },
        },
{
    let mut values: Vec<(u64, ObjectId)> = Vec::new();
    let mut i: usize = 0;
    while i < rows.len()
        invariant
            i <= rows@.len(),
            values@.len() == i,
            forall|j: int|
                0 <= j < i ==> (#[trigger] values@[j]).0 == rows@[j].0 && values@[j].1
                    == rows@[j].1,
        decreases rows@.len() - i,
    {
        let (seq, oid) = rows[i];
        if seq < 0 {
            assert(rows@[i as int].0 < 0);
            return Err(Error::NegativeSeq);
        }
        values.push((seq as u64, oid));
        i = i + 1;
    }
    Ok(values)
}

} // verus!
