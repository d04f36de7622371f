//! What identity answers about the objects of one repository.

use vstd::prelude::*;

use crate::model::Identity;
use crate::object::{Kind, ObjectId};
use crate::ordmap::OrdMap;

verus! {

/// Another writer numbered one of these objects first.
#[derive(Clone, Copy, Debug, PartialEq, Eq, Structural)]
pub struct Raced;

/// The number of every id that is a `kind`.
///
/// An id of another kind is absent, since a number in the wrong space is a
/// different object rather than the same one.
pub fn seqs_of(identities: &OrdMap<ObjectId, Identity>, kind: Kind) -> (seqs: OrdMap<ObjectId, i64>)
    ensures
        forall|oid: ObjectId| #[trigger]
            seqs@.contains_key(oid) <==> identities@.contains_key(oid) && identities@[oid].kind
                == kind,
        forall|oid: ObjectId| #[trigger]
            seqs@.contains_key(oid) ==> seqs@[oid] == identities@[oid].seq,
{
    let entries = identities.as_entries();
    let mut seqs: OrdMap<ObjectId, i64> = OrdMap::new();
    let mut i: usize = 0;
    while i < entries.len()
        invariant
            i <= entries@.len(),
            entries@ == identities.entries(),
            identities@ == crate::ordmap::held(entries@),
            forall|j: int|
                0 <= j < entries@.len() ==> identities@.contains_key((#[trigger] entries@[j]).0)
                    && identities@[entries@[j].0] == entries@[j].1,
            forall|oid: ObjectId| #[trigger]
                seqs@.contains_key(oid) <==> exists|j: int|
                    0 <= j < i && (#[trigger] entries@[j]).0 == oid && entries@[j].1.kind == kind,
            forall|oid: ObjectId| #[trigger]
                seqs@.contains_key(oid) ==> seqs@[oid] == identities@[oid].seq,
        decreases entries@.len() - i,
    {
        let (oid, identity) = entries[i];
        let ghost before = seqs@;
        if identity.kind == kind {
            let _ = seqs.insert(oid, identity.seq);
        }
        proof {
            assert(entries@[i as int].0 == oid);
            assert forall|other: ObjectId| #[trigger]
                seqs@.contains_key(other) <==> exists|j: int|
                    0 <= j < i + 1 && (#[trigger] entries@[j]).0 == other && entries@[j].1.kind
                        == kind by {
                if before.contains_key(other) {
                    let j = choose|j: int|
                        0 <= j < i && (#[trigger] entries@[j]).0 == other && entries@[j].1.kind
                            == kind;
                    assert(0 <= j < i + 1 && entries@[j].0 == other);
                }
            }
        }
        i = i + 1;
    }
    proof {
        assert forall|oid: ObjectId| #[trigger]
            seqs@.contains_key(oid) <==> identities@.contains_key(oid) && identities@[oid].kind
                == kind by {
            if identities@.contains_key(oid) {
                let j = choose|j: int| crate::ordmap::stands_at(entries@, oid, j);
                assert(entries@[j].0 == oid);
            }
        }
    }
    seqs
}

} // verus!
