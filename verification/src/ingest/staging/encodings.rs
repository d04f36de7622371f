//! Where staging holds each encoding of an object.

use vstd::prelude::*;

use crate::object::{Kind, ObjectId};
use crate::ordmap::{stands_at, OrdMap};

verus! {

/// Where an encoding sits in a push's staging.
///
/// Kind and length ride along: staged content has no header to read them from.
#[derive(Clone, Copy, Debug, PartialEq, Eq, Structural)]
pub struct StagedObjectLocation {
    /// Which chunk its bytes are in.
    pub chunk_id: u32,
    /// Where in the chunk they start.
    pub offset: usize,
    /// How many compressed bytes there are.
    pub compressed_len: usize,
    /// How many bytes they inflate to.
    pub decompressed_len: usize,
    /// What the object is.
    pub kind: Kind,
}

/// One object on its way into staging: what it is, and what its bytes encode
/// against.
#[derive(Clone, Copy, Debug, PartialEq, Eq, Structural)]
pub struct StagedItem {
    /// The object that the bytes rebuild.
    pub sha: ObjectId,
    pub kind: Kind,
    /// What the bytes delta against; none when they are the object itself.
    pub base: Option<ObjectId>,
    /// How many bytes they inflate to; of a delta, its instructions.
    pub decompressed_len: usize,
}

/// Every encoding of one object that staging holds.
///
/// More than one is normal: a version that several commits keep is encoded
/// against each of its bases.
#[derive(Debug)]
pub struct StagedEncodings {
    whole: Option<StagedObjectLocation>,
    deltas: OrdMap<ObjectId, StagedObjectLocation>,
}

impl View for StagedEncodings {
    type V = Map<Option<ObjectId>, StagedObjectLocation>;

    closed spec fn view(&self) -> Map<Option<ObjectId>, StagedObjectLocation> {
        Map::new(
            |base: Option<ObjectId>| self.has(base),
            |base: Option<ObjectId>| self.under(base),
        )
    }
}

/// Whether a place does not run past what can be counted.
pub open spec fn place_fits(loc: StagedObjectLocation) -> bool {
    loc.offset + loc.compressed_len <= usize::MAX
}

impl StagedEncodings {
    spec fn has(self, base: Option<ObjectId>) -> bool {
        match base {
            None => self.whole is Some,
            Some(oid) => self.deltas@.contains_key(oid),
        }
    }

    spec fn under(self, base: Option<ObjectId>) -> StagedObjectLocation {
        match base {
            None => self.whole->0,
            Some(oid) => self.deltas@[oid],
        }
    }

    pub fn new() -> (encodings: StagedEncodings)
        ensures
            encodings@ == Map::<Option<ObjectId>, StagedObjectLocation>::empty(),
    {
        let encodings = StagedEncodings { whole: None, deltas: OrdMap::new() };
        assert(encodings@ =~= Map::<Option<ObjectId>, StagedObjectLocation>::empty()) by {
            assert(forall|base: Option<ObjectId>| !#[trigger] encodings.has(base));
        }
        encodings
    }

    /// Record where this object's encoding against `base` is.
    pub fn insert(&mut self, base: Option<ObjectId>, loc: StagedObjectLocation)
        ensures
            final(self)@ == old(self)@.insert(base, loc),
    {
        match base {
            None => {
                self.whole = Some(loc);
            },
            Some(oid) => {
                let _ = self.deltas.insert(oid, loc);
            },
        }
        assert(self@ =~= old(self)@.insert(base, loc));
    }

    /// The encoding against `base`, if staging holds it.
    pub fn against(&self, base: Option<ObjectId>) -> (loc: Option<StagedObjectLocation>)
        ensures
            loc == (if self@.contains_key(base) {
                Some(self@[base])
            } else {
                None
            }),
    {
        match base {
            None => self.whole,
            Some(oid) => match self.deltas.get(&oid) {
                Some(loc) => Some(*loc),
                None => None,
            },
        }
    }

    /// The object's own bytes; none for an object that was only ever encoded as
    /// a delta.
    pub fn whole(&self) -> (loc: Option<StagedObjectLocation>)
        ensures
            loc == (if self@.contains_key(None) {
                Some(self@[None])
            } else {
                None
            }),
    {
        self.against(None)
    }

    /// Whether no encoding's place runs past what can be counted.
    pub fn fits(&self) -> (fits: bool)
        ensures
            fits == forall|base: Option<ObjectId>| #[trigger]
                self@.contains_key(base) ==> place_fits(self@[base]),
    {
        if let Some(loc) = self.whole {
            if loc.compressed_len > usize::MAX - loc.offset {
                assert(self@.contains_key(None) && !place_fits(self@[None]));
                return false;
            }
        }
        let pairs = self.deltas.as_entries();
        let mut i: usize = 0;
        while i < pairs.len()
            invariant
                i <= pairs@.len(),
                pairs@ == self.deltas.entries(),
                self.whole matches Some(loc) ==> place_fits(loc),
                forall|k: int|
                    0 <= k < pairs@.len() ==> self.deltas@.contains_key((#[trigger] pairs@[k]).0)
                        && self.deltas@[pairs@[k].0] == pairs@[k].1,
                forall|k: int| 0 <= k < i ==> place_fits((#[trigger] pairs@[k]).1),
            decreases pairs@.len() - i,
        {
            let loc = pairs[i].1;
            if loc.compressed_len > usize::MAX - loc.offset {
                proof {
                    let base = Some(pairs@[i as int].0);
                    assert(self@.contains_key(base) && !place_fits(self@[base]));
                }
                return false;
            }
            i += 1;
        }
        proof {
            assert forall|base: Option<ObjectId>| #[trigger] self@.contains_key(base) implies place_fits(
                self@[base],
            ) by {
                if let Some(oid) = base {
                    assert(self.deltas@.contains_key(oid));
                    let k = choose|k: int| stands_at(pairs@, oid, k);
                    assert(pairs@[k].0 == oid);
                }
            }
        }
        true
    }
}

/// What staging holds of each object.
pub open spec fn staged(index: Map<ObjectId, StagedEncodings>) -> Map<
    ObjectId,
    Map<Option<ObjectId>, StagedObjectLocation>,
> {
    index.map_values(|encodings: StagedEncodings| encodings@)
}

} // verus!
