//! Sets of the numbers that stand for trees and blobs.
//!
//! Trees and blobs are numbered separately, so a set of objects is two sets of
//! numbers.

use vstd::prelude::*;

use crate::deps::bitmap::{
    members, new_treemap, treemap_clone, treemap_insert, treemap_is_empty, treemap_union,
};

verus! {

/// The trees and the blobs in a set of objects, by number.
#[verifier::ext_equal]
pub struct SeqSets {
    pub trees: Set<u64>,
    pub blobs: Set<u64>,
}

impl SeqSets {
    pub open spec fn empty() -> SeqSets {
        SeqSets { trees: Set::empty(), blobs: Set::empty() }
    }

    pub open spec fn union(self, other: SeqSets) -> SeqSets {
        SeqSets { trees: self.trees.union(other.trees), blobs: self.blobs.union(other.blobs) }
    }
}

/// A set of trees and blobs, each by its number in its own space.
#[derive(Debug, PartialEq)]
pub struct ObjectSeqs {
    pub trees: roaring::RoaringTreemap,
    pub blobs: roaring::RoaringTreemap,
}

impl View for ObjectSeqs {
    type V = SeqSets;

    open spec fn view(&self) -> SeqSets {
        SeqSets { trees: members(self.trees), blobs: members(self.blobs) }
    }
}

impl ObjectSeqs {
    pub fn new() -> (seqs: ObjectSeqs)
        ensures
            seqs@ == SeqSets::empty(),
    {
        ObjectSeqs { trees: new_treemap(), blobs: new_treemap() }
    }

    /// Whether neither kind has a number in the set.
    pub fn is_empty(&self) -> (empty: bool)
        ensures
            empty == (self@ == SeqSets::empty()),
    {
        treemap_is_empty(&self.trees) && treemap_is_empty(&self.blobs)
    }

    /// Takes everything `other` holds that this one does not.
    pub fn absorb(&mut self, other: &ObjectSeqs)
        ensures
            final(self)@ == old(self)@.union(other@),
    {
        treemap_union(&mut self.trees, &other.trees);
        treemap_union(&mut self.blobs, &other.blobs);
    }

    pub fn insert_tree(&mut self, seq: u64)
        ensures
            final(self)@ == (SeqSets {
                trees: old(self)@.trees.insert(seq),
                blobs: old(self)@.blobs,
            }),
    {
        let _ = treemap_insert(&mut self.trees, seq);
    }

    pub fn insert_blob(&mut self, seq: u64)
        ensures
            final(self)@ == (SeqSets {
                trees: old(self)@.trees,
                blobs: old(self)@.blobs.insert(seq),
            }),
    {
        let _ = treemap_insert(&mut self.blobs, seq);
    }

    /// The same set again.
    pub fn duplicate(&self) -> (seqs: ObjectSeqs)
        ensures
            seqs@ == self@,
    {
        ObjectSeqs { trees: treemap_clone(&self.trees), blobs: treemap_clone(&self.blobs) }
    }
}

} // verus!
