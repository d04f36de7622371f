//! What a push hands over to be recorded, and what is recorded of it.

use vstd::prelude::*;

use crate::model::PackImageLocation;
use crate::object::{Kind, ObjectId};
use crate::objects::location::SegmentLocation;
use crate::seqs::ObjectSeqs;

verus! {

/// One commit that a push brought.
#[derive(Debug)]
pub struct NewCommit {
    pub root_tree: ObjectId,
    pub parents: Vec<ObjectId>,
    /// Header and body of the commit's own entry.
    pub entry_len: u64,
    /// Where in the image the blobs start.
    pub blob_offset: u64,
    pub committer_date: i64,
    /// Where the commit's image was written.
    pub segment: SegmentLocation,
}

/// One tree, blob or tag that a push brought.
#[derive(Debug)]
pub struct NewObject {
    pub oid: ObjectId,
    pub kind: Kind,
    /// The packs that hold it; none for a tag, which is never packed.
    pub locations: Vec<PackImageLocation>,
    /// A tree's own entries.
    pub children: Vec<ObjectId>,
}

/// A commit's pack, as the commit graph records it.
#[derive(Debug)]
pub struct Pack {
    pub entry_len: u64,
    pub blob_offset: u64,
    pub segment: SegmentLocation,
    /// The trees and blobs that it stores, by number.
    pub stored: ObjectSeqs,
}

/// One commit, as the commit graph records it.
#[derive(Debug)]
pub struct RecordedCommit {
    pub seq: i64,
    pub oid: ObjectId,
    pub parents: Vec<i64>,
    pub root_tree_seq: u64,
    pub committer_date: i64,
    pub pack: Pack,
}

} // verus!
