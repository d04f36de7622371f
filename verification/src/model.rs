//! What the parts of the library say to each other about objects.

use vstd::prelude::*;

use crate::object::{Kind, ObjectId};
use crate::objects::location::SegmentLocation;

verus! {

/// What identity knows of an object: its number and its kind.
#[derive(Clone, Copy, Debug, PartialEq, Eq, Structural)]
pub struct Identity {
    /// Its number, in the space its kind is counted by.
    pub seq: i64,
    /// What it is.
    pub kind: Kind,
}

/// A number with the space it belongs to.
///
/// Commits are numbered too, but the commit graph answers for those.
#[derive(Clone, Copy, Debug, PartialEq, Eq, Structural)]
pub enum ObjectSeq {
    Tree(u64),
    Blob(u64),
    Tag(u64),
}

impl ObjectSeq {
    /// `seq` in the space of `kind`.
    pub open spec fn numbered(kind: Kind, seq: u64) -> Option<ObjectSeq> {
        match kind {
            Kind::Tree => Some(ObjectSeq::Tree(seq)),
            Kind::Blob => Some(ObjectSeq::Blob(seq)),
            Kind::Tag => Some(ObjectSeq::Tag(seq)),
            Kind::Commit => None,
        }
    }

    /// `seq` in the space of `kind`, or none for a commit.
    pub fn of(kind: Kind, seq: u64) -> (r: Option<ObjectSeq>)
        ensures
            r == ObjectSeq::numbered(kind, seq),
    {
        match kind {
            Kind::Tree => Some(ObjectSeq::Tree(seq)),
            Kind::Blob => Some(ObjectSeq::Blob(seq)),
            Kind::Tag => Some(ObjectSeq::Tag(seq)),
            Kind::Commit => None,
        }
    }

    /// The kind whose space this is.
    pub open spec fn its_kind(self) -> Kind {
        match self {
            ObjectSeq::Tree(_) => Kind::Tree,
            ObjectSeq::Blob(_) => Kind::Blob,
            ObjectSeq::Tag(_) => Kind::Tag,
        }
    }

    /// The number in that space.
    pub open spec fn its_seq(self) -> u64 {
        match self {
            ObjectSeq::Tree(seq) => seq,
            ObjectSeq::Blob(seq) => seq,
            ObjectSeq::Tag(seq) => seq,
        }
    }

    /// The kind whose space this is.
    pub fn kind(self) -> (kind: Kind)
        ensures
            kind == self.its_kind(),
    {
        match self {
            ObjectSeq::Tree(_) => Kind::Tree,
            ObjectSeq::Blob(_) => Kind::Blob,
            ObjectSeq::Tag(_) => Kind::Tag,
        }
    }

    /// The number in that space.
    pub fn seq(self) -> (seq: u64)
        ensures
            seq == self.its_seq(),
    {
        match self {
            ObjectSeq::Tree(seq) => seq,
            ObjectSeq::Blob(seq) => seq,
            ObjectSeq::Tag(seq) => seq,
        }
    }
}

/// Where an entry sits in a commit's pack image.
#[derive(Clone, Copy, Debug, PartialEq, Eq, Structural)]
pub struct PackImageLocation {
    /// The commit whose pack holds it.
    pub pack_sha: ObjectId,
    /// Where in the image its header starts.
    pub offset: u64,
    /// Header and body together.
    pub entry_len: u64,
    /// What it deltas against, where it does.
    pub base: Option<ObjectId>,
}

/// An entry, and the segment that its image is in.
#[derive(Clone, Copy, Debug, PartialEq, Eq, Structural)]
pub struct CommitPackLocation {
    pub image: PackImageLocation,
    pub segment: SegmentLocation,
}

/// What the index answers about one object.
#[derive(Clone, Copy, Debug, PartialEq, Eq, Structural)]
pub struct ObjectMeta {
    pub kind: Kind,
    /// Where a point read finds it; none for one that is never packed.
    pub location: Option<CommitPackLocation>,
    /// Its number, with the space it belongs to.
    pub object_seq: Option<ObjectSeq>,
}

impl ObjectMeta {
    /// Whether the object is held, and not only numbered: something says where
    /// it is, or it is a tag, which is recorded by its number alone.
    pub open spec fn is_held(self) -> bool {
        self.location is Some || self.kind == Kind::Tag
    }

    /// Whether the object is held, and not only numbered.
    pub fn is_stored(&self) -> (stored: bool)
        ensures
            stored == self.is_held(),
    {
        self.location.is_some() || self.kind == Kind::Tag
    }
}

} // verus!
