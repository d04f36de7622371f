//! The one error type of the library.

use vstd::prelude::*;

verus! {

/// Why an operation refused its input.
#[derive(Clone, Copy, Debug, PartialEq, Eq, Structural)]
pub enum Error {
    /// A varint that needs more than 64 bits.
    VarintOverflow,
    /// A varint's bytes end before its last byte.
    VarintTruncated,
    /// A delta names a base size other than its base's.
    DeltaBaseSize,
    /// A delta promises an object over the size limit.
    DeltaResultTooLarge,
    /// A copy instruction ends before its last operand byte.
    DeltaCopyTruncated,
    /// A copy instruction reaches past the end of the base.
    DeltaCopyRange,
    /// The reserved command byte zero.
    DeltaCommandZero,
    /// An insert instruction ends before its last literal byte.
    DeltaInsertTruncated,
    /// The instructions produce more bytes than the delta promises.
    DeltaResultOverflow,
    /// The instructions produce fewer bytes than the delta promises.
    DeltaResultTooShort,
    /// A delta was asked for over inputs above the object size limit.
    DeltaInputTooLarge,
    /// A pack entry's body is no zlib stream, or inflates past its stated length.
    EntryNotZlib,
    /// A pack entry's body inflates to another length than its header states.
    EntryLength,
    /// The stream ends inside what was being read.
    StreamEnded,
    /// A pack does not start with `PACK`.
    PackMagic,
    /// A pack of a version other than 2.
    PackVersion,
    /// An entry's size runs past what 64 bits can take.
    EntrySizeOverflow,
    /// A base distance runs past what 64 bits can take.
    DistanceOverflow,
    /// An entry type that stands for nothing.
    EntryType,
    /// A pack's trailer is not the hash of what came before it.
    PackChecksum,
    /// An object number below zero.
    NegativeSeq,
    /// An object number past what a signed column holds.
    SeqTooLarge,
    /// An allocation of no numbers at all.
    NothingToAllocate,
    /// An allocation past what a signed column holds.
    BatchTooLarge,
    /// A repository that does not count this kind.
    NoCounter,
    /// A tree that still could not be compared after it was read.
    TreeUnreadable,
    /// An object that was read as a tree and is none.
    NotATree,
    /// A parent that is not a commit.
    BaseNotCommit,
    /// An entry's bytes would lie outside its pack.
    EntrySpan,
    /// An entry that its pack does not have.
    NoSuchEntry,
    /// A pack that the push does not have.
    NoSuchPack,
    /// An entry that is shorter than its own header.
    EntryShorterThanHeader,
    /// A pack of which not as many entries were identified as it has.
    EntriesUnidentified,
    /// A pack that claims more objects than one may hold.
    TooManyObjects,
    /// An entry that promises an object over the size limit.
    ObjectTooLarge,
    /// A base distance that reaches back past the start of the pack.
    BaseBeforePack,
    /// A base distance that reaches no entry of the pack.
    BaseNotAnEntry,
    /// Entries whose base is neither in the pack nor stored.
    BasesMissing,
    /// A kind that has no space of numbers, or a number below zero.
    NotCounted,
    /// An object that has no number where it needs one.
    ObjectUnnumbered,
    /// An entry's base that has no number.
    BaseUnnumbered,
    /// An entry whose base is of another kind.
    BaseOfOtherKind,
    /// A tree's entry that has no number.
    ChildUnnumbered,
    /// A tree that names a tag.
    ChildIsTag,
    /// A tag that is said to be in a pack.
    TagPacked,
    /// An object that is said to be in the pack of a commit that the push does
    /// not bring.
    PackAbsent,
    /// A commit to record of which nothing was handed over.
    CommitUnknown,
    /// A commit whose parent has no number.
    ParentUnnumbered,
    /// A commit that has no number.
    CommitUnnumbered,
    /// A commit whose root tree has no number, or is no tree.
    RootTreeUnnumbered,
    /// An object is neither staged nor stored.
    ObjectUnplaced,
    /// Nothing says where a stored object is.
    ObjectUnlocated,
    /// An object that is stored as a delta was not staged whole.
    StoredAsDelta,
    /// An offset into a pack does not fit.
    PackOffset,
    /// A pack has more entries than can be counted.
    PackCount,
    /// An entry that is passed on is another object's.
    ForwardedOther,
    /// An entry ended before its header did.
    EntryHeaderCut,
    /// A pack has no entries.
    PackEmpty,
    /// A commit was not stored.
    CommitNotStored,
}

} // verus!
