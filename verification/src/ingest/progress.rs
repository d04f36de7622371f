//! What a push reports of its long stages.

use vstd::prelude::*;

verus! {

/// A stage of a push.
///
/// Reporting a stage ends the one before it, so a stage that counts may report
/// a total of zero to announce itself before its total is known.
#[derive(Clone, Copy, Debug, PartialEq, Eq, Structural)]
pub enum IngestProgress {
    /// Handing the push to a worker that runs elsewhere.
    Dispatching,
    /// Rebuilding the pack's entries; counts all of them.
    ResolvingObjects { done: u64, total: u64 },
    /// Deciding what each commit's pack stores; counts commits.
    PreparingPacks { done: u64, total: u64 },
    /// Encoding what the plan asks for; counts encodings, of which one object
    /// can need several.
    CompressingObjects { done: u64, total: u64 },
    /// Confirming that every object the refs need is here or recorded.
    CheckingConnectivity,
    /// Writing the packs of connected commits; counts those.
    UpdatingRepository { done: u64, total: u64 },
    /// Everything between the packs and the refs.
    RecordingCommits,
    /// Moving the refs.
    UpdatingReferences,
}

/// A sink that drops every report.
pub fn noop_progress(_progress: IngestProgress) {
}

/// A count as a report carries it.
pub fn as_u64(n: usize) -> (count: u64)
    ensures
        count == n,
{
    n as u64
}

/// A size as memory counts it, or the largest where it does not fit.
pub fn as_usize(n: u64) -> (size: usize)
    ensures
        size == (if n > usize::MAX {
            usize::MAX
        } else {
            n as usize
        }),
{
    if n > usize::MAX as u64 {
        usize::MAX
    } else {
        n as usize
    }
}

} // verus!
