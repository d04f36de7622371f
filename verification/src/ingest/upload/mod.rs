//! Moving a push's objects to where they are kept, as the images of commit
//! packs in segments.
//!
//! The layout is fixed to the byte before anything is written, so that segments
//! can be written side by side. What was written is returned and not recorded:
//! a failure leaves at worst segments that nothing refers to.

use vstd::prelude::*;

pub mod choice;
pub mod layout;
pub mod promote;
pub mod pump;
pub mod segment;

verus! {

/// How large a segment gets before the next one is begun.
pub const SEGMENT_TARGET_BYTES: u64 = 67_108_864;

/// How many segments are written at once.
pub const MAX_CONCURRENT_SEGMENTS: usize = 8;

/// From this size on an entry is passed through in pieces, and is never in
/// memory as a whole.
pub const STREAM_THRESHOLD_BYTES: u64 = 1_048_576;

/// How many entries a segment reads ahead of what it writes.
pub const ENTRY_PREFETCH: usize = 8;

/// How many images are queued for reading at a time.
pub const PREFETCH_WINDOW_IMAGES: usize = 256;

} // verus!
