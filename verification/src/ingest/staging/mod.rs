//! Where a push's objects are kept before they are permanent: in memory, and
//! in chunks that are written as it fills.

pub mod buffer;
pub mod encodings;
pub mod sessions;
