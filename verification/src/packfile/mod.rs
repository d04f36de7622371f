//! Git packfiles: entry framing, streaming decode, delta application and
//! delta encoding.

pub mod delta;
pub mod format;
pub mod parse;
pub mod reader;
pub mod varint;
pub mod whole;
pub mod writer;
