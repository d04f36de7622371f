//! The calls into other crates, each with the contract it is used under.

pub mod bitmap;
pub mod cache;
pub mod chance;
pub mod digest;
pub mod entry;
pub mod hex;
pub mod shared;
pub mod zlib;
