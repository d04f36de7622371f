//! Receiving git packs: reading and writing the pack format, planning what a
//! push stores, and the rows and indexes that record it.

pub mod bytes;
pub mod deps;
pub mod error;
pub mod ingest;
pub mod journal;
pub mod laws;
pub mod metadata;
pub mod model;
pub mod object;
pub mod objects;
pub mod ordmap;
pub mod packfile;
pub mod seqs;
pub mod text;
