//! What holds of the operations, stated on what goes in and what comes out.

pub mod comparing;
pub mod connectivity;
pub mod deltas;
pub mod encoding;
pub mod formats;
pub mod indexing;
pub mod numbering;
pub mod ordering;
pub mod planning;
pub mod recording;
pub mod refs;
pub mod reporting;
pub mod repositories;
pub mod scanning;
pub mod staging;
pub mod uploading;
pub mod walking;
pub mod writing;
