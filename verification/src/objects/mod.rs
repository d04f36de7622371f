//! Where each stored object is, and what each tree holds.

pub mod codec;
pub mod format;
pub mod index;
pub mod location;
pub mod read;
pub mod store;
pub mod walk;
pub mod write;
