//! What a repository is, in rows: which exist, where their refs point, and
//! what every object in them is called.
//!
//! Rows and nothing else: no segment, no bucket, no key range, and no driver.
//! [`memory::Memory`] keeps them in a map.

pub mod memory;
pub mod refs;
pub mod rows;
pub mod store;
