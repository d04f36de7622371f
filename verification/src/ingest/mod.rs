//! Taking a push in: what it brought, what of it is stored and how, and what
//! is recorded of it.

pub mod append;
pub mod cache;
pub mod chains;
pub mod classify;
pub mod connectivity;
pub mod content;
pub mod graph;
pub mod hooks;
pub mod identities;
pub mod lists;
pub mod materialise;
pub mod order;
pub mod pack;
pub mod plan;
pub mod progress;
pub mod rebuild;
pub mod ref_updates;
pub mod resolve;
pub mod rounds;
pub mod scan;
pub mod schedule;
pub mod session;
pub mod staging;
pub mod upload;
pub mod wants;
pub mod written;
