//! Recording what a push brought: first what it is called, then what is held.
//!
//! Numbers are taken alone, so that two pushes of one object collide before
//! either has written anything else; the one that loses reads again and takes
//! the number that won. Nothing is read through its number, so a push is not
//! there until its journal lands, and one that stops between the two is
//! finished by the next.

pub mod assemble;
pub mod attempt;
pub mod commits;
pub mod model;
pub mod objects;
pub mod records;
