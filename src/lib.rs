//! Scheduling of 2-D geometric constraint systems: an index of named points
//! and constraints, and the order in which points can be determined.

pub mod constraint;
pub mod index;
pub mod order;
