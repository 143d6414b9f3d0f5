//! Translation analysis of the time/event plane.
//!
//! The formal reduction `M = K (+) S + R`: a plane `M` of notes is split into
//! a kernel `K` repeated at the offsets `S` and a residual `R`.

pub mod counting;
pub mod order;
pub mod plane;
pub mod scatter;
pub mod tec;
pub mod bounded;
pub mod notes;
pub mod rules;
