//! Block-level projections of note tracks: layouts that answer, for each
//! position of their bounding box, which block stands there.

pub mod blocks;
pub mod layout;
pub mod compact;
pub mod linear;
pub mod song;
