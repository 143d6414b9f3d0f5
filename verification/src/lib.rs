//! Fractal structures of NBS songs: translation analysis of the note plane
//! and block-level projections of note tracks.

pub mod analysis;
pub mod schematic;
pub mod note;
