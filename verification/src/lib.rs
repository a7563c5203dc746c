//! Line-of-sight checks of a primary radar over a terrain grid, and the line
//! protocol by which the radar plugin asks a helper process for them.

pub mod grid;
pub mod path;
pub mod protocol;
pub mod sight;
