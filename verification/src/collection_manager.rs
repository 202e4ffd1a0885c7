//! Applying operations to the segments of a collection, and reading points
//! back from them.

pub mod points_reader;
pub mod search;
pub mod segments_updater;
