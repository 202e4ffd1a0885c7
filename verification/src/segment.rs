//! Point segments: the unit of storage that the collection core arranges.

pub mod entry_point;
pub mod segment;
pub mod types;
