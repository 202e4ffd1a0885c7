//! Update operations and the request, response and error types around them.

pub mod point_ops;
pub mod types;
