//! Durable-update core of a vector similarity collection: a sequence-numbered
//! operation log, a registry of point segments, the rules that apply logged
//! operations to those segments, and the optimizers that repack segments
//! without changing what the collection holds.

pub mod collection;
pub mod collection_builder;
pub mod collection_manager;
pub mod config;
pub mod operations;
pub mod segment;
pub mod segment_holder;
pub mod segment_optimizer;
pub mod text;
pub mod update_handler;
pub mod wal;
