//! Construction of a collection from its configuration.

pub mod collection_builder_base;
pub mod optimizers_builder;
