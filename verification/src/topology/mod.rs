//! Stages and consumers that are chained by rings.

pub mod builder;
pub mod consumer;
pub mod pipeline;
pub mod stage;
