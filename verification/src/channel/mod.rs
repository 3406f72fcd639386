//! Single-producer and multi-producer channels over one ring.

pub mod bounded_laws;
pub mod constructors;
pub mod errors;
pub mod group;
pub mod laws;
pub mod mp_publisher;
pub mod producers;
pub mod publish_op;
pub mod publisher;
pub mod read_laws;
pub mod read_op;
pub mod runs;
pub mod subscribable;
pub mod subscriber;
