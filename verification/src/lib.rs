//! Broadcast ring buffers: one writer or many, any number of readers, each at a
//! position of its own.
//!
//! A ring is a plain value, [`ring::SharedRing`]. Publishers and subscribers are
//! handles that are told which ring to work on. Whoever shares a ring between
//! threads decides how; every call leaves the ring in order, and so does every
//! single access that a call is made of (see [`steps`],
//! [`channel::publish_op`] and [`channel::read_op`]).

pub mod affinity;
pub mod backpressure;
pub mod barrier;
pub mod bus;
pub mod channel;
pub mod event;
pub mod event_runs;
pub mod histogram;
pub mod index;
pub mod mem;
pub mod message;
pub mod metrics;
pub mod pod;
pub mod polling;
pub mod ring;
pub mod ring_laws;
pub mod shutdown;
pub mod slot;
pub mod steps;
pub mod stripes;
pub mod text;
pub mod topics;
pub mod topology;
pub mod typed_bus;
pub mod wait;

pub use backpressure::{Tracker, TrackerTable};
pub use barrier::DependencyBarrier;
pub use bus::Photon;
pub use channel::constructors::{channel, channel_bounded, channel_mpmc};
pub use channel::errors::{PublishError, TryRecvError};
pub use channel::group::SubscriberGroup;
pub use channel::mp_publisher::MpPublisher;
pub use channel::publisher::Publisher;
pub use channel::subscribable::Subscribable;
pub use channel::subscriber::Subscriber;
pub use event::{event_channel, EventPublisher, EventRing, EventSubscribable, EventSubscriber};
pub use pod::Pod;
pub use ring::{Padded, SharedRing};
pub use shutdown::{Shutdown, ShutdownSignal};
pub use typed_bus::TypedBus;
pub use wait::WaitStrategy;
