//! A bus whose topics have types of their own.

use photon_ring::typed_bus::{mismatch_text, taken_text};
use photon_ring::TypedBus;

#[test]
fn topics_are_numbered_as_they_appear() {
    let mut bus = TypedBus::new(16);
    assert_eq!(bus.capacity(), 16);
    assert_eq!(bus.subscribable("prices", 1, "f64"), 0);
    assert_eq!(bus.subscribable("volumes", 2, "u32"), 1);
    assert_eq!(bus.subscribable("prices", 1, "f64"), 0);
}

#[test]
fn a_topic_keeps_its_type() {
    let mut bus = TypedBus::new(16);
    assert_eq!(bus.other_type("prices", 1), None);
    bus.subscribable("prices", 1, "f64");
    assert_eq!(bus.other_type("prices", 1), None);
    assert_eq!(bus.other_type("prices", 2), Some("f64".to_string()));
    assert_eq!(
        mismatch_text("prices", "f64", "u32"),
        "topic 'prices' exists with type 'f64', cannot access as 'u32'"
    );
}

#[test]
fn a_publisher_is_handed_out_once() {
    let mut bus = TypedBus::new(16);
    assert_eq!(bus.publisher("a", 1, "u64"), 0);
    assert_eq!(bus.try_publisher("a", 1, "u64"), None);
    assert_eq!(bus.try_publisher("b", 1, "u64"), Some(1));
    assert_eq!(taken_text("a"), "publisher already taken for topic 'a'");
}

#[test]
fn a_new_topic_has_a_fresh_ring_of_the_size_of_the_bus() {
    let bus = TypedBus::new(6);
    let (mut prices, mut ring) = bus.new_channel::<u64>();
    let (mut volumes, mut other) = bus.new_channel::<u32>();
    // Whoever subscribes before the publisher is taken misses nothing.
    let mut early = prices.subscribable.subscribe(&mut ring);
    let mut publisher = prices.take_publisher().expect("nobody has taken it");
    assert!(prices.take_publisher().is_none());
    assert_eq!(publisher.published(), 0);
    assert_eq!(publisher.capacity(&ring), 6);
    publisher.publish(&mut ring, 7);
    assert_eq!(early.try_recv(&mut ring), Ok(7));
    // The other topic has a ring of its own.
    let mut elsewhere = volumes.subscribable.subscribe(&mut other);
    assert_eq!(elsewhere.pending(&other), 0);
    assert!(elsewhere.try_recv(&mut other).is_err());
    assert!(volumes.take_publisher().is_some());
}
