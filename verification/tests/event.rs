//! The event ring carries payloads that the plain ring cannot: types that own
//! heap memory, enums, `Option`, `bool`. It reuses their allocations.

use photon_ring::event_channel;
use std::sync::atomic::{AtomicUsize, Ordering};
use std::sync::Arc;

#[derive(Debug, PartialEq)]
enum Side {
    Buy,
    Sell,
}

#[derive(Debug)]
struct Order {
    symbol: String,
    tags: Vec<u32>,
    side: Side,
    filled: bool,
    parent: Option<u64>,
}

impl Default for Order {
    fn default() -> Self {
        Order {
            symbol: String::new(),
            tags: Vec::new(),
            side: Side::Buy,
            filled: false,
            parent: None,
        }
    }
}

#[test]
fn carries_types_pod_forbids() {
    let (mut tx, rx, mut ring) = event_channel(8, Order::default);
    let mut sub = rx.subscribe(&mut ring);

    tx.publish(&mut ring, |o: &mut Order| {
        o.symbol.clear();
        o.symbol.push_str("BTCUSD");
        o.tags.clear();
        o.tags.extend_from_slice(&[7, 8, 9]);
        o.side = Side::Sell;
        o.filled = true;
        o.parent = Some(42);
    });

    let got = sub
        .process(&mut ring, |o: &Order| {
            (
                o.symbol.clone(),
                o.tags.clone(),
                matches!(o.side, Side::Sell),
                o.filled,
                o.parent,
            )
        })
        .expect("a message was published");

    assert_eq!(got.0, "BTCUSD");
    assert_eq!(got.1, vec![7, 8, 9]);
    assert!(got.2);
    assert!(got.3);
    assert_eq!(got.4, Some(42));
}

#[test]
fn steady_state_reuses_allocations() {
    let (mut tx, rx, mut ring) = event_channel(4, Order::default);
    let mut sub = rx.subscribe(&mut ring);

    // One full lap, so that each slot has grown its buffers once.
    for i in 0..4u32 {
        tx.publish(&mut ring, |o: &mut Order| {
            o.symbol.clear();
            o.symbol.push_str("SYMBOL");
            o.tags.clear();
            o.tags.push(i);
        });
        sub.process(&mut ring, |_: &Order| ()).unwrap();
    }

    // From here on the same shape must not allocate again.
    let mut caps = Vec::new();
    for i in 0..32u32 {
        tx.publish(&mut ring, |o: &mut Order| {
            o.symbol.clear();
            o.symbol.push_str("SYMBOL");
            o.tags.clear();
            o.tags.push(i);
        });
        caps.push(
            sub.process(&mut ring, |o: &Order| (o.symbol.capacity(), o.tags.capacity()))
                .unwrap(),
        );
    }

    let first = caps[0];
    assert!(
        caps.iter().all(|&c| c == first),
        "steady-state publishing reallocated: {caps:?}"
    );
    assert!(first.0 >= 6 && first.1 >= 1, "buffers were actually used");
}

#[test]
fn a_slot_keeps_what_was_made_or_published_one_lap_before() {
    let mut next = 0u32;
    let (mut tx, rx, mut ring) = event_channel(3, move || {
        next += 1;
        vec![next]
    });
    let mut sub = rx.subscribe(&mut ring);
    let mut found = Vec::new();
    for i in 0..7u32 {
        tx.publish(&mut ring, |v: &mut Vec<u32>| {
            found.push(v.clone());
            *v = vec![100 + i];
        });
        sub.process(&mut ring, |_: &Vec<u32>| ()).unwrap();
    }
    assert_eq!(
        found,
        vec![vec![1], vec![2], vec![3], vec![100], vec![101], vec![102], vec![103]]
    );
}

struct Counted(usize, Arc<AtomicUsize>);

impl Counted {
    fn new(alive: &Arc<AtomicUsize>) -> Self {
        alive.fetch_add(1, Ordering::SeqCst);
        Counted(0, alive.clone())
    }
}

impl Drop for Counted {
    fn drop(&mut self) {
        self.1.fetch_sub(1, Ordering::SeqCst);
    }
}

#[test]
fn values_are_dropped_exactly_once_when_the_ring_dies() {
    let alive = Arc::new(AtomicUsize::new(0));
    {
        let source = alive.clone();
        let (mut tx, rx, mut ring) = event_channel(8, move || Counted::new(&source));
        assert_eq!(alive.load(Ordering::SeqCst), 8, "factory fills every slot");
        let mut sub = rx.subscribe(&mut ring);
        tx.publish(&mut ring, |c: &mut Counted| c.0 = 1);
        assert_eq!(sub.process(&mut ring, |c: &Counted| c.0), Some(1));
    }

    assert_eq!(
        alive.load(Ordering::SeqCst),
        0,
        "every slot value must be dropped when the ring is dropped"
    );
}

#[test]
fn every_subscriber_gates_the_publisher() {
    let (mut tx, rx, mut ring) = event_channel(4, || 0u64);
    let _idle = rx.subscribe(&mut ring);

    for i in 0..4u64 {
        assert!(tx.try_publish(&mut ring, |v: &mut u64| *v = i), "ring has room");
    }
    assert!(
        !tx.try_publish(&mut ring, |v: &mut u64| *v = 99),
        "an idle subscriber must stop the publisher"
    );
}

#[test]
fn a_dropped_subscriber_releases_the_publisher() {
    let (mut tx, rx, mut ring) = event_channel(4, || 0u64);
    {
        let blocker = rx.subscribe(&mut ring);
        for i in 0..4u64 {
            assert!(tx.try_publish(&mut ring, |v: &mut u64| *v = i));
        }
        assert!(
            !tx.try_publish(&mut ring, |v: &mut u64| *v = 99),
            "blocked while it is alive"
        );
        blocker.unsubscribe(&mut ring);
    }
    assert!(
        tx.try_publish(&mut ring, |v: &mut u64| *v = 100),
        "dropping the subscriber must release the publisher"
    );
}

#[test]
fn a_subscriber_sees_later_messages_only_and_all_of_them() {
    let (mut tx, rx, mut ring) = event_channel(4, || 0u64);
    tx.publish(&mut ring, |v: &mut u64| *v = 1);
    let mut sub = rx.subscribe(&mut ring);
    assert_eq!(sub.pending(&ring), 0);
    assert_eq!(sub.process(&mut ring, |v: &u64| *v), None);
    for i in 2..100u64 {
        assert!(tx.try_publish(&mut ring, |v: &mut u64| *v = i));
        assert_eq!(sub.pending(&ring), 1);
        assert_eq!(sub.process(&mut ring, |v: &u64| *v), Some(i));
    }
    assert_eq!(tx.published(), 99);
    assert_eq!(sub.cursor(), 99);
    assert_eq!(tx.capacity(&ring), 4);
}

#[test]
fn a_refused_event_does_not_run() {
    let (mut tx, rx, mut ring) = event_channel(2, || 0u64);
    let mut sub = rx.subscribe(&mut ring);
    assert!(tx.try_publish(&mut ring, |v: &mut u64| *v = 1));
    assert!(tx.try_publish(&mut ring, |v: &mut u64| *v = 2));
    assert!(!tx.try_publish(&mut ring, |_: &mut u64| panic!("must not run")));
    assert_eq!(sub.process(&mut ring, |v: &u64| *v), Some(1));
    // An event is filled in place: it starts from what the slot held.
    assert!(tx.try_publish(&mut ring, |v: &mut u64| *v += 10));
    assert_eq!(sub.process(&mut ring, |v: &u64| *v), Some(2));
    assert_eq!(sub.process(&mut ring, |v: &u64| *v), Some(11));
}
