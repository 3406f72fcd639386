use photon_ring::{channel, Photon, Pod, Subscriber, TryRecvError};

// -------------------------------------------------------------------------
// Basic publish / receive
// -------------------------------------------------------------------------

#[test]
fn single_message() {
    let (mut p, s, mut ring) = channel::<u64>(4);
    let mut sub = s.subscribe(&mut ring);
    p.publish(&mut ring, 42);
    assert_eq!(sub.try_recv(&mut ring), Ok(42));
}

#[test]
fn empty_recv() {
    let (_p, s, mut ring) = channel::<u64>(4);
    let mut sub = s.subscribe(&mut ring);
    assert_eq!(sub.try_recv(&mut ring), Err(TryRecvError::Empty));
}

#[test]
fn sequential_messages() {
    let (mut p, s, mut ring) = channel::<u64>(8);
    let mut sub = s.subscribe(&mut ring);
    for i in 0..8 {
        p.publish(&mut ring, i);
    }
    for i in 0..8 {
        assert_eq!(sub.try_recv(&mut ring), Ok(i));
    }
    assert_eq!(sub.try_recv(&mut ring), Err(TryRecvError::Empty));
}

#[test]
fn interleaved_publish_recv() {
    let (mut p, s, mut ring) = channel::<u64>(4);
    let mut sub = s.subscribe(&mut ring);

    p.publish(&mut ring, 1);
    assert_eq!(sub.try_recv(&mut ring), Ok(1));

    p.publish(&mut ring, 2);
    p.publish(&mut ring, 3);
    assert_eq!(sub.try_recv(&mut ring), Ok(2));
    assert_eq!(sub.try_recv(&mut ring), Ok(3));
    assert_eq!(sub.try_recv(&mut ring), Err(TryRecvError::Empty));
}

// -------------------------------------------------------------------------
// Multi-subscriber fanout
// -------------------------------------------------------------------------

#[test]
fn two_subscribers() {
    let (mut p, s, mut ring) = channel::<u64>(8);
    let mut s1 = s.subscribe(&mut ring);
    let mut s2 = s.subscribe(&mut ring);

    p.publish(&mut ring, 10);
    p.publish(&mut ring, 20);

    assert_eq!(s1.try_recv(&mut ring), Ok(10));
    assert_eq!(s1.try_recv(&mut ring), Ok(20));
    assert_eq!(s2.try_recv(&mut ring), Ok(10));
    assert_eq!(s2.try_recv(&mut ring), Ok(20));
}

#[test]
fn five_subscribers_independent_cursors() {
    let (mut p, s, mut ring) = channel::<u32>(16);
    let mut subs: Vec<Subscriber<u32>> = (0..5).map(|_| s.subscribe(&mut ring)).collect();

    for i in 0..10 {
        p.publish(&mut ring, i);
    }

    // Read different amounts from each.
    for (idx, sub) in subs.iter_mut().enumerate() {
        for i in 0..(idx + 1) as u32 {
            assert_eq!(sub.try_recv(&mut ring), Ok(i));
        }
    }
}

// -------------------------------------------------------------------------
// Ring overflow / lag detection
// -------------------------------------------------------------------------

#[test]
fn lag_detection_fast_path() {
    let (mut p, s, mut ring) = channel::<u64>(4);
    let mut sub = s.subscribe(&mut ring);

    // Fill the ring of 4 slots and overflow it by 2.
    for i in 0..6 {
        p.publish(&mut ring, i);
    }

    // Messages 0 and 1 are gone.
    let err = sub.try_recv(&mut ring).unwrap_err();
    assert_eq!(err, TryRecvError::Lagged { skipped: 2 });

    // After the lag the oldest message that is left comes first.
    assert_eq!(sub.try_recv(&mut ring), Ok(2));
    assert_eq!(sub.try_recv(&mut ring), Ok(3));
    assert_eq!(sub.try_recv(&mut ring), Ok(4));
    assert_eq!(sub.try_recv(&mut ring), Ok(5));
    assert_eq!(sub.try_recv(&mut ring), Err(TryRecvError::Empty));
}

#[test]
fn heavy_overflow() {
    let (mut p, s, mut ring) = channel::<u64>(4);
    let mut sub = s.subscribe(&mut ring);

    // 100 messages into a ring of 4 slots.
    for i in 0..100 {
        p.publish(&mut ring, i);
    }

    let err = sub.try_recv(&mut ring).unwrap_err();
    match err {
        TryRecvError::Lagged { skipped } => assert_eq!(skipped, 96),
        other => panic!("expected Lagged, got {other:?}"),
    }

    // The last 4 messages are left.
    assert_eq!(sub.try_recv(&mut ring), Ok(96));
    assert_eq!(sub.try_recv(&mut ring), Ok(97));
    assert_eq!(sub.try_recv(&mut ring), Ok(98));
    assert_eq!(sub.try_recv(&mut ring), Ok(99));
}

// -------------------------------------------------------------------------
// Latest / pending
// -------------------------------------------------------------------------

#[test]
fn latest_skips_to_newest() {
    let (mut p, s, mut ring) = channel::<u64>(8);
    let mut sub = s.subscribe(&mut ring);

    for i in 0..5 {
        p.publish(&mut ring, i);
    }

    assert_eq!(sub.latest(&mut ring), Some(4));
    // The subscriber is past the newest message now.
    assert_eq!(sub.try_recv(&mut ring), Err(TryRecvError::Empty));
}

#[test]
fn latest_returns_none_when_empty() {
    let (_p, s, mut ring) = channel::<u64>(4);
    let mut sub = s.subscribe(&mut ring);
    assert_eq!(sub.latest(&mut ring), None);
}

#[test]
fn pending_count() {
    let (mut p, s, mut ring) = channel::<u64>(8);
    let mut sub = s.subscribe(&mut ring);

    assert_eq!(sub.pending(&ring), 0);

    p.publish(&mut ring, 1);
    assert_eq!(sub.pending(&ring), 1);

    p.publish(&mut ring, 2);
    p.publish(&mut ring, 3);
    assert_eq!(sub.pending(&ring), 3);

    sub.try_recv(&mut ring).unwrap();
    assert_eq!(sub.pending(&ring), 2);
}

// -------------------------------------------------------------------------
// Batch publish
// -------------------------------------------------------------------------

#[test]
fn batch_publish() {
    let (mut p, s, mut ring) = channel::<u64>(8);
    let mut sub = s.subscribe(&mut ring);

    let batch: Vec<u64> = (10..15).collect();
    p.publish_batch(&mut ring, &batch);

    for i in 10..15 {
        assert_eq!(sub.try_recv(&mut ring), Ok(i));
    }
    assert_eq!(sub.try_recv(&mut ring), Err(TryRecvError::Empty));
}

#[test]
fn batch_publish_empty() {
    let (mut p, _s, mut ring) = channel::<u64>(4);
    p.publish_batch(&mut ring, &[]);
    assert_eq!(p.published(), 0);
}

// -------------------------------------------------------------------------
// When a subscriber starts
// -------------------------------------------------------------------------

#[test]
fn subscribe_sees_only_future() {
    let (mut p, s, mut ring) = channel::<u64>(8);
    p.publish(&mut ring, 1);
    p.publish(&mut ring, 2);

    let mut sub = s.subscribe(&mut ring); // after 1 and 2
    assert_eq!(sub.try_recv(&mut ring), Err(TryRecvError::Empty));

    p.publish(&mut ring, 3);
    assert_eq!(sub.try_recv(&mut ring), Ok(3));
}

#[test]
fn subscribe_from_oldest() {
    let (mut p, s, mut ring) = channel::<u64>(8);
    p.publish(&mut ring, 1);
    p.publish(&mut ring, 2);
    p.publish(&mut ring, 3);

    let mut sub = s.subscribe_from_oldest(&mut ring);
    assert_eq!(sub.try_recv(&mut ring), Ok(1));
    assert_eq!(sub.try_recv(&mut ring), Ok(2));
    assert_eq!(sub.try_recv(&mut ring), Ok(3));
}

#[test]
fn subscribe_from_oldest_after_overflow() {
    let (mut p, s, mut ring) = channel::<u64>(4);
    for i in 0..10 {
        p.publish(&mut ring, i);
    }

    let mut sub = s.subscribe_from_oldest(&mut ring);
    // The oldest message in the ring is 10 - 4 = 6.
    assert_eq!(sub.try_recv(&mut ring), Ok(6));
    assert_eq!(sub.try_recv(&mut ring), Ok(7));
    assert_eq!(sub.try_recv(&mut ring), Ok(8));
    assert_eq!(sub.try_recv(&mut ring), Ok(9));
}

// -------------------------------------------------------------------------
// Struct payload
// -------------------------------------------------------------------------

#[derive(Debug, Clone, Copy, PartialEq)]
struct Quote {
    price: f64,
    volume: u64,
    ts: u64,
}

impl Pod for Quote {}

#[test]
fn struct_payload() {
    let (mut p, s, mut ring) = channel::<Quote>(8);
    let mut sub = s.subscribe(&mut ring);

    let q = Quote {
        price: 123.45,
        volume: 1000,
        ts: 999,
    };
    p.publish(&mut ring, q);

    assert_eq!(sub.try_recv(&mut ring), Ok(q));
}

// -------------------------------------------------------------------------
// Bus
// -------------------------------------------------------------------------

#[test]
fn bus_basic() {
    let mut bus = Photon::<u64>::new(64);
    let mut p = bus.publisher("quotes");
    let mut sub = bus.subscribe("quotes");

    p.publish(bus.ring_mut("quotes"), 100);
    assert_eq!(sub.try_recv(bus.ring_mut("quotes")), Ok(100));
}

#[test]
fn bus_multi_topic() {
    let mut bus = Photon::<u64>::new(64);
    let mut p1 = bus.publisher("A");
    let mut p2 = bus.publisher("B");
    let mut s1 = bus.subscribe("A");
    let mut s2 = bus.subscribe("B");

    p1.publish(bus.ring_mut("A"), 1);
    p2.publish(bus.ring_mut("B"), 2);

    assert_eq!(s1.try_recv(bus.ring_mut("A")), Ok(1));
    assert_eq!(s2.try_recv(bus.ring_mut("B")), Ok(2));

    // Topics do not mix.
    assert_eq!(s1.try_recv(bus.ring_mut("A")), Err(TryRecvError::Empty));
    assert_eq!(s2.try_recv(bus.ring_mut("B")), Err(TryRecvError::Empty));
}

#[test]
fn bus_subscribe_before_publisher() {
    let mut bus = Photon::<u64>::new(64);
    let mut sub = bus.subscribe("late");
    let mut p = bus.publisher("late");

    p.publish(bus.ring_mut("late"), 99);
    assert_eq!(sub.try_recv(bus.ring_mut("late")), Ok(99));
}

#[test]
fn bus_rings_can_be_looked_at() {
    let mut bus = Photon::<u64>::new(64);
    let mut p = bus.publisher("A");
    let sub = bus.subscribe("A");
    p.publish(bus.ring_mut("A"), 1);
    assert_eq!(sub.pending(bus.ring("A")), 1);
    assert_eq!(p.capacity(bus.ring("A")), 64);
}

#[test]
fn a_batch_may_be_split() {
    let (mut p, s, mut ring) = channel::<u64>(8);
    let (mut q, t, mut other) = channel::<u64>(8);
    let mut whole = s.subscribe(&mut ring);
    let mut parts = t.subscribe(&mut other);
    p.publish_batch(&mut ring, &[1, 2, 3, 4, 5]);
    q.publish_batch(&mut other, &[1, 2]);
    q.publish_batch(&mut other, &[3, 4, 5]);
    assert_eq!(p.published(), q.published());
    for i in 1..6 {
        assert_eq!(whole.try_recv(&mut ring), Ok(i));
        assert_eq!(parts.try_recv(&mut other), Ok(i));
    }
}

#[test]
fn bus_publisher_is_taken_once() {
    let mut bus = Photon::<u64>::new(64);
    assert!(bus.try_publisher("X").is_some());
    assert!(bus.try_publisher("X").is_none());
    assert!(bus.try_publisher("Y").is_some());
}

#[test]
fn bus_subscribable_makes_independent_subscribers() {
    let mut bus = Photon::<u64>::new(4);
    let handle = bus.subscribable("t");
    let mut p = bus.publisher("t");
    let mut a = handle.subscribe(bus.ring_mut("t"));
    let mut b = handle.clone().subscribe(bus.ring_mut("t"));
    p.publish(bus.ring_mut("t"), 5);
    assert_eq!(a.try_recv(bus.ring_mut("t")), Ok(5));
    assert_eq!(b.try_recv(bus.ring_mut("t")), Ok(5));
}

// -------------------------------------------------------------------------
// Publisher metadata
// -------------------------------------------------------------------------

#[test]
fn published_count() {
    let (mut p, _s, mut ring) = channel::<u64>(8);
    assert_eq!(p.published(), 0);
    p.publish(&mut ring, 1);
    assert_eq!(p.published(), 1);
    p.publish_batch(&mut ring, &[2, 3, 4]);
    assert_eq!(p.published(), 4);
}

#[test]
fn capacity_query() {
    let (p, _s, ring) = channel::<u64>(128);
    assert_eq!(p.capacity(&ring), 128);
}
