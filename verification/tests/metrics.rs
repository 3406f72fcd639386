use photon_ring::channel;
use photon_ring::metrics::{PublisherMetrics, PublisherSnapshot, ReceiveRatio, SubscriberMetrics};

fn ratio(ratio: ReceiveRatio) -> f64 {
    if ratio.total == 0 {
        0.0
    } else {
        ratio.received as f64 / ratio.total as f64
    }
}

#[test]
fn subscriber_snapshot_initial() {
    let (_pub, subs, mut ring) = channel::<u64>(64);
    let sub = subs.subscribe(&mut ring);
    let metrics = SubscriberMetrics::new(&sub);
    let snap = metrics.snapshot(&sub, &ring);

    assert_eq!(snap.total_received, 0);
    assert_eq!(snap.total_lagged, 0);
    assert_eq!(ratio(snap.receive_ratio), 0.0);
    assert_eq!(snap.pending, 0);
}

#[test]
fn subscriber_snapshot_after_recv() {
    let (mut pub_, subs, mut ring) = channel::<u64>(64);
    let mut sub = subs.subscribe(&mut ring);
    let metrics = SubscriberMetrics::new(&sub);

    pub_.publish(&mut ring, 1);
    pub_.publish(&mut ring, 2);
    pub_.publish(&mut ring, 3);
    assert_eq!(sub.try_recv(&mut ring), Ok(1));
    assert_eq!(sub.try_recv(&mut ring), Ok(2));

    let snap = metrics.snapshot(&sub, &ring);
    assert_eq!(snap.total_received, 2);
    assert_eq!(snap.total_lagged, 0);
    assert_eq!(ratio(snap.receive_ratio), 1.0);
    assert_eq!(snap.pending, 1); // message 3 is not read yet
}

#[test]
fn subscriber_delta() {
    let (mut pub_, subs, mut ring) = channel::<u64>(64);
    let mut sub = subs.subscribe(&mut ring);
    let mut metrics = SubscriberMetrics::new(&sub);

    // Two messages first.
    pub_.publish(&mut ring, 10);
    pub_.publish(&mut ring, 20);
    assert_eq!(sub.try_recv(&mut ring), Ok(10));
    assert_eq!(sub.try_recv(&mut ring), Ok(20));

    let d1 = metrics.delta(&sub, &ring);
    assert_eq!(d1.total_received, 2);
    assert_eq!(d1.total_lagged, 0);

    // One more.
    pub_.publish(&mut ring, 30);
    assert_eq!(sub.try_recv(&mut ring), Ok(30));

    let d2 = metrics.delta(&sub, &ring);
    assert_eq!(d2.total_received, 1);
    assert_eq!(d2.total_lagged, 0);
}

#[test]
fn subscriber_delta_with_lag() {
    // 6 messages into 4 slots before the subscriber reads.
    let (mut pub_, subs, mut ring) = channel::<u64>(4);
    let mut sub = subs.subscribe(&mut ring);
    let mut metrics = SubscriberMetrics::new(&sub);

    for i in 0..6 {
        pub_.publish(&mut ring, i);
    }

    let _ = sub.try_recv(&mut ring); // lagged: the cursor moved on
    let _ = sub.try_recv(&mut ring); // a message

    let d = metrics.delta(&sub, &ring);
    assert!(d.total_lagged > 0 || d.total_received > 0);
    assert_eq!(d.total_lagged, 2);
    assert_eq!(d.total_received, 1);
    assert_eq!(d.receive_ratio, ReceiveRatio { received: 1, total: 3 });
}

#[test]
fn deltas_add_up() {
    let (mut pub_, subs, mut ring) = channel::<u64>(4);
    let mut sub = subs.subscribe(&mut ring);
    pub_.publish(&mut ring, 0);
    assert_eq!(sub.try_recv(&mut ring), Ok(0));
    let mut metrics = SubscriberMetrics::new(&sub);
    let (mut received, mut lagged) = (0, 0);
    for round in 1..6u64 {
        for i in 0..round * 2 {
            pub_.publish(&mut ring, i);
        }
        for _ in 0..round {
            let _ = sub.try_recv(&mut ring);
        }
        let d = metrics.delta(&sub, &ring);
        received += d.total_received;
        lagged += d.total_lagged;
        // Nothing was read since.
        let again = metrics.delta(&sub, &ring);
        assert_eq!((again.total_received, again.total_lagged), (0, 0));
        assert_eq!(again.receive_ratio.received, sub.total_received());
    }
    assert_eq!(received, sub.total_received() - 1);
    assert_eq!(lagged, sub.total_lagged());
    assert!(lagged > 0);
}

#[test]
fn publisher_snapshot() {
    let (mut pub_, _subs, mut ring) = channel::<u64>(128);

    let snap0 = PublisherMetrics::snapshot(&pub_, &ring);
    assert_eq!(snap0.published, 0);
    assert_eq!(snap0.capacity, 128);

    pub_.publish(&mut ring, 1);
    pub_.publish(&mut ring, 2);
    pub_.publish(&mut ring, 3);

    let snap1 = PublisherMetrics::snapshot(&pub_, &ring);
    assert_eq!(snap1.published, 3);
    assert_eq!(snap1.capacity, 128);
}

#[test]
fn publisher_snapshot_display() {
    let snap = PublisherSnapshot {
        published: 42,
        capacity: 1024,
    };
    let s = snap.to_text();
    assert_eq!(s, "published=42 capacity=1024");
}
