//! Receiving by polling.

use photon_ring::channel;
use photon_ring::polling::{AsyncSubscriber, AsyncSubscriberGroup, Polled, DEFAULT_SPIN_BUDGET};
use photon_ring::SharedRing;

fn ready<T>(polled: Polled<T>) -> T {
    match polled {
        Polled::Ready(value) => value,
        Polled::Pending => panic!("expected a value"),
    }
}

fn recv(sub: &mut AsyncSubscriber<u64>, ring: &mut SharedRing<u64>) -> u64 {
    ready(sub.poll_recv(ring))
}

#[test]
fn test_async_recv_single() {
    let (mut pub_, subs, mut ring) = channel::<u64>(64);
    let mut async_sub = AsyncSubscriber::new(subs.subscribe(&mut ring));

    for i in 0..10 {
        pub_.publish(&mut ring, i);
    }

    for i in 0..10 {
        let value = recv(&mut async_sub, &mut ring);
        assert_eq!(value, i);
    }
}

#[test]
fn test_async_recv_batch() {
    let (mut pub_, subs, mut ring) = channel::<u64>(64);
    let mut async_sub = AsyncSubscriber::new(subs.subscribe(&mut ring));

    for i in 0..10 {
        pub_.publish(&mut ring, i);
    }

    let mut buf = [0u64; 16];
    let count = ready(async_sub.poll_recv_batch(&mut ring, &mut buf));
    assert_eq!(count, 10);
    for i in 0..10 {
        assert_eq!(buf[i], i as u64);
    }
}

#[test]
fn test_async_spin_budget() {
    let (mut pub_, subs, mut ring) = channel::<u64>(64);
    let mut async_sub = AsyncSubscriber::with_spin_budget(subs.subscribe(&mut ring), 4);

    // Nothing is published: nothing comes back after 4 tries.
    let result = async_sub.poll_recv(&mut ring);
    assert!(
        matches!(result, Polled::Pending),
        "expected Pending with no messages"
    );

    pub_.publish(&mut ring, 42);
    let result = async_sub.poll_recv(&mut ring);
    assert_eq!(ready(result), 42);
}

#[test]
fn test_async_stats_forwarded() {
    let (mut pub_, subs, mut ring) = channel::<u64>(64);
    let mut async_sub = AsyncSubscriber::new(subs.subscribe(&mut ring));

    assert_eq!(async_sub.total_received(), 0);
    assert_eq!(async_sub.total_lagged(), 0);

    pub_.publish(&mut ring, 1);
    pub_.publish(&mut ring, 2);
    let _ = recv(&mut async_sub, &mut ring);
    let _ = recv(&mut async_sub, &mut ring);

    assert_eq!(async_sub.total_received(), 2);
}

#[test]
fn test_async_into_inner() {
    let (_pub_, subs, mut ring) = channel::<u64>(64);
    let async_sub = AsyncSubscriber::new(subs.subscribe(&mut ring));
    assert_eq!(async_sub.spin_budget(), 64);
    let _inner = async_sub.into_inner();
}

#[test]
fn test_recv_batch_empty_buffer() {
    // An empty buffer holds nothing: no message is taken for it.
    let (mut pub_, subs, mut ring) = channel::<u64>(64);
    let mut async_sub = AsyncSubscriber::new(subs.subscribe(&mut ring));
    pub_.publish(&mut ring, 7);

    assert_eq!(ready(async_sub.poll_recv_batch(&mut ring, &mut [])), 0);

    // The message is still there.
    assert_eq!(recv(&mut async_sub, &mut ring), 7);
}

#[test]
fn a_lag_is_skipped_within_one_poll() {
    let (mut pub_, subs, mut ring) = channel::<u64>(4);
    let mut async_sub = AsyncSubscriber::with_spin_budget(subs.subscribe(&mut ring), 2);
    for i in 0..6 {
        pub_.publish(&mut ring, i);
    }
    assert_eq!(recv(&mut async_sub, &mut ring), 2);
    assert_eq!(async_sub.total_lagged(), 2);
    assert_eq!(async_sub.pending(&ring), 3);
    async_sub.set_spin_budget(9);
    assert_eq!(async_sub.spin_budget(), 9);
    assert_eq!(async_sub.inner().cursor(), 3);
    assert_eq!(async_sub.inner_mut().try_recv(&mut ring), Ok(3));
}

#[test]
fn a_group_is_polled_as_one() {
    let (mut pub_, subs, mut ring) = channel::<u64>(8);
    let mut group = AsyncSubscriberGroup::new(subs.subscribe_group::<3>(&mut ring));
    assert_eq!(group.spin_budget(), DEFAULT_SPIN_BUDGET);
    assert!(matches!(group.poll_recv(&mut ring), Polled::Pending));
    for i in 0..5 {
        pub_.publish(&mut ring, i);
    }
    assert_eq!(ready(group.poll_recv(&mut ring)), 0);
    let mut buf = [0u64; 2];
    assert_eq!(ready(group.poll_recv_batch(&mut ring, &mut buf)), 2);
    assert_eq!(buf, [1, 2]);
    assert_eq!(group.pending(&ring), 2);
    assert_eq!(group.total_received(), 3);
    assert_eq!(group.total_lagged(), 0);
    assert_eq!(group.into_inner().aligned_count(), 3);
}
