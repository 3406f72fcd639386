//! What channels promise, on values.

use photon_ring::channel::subscriber::{after_miss, after_miss_with, Latest};
use photon_ring::wait::WaitAction;
use photon_ring::{
    channel, channel_bounded, channel_mpmc, DependencyBarrier, PublishError, TryRecvError,
    WaitStrategy,
};

#[test]
fn capacities_need_not_be_powers_of_two() {
    for capacity in [2usize, 3, 5, 7, 100] {
        let (mut p, s, mut ring) = channel::<u64>(capacity);
        let mut sub = s.subscribe(&mut ring);
        for i in 0..(3 * capacity as u64) {
            p.publish(&mut ring, i);
        }
        assert_eq!(
            sub.try_recv(&mut ring),
            Err(TryRecvError::Lagged {
                skipped: 2 * capacity as u64
            })
        );
        let rest: Vec<u64> = (2 * capacity as u64..3 * capacity as u64).collect();
        assert_eq!(sub.drain(&mut ring), rest);
    }
}

#[test]
fn received_and_lost_add_up() {
    let (mut p, s, mut ring) = channel::<u64>(4);
    let mut sub = s.subscribe(&mut ring);
    let mut published = 0;
    for burst in [1u64, 3, 9, 0, 4, 17] {
        for _ in 0..burst {
            p.publish(&mut ring, published);
            published += 1;
        }
        let got = sub.drain(&mut ring);
        assert!(got.windows(2).all(|w| w[1] == w[0] + 1));
        assert_eq!(sub.total_received() + sub.total_lagged(), published);
        assert_eq!(sub.total_seen(), published);
        assert_eq!(sub.cursor(), published);
    }
    assert_eq!(sub.total_lagged(), (9 - 4) + (17 - 4));
}

#[test]
fn a_batch_fills_its_buffer_from_the_front() {
    let (mut p, s, mut ring) = channel::<u64>(4);
    let mut sub = s.subscribe(&mut ring);
    let mut buf = [77u64; 3];
    assert_eq!(sub.recv_batch(&mut ring, &mut buf), 0);
    assert_eq!(buf, [77, 77, 77]);
    p.publish(&mut ring, 1);
    p.publish(&mut ring, 2);
    assert_eq!(sub.recv_batch(&mut ring, &mut buf), 2);
    assert_eq!(buf, [1, 2, 77]);
    for i in 0..6 {
        p.publish(&mut ring, 10 + i);
    }
    // Two are lost, and the batch goes on behind them.
    assert_eq!(sub.recv_batch(&mut ring, &mut buf), 3);
    assert_eq!(buf, [12, 13, 14]);
    assert_eq!(sub.total_lagged(), 2);
    assert_eq!(sub.recv_batch(&mut ring, &mut []), 0);
    assert_eq!(sub.pending(&ring), 1);
}

#[test]
fn blocking_calls_return_what_is_there() {
    let (mut p, s, mut ring) = channel::<u64>(4);
    let mut sub = s.subscribe(&mut ring);
    p.publish_with(&mut ring, || 5);
    assert_eq!(sub.recv(&mut ring), 5);
    for i in 0..6 {
        p.publish(&mut ring, i);
    }
    // A lag is no message: the next one is waited for.
    assert_eq!(sub.recv_with(&mut ring, WaitStrategy::BusySpin), 2);
    assert_eq!(sub.total_lagged(), 2);
    assert_eq!(p.sequence(), 7);
    assert_eq!(p.published(), 7);
}

#[test]
fn a_miss_decides_how_to_go_on() {
    assert_eq!(
        after_miss(TryRecvError::Empty, 3),
        (WaitAction::Nothing, 4)
    );
    assert_eq!(
        after_miss_with(WaitStrategy::YieldSpin, TryRecvError::Empty, 3),
        (WaitAction::Pause(1), 4)
    );
}

#[test]
fn latest_is_none_only_before_the_first_message() {
    let (mut p, s, mut ring) = channel::<u64>(2);
    let mut sub = s.subscribe(&mut ring);
    assert!(matches!(sub.poll_latest(&mut ring), Latest::Nothing));
    for i in 0..9 {
        p.publish(&mut ring, i);
    }
    assert_eq!(sub.latest(&mut ring), Some(8));
    assert_eq!(sub.total_received(), 1);
    // The newest message is given again, until there is a newer one.
    assert_eq!(sub.latest(&mut ring), Some(8));
    p.publish(&mut ring, 9);
    assert_eq!(sub.latest(&mut ring), Some(9));
    assert_eq!(sub.try_recv(&mut ring), Err(TryRecvError::Empty));
}

#[test]
fn readers_do_not_disturb_each_other() {
    let (mut p, s, mut ring) = channel::<u64>(4);
    let mut fast = s.subscribe(&mut ring);
    let mut slow = s.subscribe(&mut ring);
    for i in 0..4 {
        p.publish(&mut ring, i);
        assert_eq!(fast.try_recv(&mut ring), Ok(i));
    }
    assert_eq!(slow.pending(&ring), 4);
    assert_eq!(slow.drain(&mut ring), vec![0, 1, 2, 3]);
}

#[test]
fn a_group_reads_once_for_all() {
    let (mut p, s, mut ring) = channel::<u64>(4);
    let mut group = s.subscribe_group::<4>(&mut ring);
    assert_eq!(group.aligned_count(), 4);
    for i in 0..6 {
        p.publish(&mut ring, i);
    }
    assert_eq!(group.pending(&ring), 4);
    assert_eq!(
        group.try_recv(&mut ring),
        Err(TryRecvError::Lagged { skipped: 2 })
    );
    assert_eq!(group.recv(&mut ring), 2);
    let mut buf = [0u64; 8];
    assert_eq!(group.recv_batch(&mut ring, &mut buf), 3);
    assert_eq!(buf[..3], [3, 4, 5]);
    assert_eq!(group.total_received(), 4);
    assert_eq!(group.total_lagged(), 2);
    group.unsubscribe(&mut ring);
}

#[test]
fn a_barrier_holds_until_every_upstream_has_read() {
    let (mut p, s, mut ring) = channel_bounded::<u64>(8, 0);
    let mut a = s.subscribe_tracked(&mut ring);
    let mut b = s.subscribe_tracked(&mut ring);
    let barrier = DependencyBarrier::from_subscribers(&[&a, &b]);
    assert_eq!(barrier.upstream_count(), 2);
    let mut c = s.subscribe(&mut ring);

    p.publish(&mut ring, 7);
    assert_eq!(c.try_recv_gated(&mut ring, &barrier), Err(TryRecvError::Empty));
    assert_eq!(a.try_recv(&mut ring), Ok(7));
    assert_eq!(barrier.slowest(ring.trackers()), 0);
    assert_eq!(c.try_recv_gated(&mut ring, &barrier), Err(TryRecvError::Empty));
    assert_eq!(b.try_recv(&mut ring), Ok(7));
    assert_eq!(barrier.slowest(ring.trackers()), 1);
    assert_eq!(c.recv_gated(&mut ring, &barrier), 7);
    assert_eq!(c.try_recv_gated(&mut ring, &barrier), Err(TryRecvError::Empty));
}

#[test]
fn a_tracked_subscriber_does_not_gate_a_lossy_ring() {
    let (mut p, s, mut ring) = channel::<u64>(4);
    let watched = s.subscribe_tracked(&mut ring);
    for i in 0..100 {
        assert!(p.has_room(&mut ring));
        p.try_publish(&mut ring, i).unwrap();
    }
    assert!(watched.tracker().is_some());
    assert!(s.subscribe(&mut ring).tracker().is_none());
}

#[test]
fn a_full_ring_gives_the_message_back() {
    let (mut p, s, mut ring) = channel_bounded::<u64>(2, 0);
    let _sub = s.subscribe(&mut ring);
    p.publish_batch(&mut ring, &[1, 2]);
    assert!(!p.has_room(&mut ring));
    assert_eq!(p.try_publish(&mut ring, 3), Err(PublishError::Full(3)));
    assert_eq!(p.published(), 2);
    assert_eq!(ring.head(), Some(1));
}

#[test]
fn producers_share_one_sequence() {
    let (a, s, mut ring) = channel_mpmc::<u64>(8);
    let b = a.clone();
    let mut sub = s.subscribe(&mut ring);
    a.publish(&mut ring, 1);
    b.publish_with(&mut ring, || 2);
    a.publish(&mut ring, 3);
    assert_eq!(b.published(&ring), 3);
    assert_eq!(sub.drain(&mut ring), vec![1, 2, 3]);
}
