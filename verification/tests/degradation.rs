//! What a bounded ring does when a consumer misbehaves.

use photon_ring::channel::subscriber::Subscriber;
use photon_ring::{channel_bounded, TryRecvError};

fn receive_ratio(sub: &Subscriber<u64>) -> f64 {
    sub.total_received() as f64 / sub.total_seen() as f64
}

#[test]
fn lossy_subscriber_never_gates_publisher() {
    let (mut p, s, mut ring) = channel_bounded::<u64>(16, 0);
    // Never read from: a tracked subscriber would stop the publisher here.
    let _idle = s.subscribe_lossy(&ring);

    for i in 0..10_000u64 {
        p.try_publish(&mut ring, i)
            .expect("lossy subscriber must not exert backpressure");
    }
    assert_eq!(p.published(), 10_000);
}

#[test]
fn tracked_subscriber_does_gate_publisher() {
    let (mut p, s, mut ring) = channel_bounded::<u64>(16, 0);
    let _idle = s.subscribe(&mut ring);

    for i in 0..16u64 {
        p.try_publish(&mut ring, i).expect("ring has room");
    }
    assert!(
        p.try_publish(&mut ring, 99).is_err(),
        "a tracked subscriber that has read nothing must stop the publisher"
    );
}

#[test]
fn mixed_criticality_on_one_ring() {
    let (mut p, s, mut ring) = channel_bounded::<u64>(8, 0);
    let mut critical = s.subscribe(&mut ring);
    let mut telemetry = s.subscribe_lossy(&ring);

    // The publisher is gated by `critical` only, which keeps up while
    // `telemetry` falls behind.
    for i in 0..64u64 {
        p.publish(&mut ring, i);
        assert_eq!(
            critical.try_recv(&mut ring),
            Ok(i),
            "tracked consumer must lose nothing"
        );
    }

    assert_eq!(critical.total_lagged(), 0);

    let mut lagged = false;
    loop {
        match telemetry.try_recv(&mut ring) {
            Ok(_) => {}
            Err(TryRecvError::Lagged { skipped }) => {
                assert!(skipped > 0);
                lagged = true;
            }
            Err(TryRecvError::Empty) => break,
        }
    }
    assert!(lagged, "lossy consumer should have observed lag");
    assert!(telemetry.total_lagged() > 0);
    assert!(receive_ratio(&telemetry) < 1.0);
    // What is received and what is lost add up to what was published.
    assert_eq!(telemetry.total_lagged(), 56);
    assert_eq!(telemetry.total_received(), 8);
}

#[test]
fn subscribers_share_a_sequence_space() {
    let (mut p, s, mut ring) = channel_bounded::<u64>(16, 0);
    let mut critical = s.subscribe(&mut ring);
    let mut tap = s.subscribe_lossy(&ring);

    p.publish(&mut ring, 100);
    p.publish(&mut ring, 200);

    assert_eq!(critical.cursor(), tap.cursor());
    assert_eq!(critical.try_recv(&mut ring), Ok(100));
    assert_eq!(tap.try_recv(&mut ring), Ok(100));
    assert_eq!(
        critical.cursor(),
        tap.cursor(),
        "same message, same sequence"
    );
}

#[test]
fn lossy_subscriber_hot_attaches_and_detaches() {
    let (mut p, s, mut ring) = channel_bounded::<u64>(16, 0);
    let mut critical = s.subscribe(&mut ring);

    for i in 0..8u64 {
        p.publish(&mut ring, i);
        assert_eq!(critical.try_recv(&mut ring), Ok(i));
    }

    {
        // Attached in midstream: future messages only.
        let mut tap = s.subscribe_lossy(&ring);
        p.publish(&mut ring, 99);
        assert_eq!(critical.try_recv(&mut ring), Ok(99));
        assert_eq!(tap.try_recv(&mut ring), Ok(99));
        tap.unsubscribe(&mut ring);
    }

    // Publisher and critical consumer carry on untouched.
    for i in 100..200u64 {
        p.publish(&mut ring, i);
        assert_eq!(critical.try_recv(&mut ring), Ok(i));
    }
    assert_eq!(critical.total_lagged(), 0);
}

#[test]
fn losing_the_last_tracked_subscriber_unbounds_the_ring() {
    let (mut p, s, mut ring) = channel_bounded::<u64>(8, 0);
    let mut lossy = s.subscribe_lossy(&ring);

    {
        let critical = s.subscribe(&mut ring);
        for i in 0..8u64 {
            p.try_publish(&mut ring, i).expect("ring has room");
        }
        assert!(
            p.try_publish(&mut ring, 99).is_err(),
            "tracked subscriber gates here"
        );
        critical.unsubscribe(&mut ring);
    }

    // Without a tracked subscriber the publisher runs unbounded.
    for i in 0..1_000u64 {
        p.try_publish(&mut ring, i)
            .expect("nothing gates the publisher any more");
    }
    // The lossy subscriber sees that as lag.
    let mut lagged = false;
    while let Err(TryRecvError::Lagged { .. }) | Ok(_) = lossy.try_recv(&mut ring) {
        if lossy.total_lagged() > 0 {
            lagged = true;
            break;
        }
    }
    assert!(lagged, "lossy subscriber should observe the lap as lag");
}

#[test]
fn watermark_leaves_headroom() {
    let (mut p, s, mut ring) = channel_bounded::<u64>(4, 3);
    let mut sub = s.subscribe(&mut ring);
    p.try_publish(&mut ring, 1).expect("one slot may be used");
    assert!(p.try_publish(&mut ring, 2).is_err());
    assert_eq!(sub.try_recv(&mut ring), Ok(1));
    p.try_publish(&mut ring, 2).expect("the slot is free again");
}

#[test]
fn a_dead_gate_does_not_hide_a_live_one() {
    let (mut p, s, mut ring) = channel_bounded::<u64>(4, 0);
    let gone = s.subscribe(&mut ring);
    let mut live = s.subscribe(&mut ring);
    for i in 0..4u64 {
        p.try_publish(&mut ring, i).unwrap();
    }
    gone.unsubscribe(&mut ring);
    assert!(p.try_publish(&mut ring, 4).is_err(), "the live one gates");
    assert_eq!(live.try_recv(&mut ring), Ok(0));
    p.try_publish(&mut ring, 4).expect("one slot is free");
}
