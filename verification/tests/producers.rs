//! Producers that share a ring, interleaved access by access.

use photon_ring::channel::producers::interleave;
use photon_ring::channel::publish_op::{OpPhase, PublishOp};
use photon_ring::channel::read_op::{ReadOp, ReadPhase};
use photon_ring::{channel_bounded, channel_mpmc, SharedRing, Subscribable, Subscriber};

const CAPACITY: usize = 4;

/// More accesses than one publication makes.
const STEPS: u32 = 16;

fn start() -> (SharedRing<u64>, Subscribable<u64>, Vec<PublishOp<u64>>) {
    let (_publisher, subs, ring) = channel_mpmc::<u64>(CAPACITY);
    (ring, subs, vec![PublishOp::new(100), PublishOp::new(200)])
}

/// Finish what was begun, in turns.
fn finish(ring: &mut SharedRing<u64>, ops: &mut Vec<PublishOp<u64>>) {
    let turns: Vec<usize> = (0..64).map(|i| i % 2).collect();
    interleave(ring, ops, &turns);
    assert!(ops.iter().all(|op| op.finished()));
}

/// Let two producers publish one message each, in every order of their accesses,
/// and look at the ring after each of them.
fn every_schedule(mut look: impl FnMut(&SharedRing<u64>, &[PublishOp<u64>])) {
    for order in 0..(1u32 << STEPS) {
        let (mut ring, _subs, mut ops) = start();
        let schedule: Vec<usize> = (0..STEPS).map(|k| ((order >> k) & 1) as usize).collect();
        interleave(&mut ring, &mut ops, &schedule);
        finish(&mut ring, &mut ops);
        look(&ring, &ops);
    }
}

#[test]
fn two_producers_no_gap_invariant() {
    every_schedule(|ring, _ops| {
        let final_cursor = ring.head().expect("cursor was never advanced from sentinel");
        for seq in 0..=final_cursor {
            let done = seq * 2 + 2;
            let stamp = ring.stamp_load(seq);
            assert!(
                stamp >= done,
                "NoGap violated: cursor={final_cursor} but seq {seq} stamp={stamp} (need >= {done})"
            );
        }
    });
}

#[test]
fn stamps_all_committed_after_completion() {
    every_schedule(|ring, _ops| {
        let claimed = ring.claimed();
        assert_eq!(claimed, 2, "should have claimed 2 sequences");

        for seq in 0..claimed {
            let stamp = ring.stamp_load(seq);
            let done = seq * 2 + 2;
            assert!(
                stamp >= done,
                "seq {seq} stamp should be >= {done} (committed), got {stamp}"
            );
            assert!(
                stamp % 2 == 0,
                "seq {seq} stamp is odd ({stamp}), indicating incomplete write"
            );
        }
    });
}

#[test]
fn consumer_safety_at_quiescence() {
    every_schedule(|ring, _ops| {
        if let Some(cursor_val) = ring.head() {
            for seq in 0..=cursor_val {
                let done_stamp = seq * 2 + 2;
                let stamp = ring.stamp_load(seq);
                assert!(
                    stamp >= done_stamp,
                    "cursor={cursor_val} but seq {seq} stamp={stamp} (expected >= {done_stamp})"
                );
            }
        }
    });
}

#[test]
fn minimum_cursor_progress() {
    every_schedule(|ring, _ops| {
        assert_ne!(ring.head(), None, "cursor stuck at sentinel after 2 publishes");
    });
}

#[test]
fn sequence_numbers_are_unique() {
    every_schedule(|_ring, ops| {
        let s1 = ops[0].seq;
        let s2 = ops[1].seq;
        assert_ne!(s1, s2, "sequences must be distinct");
        assert!(s1 <= 1 && s2 <= 1, "sequences must be 0 or 1");
        assert_eq!(s1 + s2, 1, "sequences must be {{0, 1}}, got {s1} and {s2}");
    });
}

#[test]
fn catch_up_with_delayed_writer() {
    // The first producer claims its sequence and stalls; the second one goes on
    // until it has to wait; then both go on in turns that start at any point.
    for stall in 0..STEPS {
        let (mut ring, _subs, mut ops) = start();
        interleave(&mut ring, &mut ops, &[0]);
        let alone: Vec<usize> = (0..stall).map(|_| 1).collect();
        interleave(&mut ring, &mut ops, &alone);
        finish(&mut ring, &mut ops);

        assert_ne!(ops[0].seq, ops[1].seq);
        let final_cursor = ring.head().expect("cursor stuck at sentinel");
        for seq in 0..=final_cursor {
            let done = seq * 2 + 2;
            let stamp = ring.stamp_load(seq);
            assert!(
                stamp >= done,
                "NoGap violated: cursor={final_cursor}, seq {seq} stamp={stamp} (need >= {done})"
            );
        }
    }
}

#[test]
fn consumer_single_check_during_publish() {
    // A cursor that a consumer loads at any point tells of a finished message.
    for order in 0..(1u32 << 12) {
        let (mut ring, _subs, mut ops) = start();
        for k in 0..12 {
            interleave(&mut ring, &mut ops, &[((order >> k) & 1) as usize]);
            if let Some(cursor_val) = ring.head() {
                let done = cursor_val * 2 + 2;
                let stamp = ring.stamp_load(cursor_val);
                assert!(
                    stamp >= done,
                    "cursor={cursor_val} but stamp={stamp} (expected >= {done})"
                );
            }
        }
    }
}

#[test]
fn at_rest_the_cursor_is_at_the_last_message() {
    every_schedule(|ring, _ops| {
        assert_eq!(ring.head(), Some(1));
    });
}

#[test]
fn a_producer_waits_for_its_predecessor() {
    let (mut ring, subs, mut ops) = start();
    let mut sub = subs.subscribe(&mut ring);
    // The first producer claims; the second one writes its message and waits.
    interleave(&mut ring, &mut ops, &[0, 1, 1, 1, 1, 1, 1, 1]);
    assert_eq!(ops[1].phase, OpPhase::AwaitPredecessor);
    assert!(!ops[1].finished());
    assert_eq!(ring.head(), None);
    // Nothing is received before the first message is there.
    assert!(sub.try_recv(&mut ring).is_err());
    finish(&mut ring, &mut ops);
    assert_eq!(sub.try_recv(&mut ring), Ok(100));
    assert_eq!(sub.try_recv(&mut ring), Ok(200));
}

#[test]
fn a_read_is_whole_or_refused() {
    let (mut ring, _subs, mut ops) = start();
    let mut early = ReadOp::new(0);
    interleave(&mut ring, &mut ops, &[0, 0]);
    // The write is in progress.
    early.step(&ring);
    assert!(matches!(early.phase, ReadPhase::Torn));
    interleave(&mut ring, &mut ops, &[0, 0]);
    let mut read = ReadOp::new(0);
    read.step(&ring);
    read.step(&ring);
    read.step(&ring);
    assert!(matches!(read.phase, ReadPhase::Accepted(100)));
    let mut later = ReadOp::new(1);
    later.step(&ring);
    assert!(matches!(later.phase, ReadPhase::Other(0)));
}

#[test]
fn a_read_that_is_overtaken_is_refused() {
    let (publisher, _subs, mut ring) = channel_mpmc::<u64>(2);
    publisher.publish(&mut ring, 1);
    let mut read = ReadOp::new(0);
    read.step(&ring);
    read.step(&ring);
    // The slot is written anew between the copy and the second look.
    publisher.publish(&mut ring, 2);
    publisher.publish(&mut ring, 3);
    read.step(&ring);
    assert!(matches!(read.phase, ReadPhase::Torn));
}

// -------------------------------------------------------------------------
// Bounded rings
// -------------------------------------------------------------------------

#[test]
fn subscriber_joining_a_live_ring_is_never_lapped() {
    const BOUNDED: usize = 2;
    for join in 0..=(BOUNDED + 1) {
        for reads in 0..2 {
            let (mut p, subs, mut ring) = channel_bounded::<u64>(BOUNDED, 0);
            let mut joined: Option<Subscriber<u64>> = None;
            for turn in 0..(BOUNDED + 1) {
                if turn == join {
                    joined = Some(subs.subscribe(&mut ring));
                }
                let refused = p.try_publish(&mut ring, turn as u64).is_err();
                if let Some(sub) = &mut joined {
                    let unread = p.published() - sub.cursor();
                    assert!(
                        unread <= 2,
                        "published seq {} over a slot a registered subscriber had not read",
                        p.published()
                    );
                    if reads == 1 {
                        let _ = sub.try_recv(&mut ring);
                    }
                }
                if refused {
                    break;
                }
            }
            if let Some(mut sub) = joined {
                let _ = sub.drain(&mut ring);
                assert_eq!(sub.total_lagged(), 0);
            }
        }
    }
}

#[test]
fn an_idle_subscriber_holds_the_publisher() {
    for consume in 0..4 {
        let (mut p, subs, mut ring) = channel_bounded::<u64>(2, 0);
        let mut idle = subs.subscribe(&mut ring);
        let mut active = subs.subscribe(&mut ring);
        let mut published = 0;
        for turn in 0..3u64 {
            if turn == consume {
                let _ = active.try_recv(&mut ring);
            }
            if p.try_publish(&mut ring, turn).is_err() {
                break;
            }
            published += 1;
        }
        assert_eq!(published, 2);
        assert_eq!(idle.drain(&mut ring), vec![0, 1]);
        assert_eq!(idle.total_lagged(), 0);
    }
}
