//! Managed consumers: order, sequence numbers, batch ends and the last drain.

use photon_ring::topology::consumer::{
    after_batch, drain_batch, Batch, Consumer, DrainPolicy, Turn,
};
use photon_ring::wait::WaitAction;
use photon_ring::{channel, channel_bounded, Publisher, SharedRing, Subscriber, WaitStrategy};

/// What a consumer does with what is there.
fn take_turn(
    sub: &mut Subscriber<u64>,
    ring: &mut SharedRing<u64>,
    consumer: &Consumer,
    drain: DrainPolicy,
    handler: &mut impl FnMut(u64, u64, bool),
) -> bool {
    match consumer.turn(drain) {
        Turn::Process => {
            drain_batch(sub, ring, |value, seq, end| handler(value, seq, end));
            true
        }
        Turn::ProcessAndStop => {
            drain_batch(sub, ring, |value, seq, end| handler(value, seq, end));
            false
        }
        Turn::Stop => false,
    }
}

/// Publish `count` messages, with the consumer taking a turn whenever the ring is
/// full, and one more after the stop was asked for.
fn run(
    publisher: &mut Publisher<u64>,
    sub: &mut Subscriber<u64>,
    ring: &mut SharedRing<u64>,
    count: u64,
    mut handler: impl FnMut(u64, u64, bool),
) {
    let mut consumer = Consumer::new();
    for i in 0..count {
        while publisher.try_publish(ring, i).is_err() {
            assert!(take_turn(sub, ring, &consumer, DrainPolicy::Drain, &mut handler));
        }
    }
    consumer.shutdown();
    assert!(!take_turn(sub, ring, &consumer, DrainPolicy::Drain, &mut handler));
    consumer.end(false);
    assert!(!consumer.panicked());
}

#[test]
fn processes_every_message_in_order() {
    let (mut p, s, mut ring) = channel_bounded::<u64>(64, 0);
    let mut sub = s.subscribe(&mut ring);
    let mut got = Vec::new();
    run(&mut p, &mut sub, &mut ring, 1_000, |v, _seq, _eob| got.push(v));
    assert_eq!(got, (0..1_000).collect::<Vec<u64>>());
}

#[test]
fn sequence_matches_the_message() {
    let (mut p, s, mut ring) = channel_bounded::<u64>(64, 0);
    let mut sub = s.subscribe(&mut ring);
    let mut bad = 0;
    // Each value is its own sequence number.
    run(&mut p, &mut sub, &mut ring, 500, |v, seq, _eob| {
        if v != seq {
            bad += 1;
        }
    });
    assert_eq!(bad, 0);
}

#[test]
fn end_of_batch_is_set_exactly_once_per_batch() {
    let (mut p, s, mut ring) = channel_bounded::<u64>(64, 0);
    let mut sub = s.subscribe(&mut ring);
    let mut got = Vec::new();
    run(&mut p, &mut sub, &mut ring, 200, |v, _seq, eob| got.push((v, eob)));

    assert_eq!(got.len(), 200, "every message delivered");
    // The last message ends a batch, or a handler that buffers would keep it.
    assert!(got.last().unwrap().1, "last message must end a batch");
    assert!(got.iter().filter(|(_, eob)| *eob).count() >= 1);
    // The ring was full three times, and held 8 messages at the end.
    let ends: Vec<u64> = got.iter().filter(|(_, eob)| *eob).map(|(v, _)| *v).collect();
    assert_eq!(ends, vec![63, 127, 191, 199]);
}

#[test]
fn drain_policy_processes_buffered_messages_on_shutdown() {
    let (mut p, s, mut ring) = channel_bounded::<u64>(256, 0);
    let mut sub = s.subscribe(&mut ring);
    let mut count = 0;
    for i in 0..100u64 {
        p.publish(&mut ring, i);
    }
    // The stop comes before the first message is processed.
    let mut consumer = Consumer::new();
    consumer.shutdown();
    assert!(!take_turn(&mut sub, &mut ring, &consumer, DrainPolicy::Drain, &mut |_, _, _| count += 1));
    assert_eq!(
        count, 100,
        "DrainPolicy::Drain must process buffered messages before exiting"
    );
}

#[test]
fn an_immediate_stop_leaves_messages_unread() {
    let (mut p, s, mut ring) = channel_bounded::<u64>(16, 0);
    let mut sub = s.subscribe(&mut ring);
    p.publish(&mut ring, 1);
    let mut consumer = Consumer::new();
    assert_eq!(consumer.turn(DrainPolicy::Immediate), Turn::Process);
    consumer.shutdown();
    assert!(!take_turn(
        &mut sub,
        &mut ring,
        &consumer,
        DrainPolicy::Immediate,
        &mut |_, _, _| panic!("nothing is processed")
    ));
    assert_eq!(sub.pending(&ring), 1);
}

#[test]
fn a_batch_ends_where_it_was_measured() {
    let (mut p, s, mut ring) = channel_bounded::<u64>(8, 0);
    let mut sub = s.subscribe(&mut ring);
    p.publish(&mut ring, 10);
    p.publish(&mut ring, 20);
    let mut batch = Batch::start(&ring);
    // A message that comes meanwhile belongs to the next batch.
    p.publish(&mut ring, 30);
    let first = batch.next(&mut sub, &mut ring).unwrap();
    assert_eq!((first.value, first.seq, first.end_of_batch), (10, 0, false));
    let second = batch.next(&mut sub, &mut ring).unwrap();
    assert_eq!((second.value, second.seq, second.end_of_batch), (20, 1, true));
    assert!(batch.next(&mut sub, &mut ring).is_none());
    assert_eq!(sub.pending(&ring), 1);
}

#[test]
fn a_lagged_batch_ends_with_its_last_message() {
    let (mut p, s, mut ring) = channel::<u64>(4);
    let mut sub = s.subscribe(&mut ring);
    for i in 0..6u64 {
        p.publish(&mut ring, i);
    }
    let mut got = Vec::new();
    let done = drain_batch(&mut sub, &mut ring, |value, seq, end| got.push((value, seq, end)));
    assert_eq!(done, 4);
    assert_eq!(got, vec![(2, 2, false), (3, 3, false), (4, 4, false), (5, 5, true)]);
    assert_eq!(sub.pending(&ring), 0);
    assert_eq!(sub.total_lagged(), 2);
    assert_eq!(sub.total_received(), 4);
}

#[test]
fn turns_join_without_a_gap() {
    let (mut p, s, mut ring) = channel_bounded::<u64>(4, 0);
    let mut sub = s.subscribe(&mut ring);
    let mut got = Vec::new();
    for round in 0..5u64 {
        for i in 0..round {
            p.publish(&mut ring, round * 10 + i);
        }
        drain_batch(&mut sub, &mut ring, |value, seq, end| got.push((value, seq, end)));
    }
    let values: Vec<u64> = got.iter().map(|item| item.0).collect();
    assert_eq!(values, vec![10, 20, 21, 30, 31, 32, 40, 41, 42, 43]);
    assert!(got.iter().enumerate().all(|(at, item)| item.1 == at as u64));
    let ends: Vec<u64> = got.iter().filter(|item| item.2).map(|item| item.0).collect();
    assert_eq!(ends, vec![10, 21, 32, 43]);
}

#[test]
fn a_batch_that_was_overwritten_meanwhile_is_over() {
    let (mut p, s, mut ring) = channel::<u64>(4);
    let mut sub = s.subscribe(&mut ring);
    p.publish(&mut ring, 0);
    p.publish(&mut ring, 1);
    let mut batch = Batch::start(&ring);
    for i in 2..8u64 {
        p.publish(&mut ring, i);
    }
    assert!(batch.next(&mut sub, &mut ring).is_none());
    assert_eq!(sub.total_lagged(), 4);
    assert_eq!(sub.try_recv(&mut ring), Ok(4));
}

#[test]
fn an_idle_consumer_waits_and_a_busy_one_does_not() {
    assert_eq!(
        after_batch(WaitStrategy::YieldSpin, 0, 3),
        (WaitAction::Pause(1), 4)
    );
    assert_eq!(after_batch(WaitStrategy::YieldSpin, 5, 3), (WaitAction::Nothing, 0));
    assert_eq!(
        after_batch(WaitStrategy::YieldSpin, 0, u32::MAX),
        (WaitAction::Pause(1), u32::MAX)
    );
}

#[test]
fn a_consumer_reports_how_it_ended() {
    let mut consumer = Consumer::new();
    assert!(consumer.is_healthy());
    assert!(!consumer.panicked());
    consumer.end(true);
    assert!(consumer.panicked());
    assert!(!consumer.is_healthy());
    let mut other = Consumer::new();
    other.end(false);
    assert!(!other.panicked());
    assert!(!other.is_healthy());
}
