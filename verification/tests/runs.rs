//! Long runs of channels, in an order that looks like chance.

use photon_ring::{
    channel, channel_bounded, event_channel, EventSubscriber, Subscriber, TryRecvError,
};

/// A generator of numbers that look like chance.
struct Dice(u64);

impl Dice {
    fn roll(&mut self, sides: u64) -> u64 {
        self.0 = self.0.wrapping_mul(6364136223846793005).wrapping_add(1442695040888963407);
        (self.0 >> 33) % sides
    }
}

#[test]
fn subscribers_of_a_bounded_channel_lose_nothing() {
    let mut dice = Dice(7);
    for (capacity, watermark) in [(2, 0), (3, 1), (4, 0), (8, 5)] {
        let (mut p, subs, mut ring) = channel_bounded::<u64>(capacity, watermark);
        // Each subscriber with the message that it has to receive next.
        let mut kept: Vec<(Subscriber<u64>, u64)> = Vec::new();
        let mut taps: Vec<(Subscriber<u64>, u64)> = Vec::new();
        let mut value = 0;
        for _ in 0..5_000 {
            match dice.roll(12) {
                0 if kept.len() < 4 => kept.push((subs.subscribe(&mut ring), value)),
                1 if kept.len() < 4 => kept.push((subs.subscribe_tracked(&mut ring), value)),
                2 if taps.len() < 3 => taps.push((subs.subscribe_lossy(&ring), value)),
                3 if taps.len() < 3 => {
                    let tap = subs.subscribe_from_oldest(&mut ring);
                    let start = tap.cursor();
                    taps.push((tap, start));
                }
                4 if !kept.is_empty() => {
                    let at = dice.roll(kept.len() as u64) as usize;
                    kept.swap_remove(at).0.unsubscribe(&mut ring);
                }
                5 if !taps.is_empty() => {
                    let at = dice.roll(taps.len() as u64) as usize;
                    taps.swap_remove(at).0.unsubscribe(&mut ring);
                }
                6 | 7 if !kept.is_empty() => {
                    let at = dice.roll(kept.len() as u64) as usize;
                    let (sub, next) = &mut kept[at];
                    match sub.try_recv(&mut ring) {
                        Ok(got) => {
                            assert_eq!(got, *next);
                            *next += 1;
                        }
                        Err(TryRecvError::Empty) => assert_eq!(*next, value),
                        Err(TryRecvError::Lagged { .. }) => panic!("a message was lost"),
                    }
                }
                8 if !taps.is_empty() => {
                    let at = dice.roll(taps.len() as u64) as usize;
                    let (tap, next) = &mut taps[at];
                    match tap.try_recv(&mut ring) {
                        Ok(got) => {
                            assert_eq!(got, *next);
                            *next += 1;
                        }
                        Err(TryRecvError::Empty) => assert_eq!(*next, value),
                        Err(TryRecvError::Lagged { skipped }) => *next += skipped,
                    }
                }
                _ => {
                    if p.try_publish(&mut ring, value).is_ok() {
                        value += 1;
                    }
                }
            }
        }
        assert!(value > 100);
        assert!(kept.iter().all(|(sub, _)| sub.total_lagged() == 0));
    }
}

#[test]
fn everything_on_a_lossy_channel_is_accounted_for() {
    let mut dice = Dice(11);
    let (mut p, subs, mut ring) = channel::<u64>(5);
    let mut readers: Vec<Subscriber<u64>> = (0..4).map(|_| subs.subscribe(&mut ring)).collect();
    let mut value = 0;
    for _ in 0..20_000 {
        if dice.roll(3) > 0 {
            p.publish(&mut ring, value);
            value += 1;
        } else {
            let at = dice.roll(4) as usize;
            let before = readers[at].cursor();
            match readers[at].try_recv(&mut ring) {
                Ok(got) => assert_eq!(got, before),
                Err(TryRecvError::Empty) => assert_eq!(before, value),
                Err(TryRecvError::Lagged { skipped }) => {
                    assert_eq!(readers[at].cursor(), before + skipped);
                    assert_eq!(readers[at].cursor(), value - 5);
                }
            }
            assert_eq!(readers[at].total_seen(), readers[at].cursor());
        }
    }
}

#[test]
fn every_event_is_shown_as_it_was_published() {
    let mut dice = Dice(13);
    let (mut tx, rx, mut ring) = event_channel(3, String::new);
    let mut readers: Vec<(EventSubscriber<String>, u64)> = Vec::new();
    let mut value = 0;
    for _ in 0..10_000 {
        match dice.roll(6) {
            0 if readers.len() < 3 => readers.push((rx.subscribe(&mut ring), value)),
            1 if !readers.is_empty() && dice.roll(4) == 0 => {
                let at = dice.roll(readers.len() as u64) as usize;
                readers.swap_remove(at).0.unsubscribe(&mut ring);
            }
            2 | 3 if !readers.is_empty() => {
                let at = dice.roll(readers.len() as u64) as usize;
                let (sub, next) = &mut readers[at];
                match sub.process(&mut ring, |text: &String| text.clone()) {
                    Some(text) => {
                        assert_eq!(text, format!("event {next}"));
                        *next += 1;
                    }
                    None => assert_eq!(*next, value),
                }
            }
            _ => {
                let done = tx.try_publish(&mut ring, |text: &mut String| {
                    text.clear();
                    text.push_str(&format!("event {value}"));
                });
                if done {
                    value += 1;
                }
            }
        }
    }
    assert!(value > 100);
}
