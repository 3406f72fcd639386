//! Payloads of many sizes, whole and in stripes.

use photon_ring::index::RingIndex;
use photon_ring::slot::Slot;
use photon_ring::stripes::{
    read_stripe, stripe_count, write_stripe, StripePhase, StripeRead, StripeReadPhase,
    StripeWrite, StripedSlot,
};
use photon_ring::{channel, channel_bounded, channel_mpmc, Pod, PublishError, TryRecvError};

#[derive(Clone, Copy, Debug, PartialEq)]
#[allow(dead_code)]
struct Odd {
    a: u32,
    b: u16,
    c: u8,
}

impl Pod for Odd {}

#[derive(Clone, Copy, Debug, PartialEq)]
struct Large {
    f0: u64,
    f1: u64,
    f2: u64,
    f3: u64,
    f4: u64,
    f5: u64,
}

impl Pod for Large {}

#[derive(Clone, Copy, Debug, PartialEq)]
struct CacheLine {
    f0: u64,
    f1: u64,
    f2: u64,
    f3: u64,
    f4: u64,
    f5: u64,
    f6: u64,
}

impl Pod for CacheLine {}

#[test]
fn a_tuple_of_one_is_plain_data() {
    let (mut p, s, mut ring) = channel::<(u32,)>(4);
    let mut sub = s.subscribe(&mut ring);
    p.publish(&mut ring, (7,));
    assert_eq!(sub.try_recv(&mut ring), Ok((7,)));
}

#[test]
fn test_small_payload_u8() {
    let (mut p, s, mut ring) = channel::<u8>(4);
    let mut sub = s.subscribe(&mut ring);

    p.publish(&mut ring, 0xAB);
    assert_eq!(sub.try_recv(&mut ring), Ok(0xAB));

    for i in 0u8..=255 {
        p.publish(&mut ring, i);
    }
    // The ring has 4 slots: the rest is lost.
    let err = sub.try_recv(&mut ring).unwrap_err();
    match err {
        TryRecvError::Lagged { skipped } => {
            assert!(skipped > 0, "expected lag after overflow");
        }
        other => panic!("expected Lagged, got {other:?}"),
    }

    let mut count = 0;
    loop {
        match sub.try_recv(&mut ring) {
            Ok(_v) => count += 1,
            Err(TryRecvError::Empty) => break,
            Err(TryRecvError::Lagged { .. }) => {}
        }
    }
    assert!(count > 0, "should have received at least some u8 values");
}

#[test]
fn test_odd_size_payload() {
    let (mut p, s, mut ring) = channel::<Odd>(8);
    let mut sub = s.subscribe(&mut ring);

    let val = Odd {
        a: 0xDEAD_BEEF,
        b: 0xCAFE,
        c: 0x42,
    };
    p.publish(&mut ring, val);

    let received = sub.try_recv(&mut ring).unwrap();
    let (ra, rb, rc) = (received.a, received.b, received.c);
    assert_eq!(ra, 0xDEAD_BEEF);
    assert_eq!(rb, 0xCAFE);
    assert_eq!(rc, 0x42);
    assert_eq!(received, val);

    for i in 0..100u32 {
        let v = Odd {
            a: i,
            b: (i & 0xFFFF) as u16,
            c: (i & 0xFF) as u8,
        };
        p.publish(&mut ring, v);
        assert_eq!(sub.try_recv(&mut ring), Ok(v));
    }

    // Seven bytes, in one stripe that is not full.
    let bytes: [u8; 7] = [0xEF, 0xBE, 0xAD, 0xDE, 0xFE, 0xCA, 0x42];
    assert_eq!(stripe_count(bytes.len()), 1);
    let mut slot = StripedSlot::new(1);
    slot.write(0, &bytes);
    assert_eq!(slot.try_read(0, 7), Ok(Some(bytes.to_vec())));
}

#[test]
fn test_large_payload() {
    assert_eq!(core::mem::size_of::<Large>(), 48);
    assert_eq!(stripe_count(core::mem::size_of::<Large>()), 6);

    let (mut p, s, mut ring) = channel::<Large>(8);
    let mut sub = s.subscribe(&mut ring);

    let val = Large {
        f0: 0x0011_2233_4455_6677,
        f1: 0x8899_AABB_CCDD_EEFF,
        f2: u64::MAX,
        f3: 0,
        f4: 42,
        f5: 0xDEAD_BEEF_CAFE_BABE,
    };
    p.publish(&mut ring, val);

    let received = sub.try_recv(&mut ring).unwrap();
    assert_eq!(received, val);
    assert_eq!(received.f0, 0x0011_2233_4455_6677);
    assert_eq!(received.f5, 0xDEAD_BEEF_CAFE_BABE);

    for i in 0..50u64 {
        let v = Large {
            f0: i,
            f1: i.wrapping_mul(3),
            f2: i.wrapping_mul(7),
            f3: i.wrapping_mul(11),
            f4: i.wrapping_mul(13),
            f5: i.wrapping_mul(17),
        };
        p.publish(&mut ring, v);
        assert_eq!(sub.try_recv(&mut ring), Ok(v));
    }
}

#[test]
fn test_cache_line_payload() {
    assert_eq!(core::mem::size_of::<CacheLine>(), 56);

    let (mut p, s, mut ring) = channel::<CacheLine>(8);
    let mut sub = s.subscribe(&mut ring);

    let val = CacheLine {
        f0: 1,
        f1: 2,
        f2: 3,
        f3: 4,
        f4: 5,
        f5: 6,
        f6: 7,
    };
    p.publish(&mut ring, val);

    let received = sub.try_recv(&mut ring).unwrap();
    assert_eq!(received, val);

    assert_eq!(received.f0, 1);
    assert_eq!(received.f1, 2);
    assert_eq!(received.f2, 3);
    assert_eq!(received.f3, 4);
    assert_eq!(received.f4, 5);
    assert_eq!(received.f5, 6);
    assert_eq!(received.f6, 7);

    let all_ones = CacheLine {
        f0: u64::MAX,
        f1: u64::MAX,
        f2: u64::MAX,
        f3: u64::MAX,
        f4: u64::MAX,
        f5: u64::MAX,
        f6: u64::MAX,
    };
    p.publish(&mut ring, all_ones);
    assert_eq!(sub.try_recv(&mut ring), Ok(all_ones));
}

#[test]
fn mpmc_streams_stay_in_order() {
    let (pub1, subs, mut ring) = channel_mpmc::<u64>(4096);
    let pub2 = pub1.clone();
    let mut sub = subs.subscribe(&mut ring);
    let n = 10_000u64;
    for i in 0..n {
        pub1.publish(&mut ring, i * 2);
        pub2.publish(&mut ring, i * 2 + 1);
    }
    assert_eq!(pub1.published(&ring), 20_000);
    assert_eq!(pub2.capacity(&ring), 4096);
    let received = sub.drain(&mut ring);
    assert_eq!(received.len(), 4096);
    assert_eq!(sub.total_lagged(), 20_000 - 4096);
    assert!(received.windows(2).all(|w| w[1] == w[0] + 1));
}

#[test]
fn a_full_bounded_ring_refuses_and_recovers() {
    let (mut p, s, mut ring) = channel_bounded::<u64>(4, 0);
    let mut sub = s.subscribe(&mut ring);

    for i in 0..4u64 {
        p.try_publish(&mut ring, i).unwrap();
    }
    assert_eq!(p.try_publish(&mut ring, 99), Err(PublishError::Full(99)));
    for i in 0..4u64 {
        assert_eq!(sub.try_recv(&mut ring), Ok(i));
    }
    assert_eq!(sub.try_recv(&mut ring), Err(TryRecvError::Empty));
    for i in 100..104u64 {
        p.try_publish(&mut ring, i).unwrap();
    }
    assert_eq!(p.try_publish(&mut ring, 999), Err(PublishError::Full(999)));
    for i in 100..104u64 {
        assert_eq!(sub.try_recv(&mut ring), Ok(i));
    }
    assert_eq!(sub.try_recv(&mut ring), Err(TryRecvError::Empty));
}

// -------------------------------------------------------------------------
// Stripes
// -------------------------------------------------------------------------

/// A payload of `size` bytes comes back from a striped slot.
fn roundtrip(size: usize) {
    let bytes: Vec<u8> = (0..size).map(|i| (i * 37 + 11) as u8).collect();
    let mut slot = StripedSlot::new(stripe_count(size));
    assert_eq!(slot.try_read(5, size), Err(0));
    slot.write(5, &bytes);
    assert_eq!(slot.try_read(5, size), Ok(Some(bytes)));
    assert_eq!(slot.try_read(6, size), Err(12));
}

#[test]
fn payloads_of_every_size_come_back() {
    for size in 0..=64 {
        roundtrip(size);
    }
}

#[test]
fn scalar_payloads_come_back() {
    let (mut p, s, mut ring) = channel::<u16>(8);
    let mut sub = s.subscribe(&mut ring);
    p.publish(&mut ring, 0xBEEFu16);
    assert_eq!(sub.try_recv(&mut ring), Ok(0xBEEFu16));

    let (mut p, s, mut ring) = channel::<u128>(8);
    let mut sub = s.subscribe(&mut ring);
    p.publish(&mut ring, 0x0123_4567_89AB_CDEF_0123_4567_89AB_CDEFu128);
    assert_eq!(
        sub.try_recv(&mut ring),
        Ok(0x0123_4567_89AB_CDEF_0123_4567_89AB_CDEFu128)
    );

    let (mut p, s, mut ring) = channel::<[u8; 15]>(8);
    let mut sub = s.subscribe(&mut ring);
    p.publish(&mut ring, [9; 15]);
    assert_eq!(sub.try_recv(&mut ring), Ok([9; 15]));
}

#[test]
fn the_last_stripe_is_filled_up_with_zeros() {
    let bytes: [u8; 11] = [1, 2, 3, 4, 5, 6, 7, 8, 0xAA, 0xBB, 0xCC];
    assert_eq!(stripe_count(11), 2);
    assert_eq!(read_stripe(&bytes, 0), 0x0807_0605_0403_0201);
    assert_eq!(read_stripe(&bytes, 1), 0x00CC_BBAA);
    let mut copy = vec![0u8; 11];
    write_stripe(&mut copy, 0, 0x0807_0605_0403_0201);
    write_stripe(&mut copy, 1, 0xFF00_0000_00CC_BBAA);
    assert_eq!(copy, bytes.to_vec());
}

#[test]
fn a_striped_read_is_never_a_mixture() {
    let old: [u8; 16] = [1; 16];
    let new: [u8; 16] = [2; 16];
    // The reader starts after `before` accesses of the writer, and the writer
    // makes `between` accesses between any two of the reader.
    for before in 0..5 {
        for between in 0..5 {
            let mut slot = StripedSlot::new(2);
            slot.write(0, &old);
            let mut write = StripeWrite::new(4, &new);
            let mut read = StripeRead::new(0);
            for _ in 0..before {
                write.step(&mut slot);
            }
            while !matches!(
                read.phase,
                StripeReadPhase::Accepted | StripeReadPhase::Torn | StripeReadPhase::Other(_)
            ) {
                read.step(&slot);
                for _ in 0..between {
                    if write.phase != StripePhase::Finished {
                        write.step(&mut slot);
                    }
                }
            }
            if matches!(read.phase, StripeReadPhase::Accepted) {
                assert_eq!(read.payload(16), old.to_vec());
            }
        }
    }
}

// -------------------------------------------------------------------------
// Slots and indices
// -------------------------------------------------------------------------

#[test]
fn a_slot_tells_which_message_it_holds() {
    let mut slot = Slot::<u64>::new();
    assert_eq!(slot.try_read(0), Err(0));
    slot.write(3, 33);
    assert_eq!(slot.stamp_load(), 8);
    assert_eq!(slot.try_read(3), Ok(Some(33)));
    assert_eq!(slot.try_read(2), Err(8));
    slot.begin_write(7);
    assert_eq!(slot.stamp_load(), 15);
    assert_eq!(slot.try_read(3), Ok(None));
    slot.write_value(77);
    slot.finish_write(7);
    assert_eq!(slot.try_read(7), Ok(Some(77)));
    slot.write_with(11, || 111);
    assert_eq!(slot.try_read(11), Ok(Some(111)));
}

#[test]
fn sequences_wrap_around_any_capacity() {
    for capacity in 2..50usize {
        let index = RingIndex::new(capacity);
        for seq in [0u64, 1, 2, 3, 1000, 0x7fff_ffff_ffff_fffe, 0x1234_5678_9abc_def0] {
            assert_eq!(index.slot(seq), (seq % capacity as u64) as usize);
        }
    }
}
