//! Cores, waiting, memory and latency buckets.

use photon_ring::affinity::{
    as_cores, available_cores, core_count, count_cores, pick_core, pin_among, pin_to_core_id,
    CoreId,
};
use photon_ring::histogram::{find_bucket, to_histogram};
use photon_ring::mem::{cache_lines, page_offsets, CACHE_LINE, PAGE_SIZE};
use photon_ring::text::append_decimal;
use photon_ring::wait::{
    has_waitpkg, pause_deadline, recv_backoff, waitpkg_supported, WaitAction, WaitpkgSupport,
};
use photon_ring::{Shutdown, WaitStrategy};

#[test]
fn available_cores_is_nonempty() {
    let cores = available_cores();
    assert!(!cores.is_empty(), "expected at least one core");
}

#[test]
fn core_count_matches_available() {
    assert_eq!(core_count(), available_cores().len());
}

/// Ask the operating system to run this thread on one core.
fn pin_to_core(core: CoreId) -> bool {
    core_affinity2::CoreId(core.0).set_affinity().is_ok()
}

#[test]
fn pin_to_first_core() {
    let cores = available_cores();
    assert!(pin_to_core(cores[0]), "failed to pin to first core");
}

#[test]
fn pin_to_core_id_valid() {
    assert!(pin_to_core_id(0, pin_to_core), "failed to pin to core index 0");
}

#[test]
fn pin_to_core_id_out_of_range() {
    assert!(!pin_to_core_id(usize::MAX, pin_to_core), "should fail for invalid index");
}

#[test]
fn a_thread_is_pinned_to_the_core_it_asks_for() {
    let cores = available_cores();
    let last = cores[cores.len() - 1];
    assert!(pin_to_core_id(cores.len() - 1, pin_to_core));
    // Pinned to one core, a thread has that one core available.
    assert_eq!(available_cores(), vec![last]);
    assert_eq!(core_count(), 1);
    assert!(!pin_to_core_id(1, pin_to_core));
}

#[test]
fn cores_come_in_the_order_of_their_numbers() {
    let cores = available_cores();
    assert!(cores.windows(2).all(|pair| pair[0].0 < pair[1].0));
}

#[test]
fn the_core_at_a_position_is_pinned() {
    let cores = as_cores(Some(vec![4, 7]));
    let mut asked = Vec::new();
    assert!(pin_among(&cores, 1, |core| {
        asked.push(core);
        true
    }));
    assert_eq!(asked, vec![CoreId(7)]);
    // The answer is handed on.
    assert!(!pin_among(&cores, 0, |_| false));
    // Beyond the list nothing is asked.
    assert!(!pin_among(&cores, 2, |_| panic!("there is no such core")));
}

#[test]
fn cores_are_counted() {
    assert_eq!(count_cores(&as_cores(Some(vec![0, 3, 9]))), 3);
    assert_eq!(count_cores(&as_cores(None)), 0);
}

#[test]
fn cores_are_picked_by_index() {
    let cores = as_cores(Some(vec![4, 7]));
    assert_eq!(cores, vec![CoreId(4), CoreId(7)]);
    assert_eq!(pick_core(&cores, 1), Some(CoreId(7)));
    assert_eq!(pick_core(&cores, 2), None);
    assert_eq!(as_cores(None), Vec::<CoreId>::new());
}

// -------------------------------------------------------------------------
// Waiting
// -------------------------------------------------------------------------

#[test]
fn default_is_adaptive() {
    let ws = WaitStrategy::default();
    assert_eq!(
        ws,
        WaitStrategy::Adaptive {
            spin_iters: 64,
            yield_iters: 64,
        }
    );
}

#[test]
fn busy_spin_returns_immediately() {
    let ws = WaitStrategy::BusySpin;
    for i in 0..1000 {
        ws.wait(i);
    }
}

#[test]
fn yield_spin_returns() {
    let ws = WaitStrategy::YieldSpin;
    for i in 0..100 {
        ws.wait(i);
    }
}

#[test]
fn backoff_spin_returns() {
    let ws = WaitStrategy::BackoffSpin;
    for i in 0..20 {
        ws.wait(i);
    }
}

#[test]
fn adaptive_phases() {
    let ws = WaitStrategy::Adaptive {
        spin_iters: 4,
        yield_iters: 4,
    };
    for i in 0..20 {
        ws.wait(i);
    }
}

#[test]
fn clone_and_copy() {
    let ws = WaitStrategy::BusySpin;
    let ws2 = ws;
    #[allow(clippy::clone_on_copy)]
    let ws3 = ws.clone();
    assert_eq!(ws, ws2);
    assert_eq!(ws, ws3);
}

#[test]
fn debug_format() {
    let ws = WaitStrategy::BusySpin;
    let s = format!("{ws:?}");
    assert!(s.contains("BusySpin"));
}

#[test]
fn strategies_plan_their_pauses() {
    assert_eq!(WaitStrategy::BusySpin.plan(7), WaitAction::Nothing);
    assert_eq!(WaitStrategy::YieldSpin.plan(7), WaitAction::Pause(1));
    assert_eq!(WaitStrategy::BackoffSpin.plan(0), WaitAction::Pause(1));
    assert_eq!(WaitStrategy::BackoffSpin.plan(3), WaitAction::Pause(8));
    assert_eq!(WaitStrategy::BackoffSpin.plan(100), WaitAction::Pause(64));
    let adaptive = WaitStrategy::Adaptive {
        spin_iters: 4,
        yield_iters: 4,
    };
    assert_eq!(adaptive.plan(3), WaitAction::Nothing);
    assert_eq!(adaptive.plan(4), WaitAction::Pause(1));
    assert_eq!(adaptive.plan(7), WaitAction::Pause(1));
    assert_eq!(adaptive.plan(8), WaitAction::Pause(8));
    assert_eq!(WaitStrategy::MonitorWaitFallback.plan(0), WaitAction::TimedPause);
    assert_eq!(WaitAction::Pause(8).perform(), 8);
    assert_eq!(WaitAction::Nothing.perform(), 0);
    assert_eq!(recv_backoff(0), WaitAction::Nothing);
    assert_eq!(recv_backoff(63), WaitAction::Nothing);
    assert_eq!(recv_backoff(64), WaitAction::Pause(1));
}

#[test]
fn the_processor_is_asked_once() {
    assert!(has_waitpkg(1 << 5));
    assert!(!has_waitpkg(!(1 << 5)));
    assert_eq!(
        waitpkg_supported(WaitpkgSupport::Unknown, 1 << 5),
        (true, WaitpkgSupport::Present)
    );
    assert_eq!(
        waitpkg_supported(WaitpkgSupport::Unknown, 0),
        (false, WaitpkgSupport::Missing)
    );
    assert_eq!(
        waitpkg_supported(WaitpkgSupport::Missing, 1 << 5),
        (false, WaitpkgSupport::Missing)
    );
    assert_eq!(pause_deadline(0x1_0000_0000), (300_000, 1));
}

#[test]
fn shutdown_is_seen_by_every_handle() {
    let (handle, mut signal) = Shutdown::new();
    let other = handle.clone();
    assert!(!handle.is_shutdown(&signal));
    other.trigger(&mut signal);
    assert!(handle.is_shutdown(&signal));
    handle.trigger(&mut signal);
    assert!(other.is_shutdown(&signal));
}

// -------------------------------------------------------------------------
// Memory and latencies
// -------------------------------------------------------------------------

#[test]
fn lines_and_pages_cover_the_size() {
    assert_eq!(CACHE_LINE, 64);
    assert_eq!(PAGE_SIZE, 4096);
    assert_eq!(cache_lines(0), 0);
    assert_eq!(cache_lines(1), 1);
    assert_eq!(cache_lines(64), 1);
    assert_eq!(cache_lines(65), 2);
    assert_eq!(page_offsets(0), Vec::<usize>::new());
    assert_eq!(page_offsets(1), vec![0]);
    assert_eq!(page_offsets(8193), vec![0, 4096, 8192]);
}

#[test]
fn samples_fall_into_buckets() {
    // A bucket is named by its smallest value.
    let buckets: [u64; 3] = [10, 20, 30];
    assert_eq!(find_bucket(0, &buckets), 0);
    assert_eq!(find_bucket(10, &buckets), 0);
    assert_eq!(find_bucket(19, &buckets), 0);
    assert_eq!(find_bucket(20, &buckets), 1);
    assert_eq!(find_bucket(99, &buckets), 2);
    assert_eq!(to_histogram(&[0, 10, 20, 31, 99], &buckets), vec![2, 1, 2]);
    assert_eq!(to_histogram(&[], &[]), Vec::<u64>::new());
}

#[test]
fn numbers_are_written_in_decimal() {
    let mut text = "n=".to_string();
    append_decimal(&mut text, 0);
    append_decimal(&mut text, u64::MAX);
    assert_eq!(text, "n=018446744073709551615");
}
