//! Wait strategies for consumers that have nothing to read.

use vstd::prelude::*;

verus! {

/// How a consumer waits for its next message.
#[derive(Debug, Clone, Copy, PartialEq, Eq, Structural)]
pub enum WaitStrategy {
    /// No hint to the processor at all: lowest latency, one core fully used.
    BusySpin,
    /// One pause hint for each iteration.
    YieldSpin,
    /// Exponential backoff: 1, 2, 4 and up to 64 pause hints.
    BackoffSpin,
    /// No hint for `spin_iters` iterations, then single pause hints for
    /// `yield_iters` iterations, then bursts of pause hints.
    Adaptive {
        /// Iterations without a hint.
        spin_iters: u32,
        /// Iterations with a single pause hint.
        yield_iters: u32,
    },
    /// A timed low-power pause where the processor has one, otherwise a pause
    /// hint.
    MonitorWaitFallback,
}

/// What one wait iteration does.
#[derive(Debug, Clone, Copy, PartialEq, Eq, Structural)]
pub enum WaitAction {
    /// Go on at once.
    Nothing,
    /// Give this many pause hints.
    Pause(u32),
    /// Enter a timed low-power pause, or give one pause hint without it.
    TimedPause,
}

/// Pause hints of iteration `iter` of an exponential backoff.
pub open spec fn backoff_pauses(iter: nat) -> nat
    decreases iter,
{
    if iter == 0 {
        1
    } else if iter >= 6 {
        64
    } else {
        2 * backoff_pauses((iter - 1) as nat)
    }
}

/// `core::hint::spin_loop` tells the processor that the caller is spinning. It
/// returns nothing, and nothing is claimed of it.
pub assume_specification[ core::hint::spin_loop ]()
;

impl WaitStrategy {
    /// What iteration `iter` of this strategy does.
    pub open spec fn action(self, iter: nat) -> WaitAction {
        match self {
            WaitStrategy::BusySpin => WaitAction::Nothing,
            WaitStrategy::YieldSpin => WaitAction::Pause(1),
            WaitStrategy::BackoffSpin => WaitAction::Pause(backoff_pauses(iter) as u32),
            WaitStrategy::Adaptive { spin_iters, yield_iters } => if iter < spin_iters {
                WaitAction::Nothing
            } else if iter < spin_iters + yield_iters {
                WaitAction::Pause(1)
            } else {
                WaitAction::Pause(8)
            },
            WaitStrategy::MonitorWaitFallback => WaitAction::TimedPause,
        }
    }

    /// What iteration `iter` does, counted from the last message received.
    pub fn plan(&self, iter: u32) -> (action: WaitAction)
        ensures
            action == self.action(iter as nat),
    {
        match self {
            WaitStrategy::BusySpin => WaitAction::Nothing,
            WaitStrategy::YieldSpin => WaitAction::Pause(1),
            WaitStrategy::BackoffSpin => {
                let mut pauses: u32 = 1;
                let mut i: u32 = 0;
                while i < iter && i < 6
                    invariant
                        i <= 6,
                        i <= iter,
                        pauses == backoff_pauses(i as nat),
                        pauses <= 64,
                        i < 6 ==> pauses <= 32,
                    decreases 6 - i,
                {
                    i += 1;
                    pauses = pauses * 2;
                    proof {
                        reveal_with_fuel(backoff_pauses, 8);
                    }
                }
                WaitAction::Pause(pauses)
            },
            WaitStrategy::Adaptive { spin_iters, yield_iters } => if iter < *spin_iters {
                WaitAction::Nothing
            } else if (iter as u64) < (*spin_iters as u64) + (*yield_iters as u64) {
                WaitAction::Pause(1)
            } else {
                WaitAction::Pause(8)
            },
            WaitStrategy::MonitorWaitFallback => WaitAction::TimedPause,
        }
    }

    /// Carry out iteration `iter`, and say what was done.
    pub fn wait(&self, iter: u32) -> (action: WaitAction)
        ensures
            action == self.action(iter as nat),
    {
        let action = self.plan(iter);
        action.perform();
        action
    }
}

impl WaitAction {
    /// Pause hints that this action gives. A timed pause counts as one.
    pub open spec fn hints(self) -> u32 {
        match self {
            WaitAction::Nothing => 0,
            WaitAction::Pause(count) => count,
            WaitAction::TimedPause => 1,
        }
    }

    /// Give the pause hints, and say how many.
    pub fn perform(&self) -> (given: u32)
        ensures
            given == self.hints(),
    {
        let hints: u32 = match self {
            WaitAction::Nothing => 0,
            WaitAction::Pause(count) => *count,
            WaitAction::TimedPause => 1,
        };
        let mut given: u32 = 0;
        while given < hints
            invariant
                given <= hints,
            decreases hints - given,
        {
            core::hint::spin_loop();
            given += 1;
        }
        given
    }
}

impl Default for WaitStrategy {
    fn default() -> (strategy: Self)
        ensures
            strategy == (WaitStrategy::Adaptive { spin_iters: 64, yield_iters: 64 }),
    {
        WaitStrategy::Adaptive { spin_iters: 64, yield_iters: 64 }
    }
}

/// What each strategy does while it waits: a busy spin gives no hint, a yielding spin
/// one at a time, a timed wait pauses. An adaptive spin gives none at first, then one,
/// then eight at a time.
pub proof fn lemma_actions(iter: nat, spin_iters: u32, yield_iters: u32)
    ensures
        WaitStrategy::BusySpin.action(iter).hints() == 0,
        WaitStrategy::YieldSpin.action(iter) == WaitAction::Pause(1),
        WaitStrategy::MonitorWaitFallback.action(iter) == WaitAction::TimedPause,
        ({
            let adaptive = WaitStrategy::Adaptive { spin_iters, yield_iters }.action(iter);
            &&& iter < spin_iters <==> adaptive == WaitAction::Nothing
            &&& spin_iters <= iter < spin_iters + yield_iters <==> adaptive == WaitAction::Pause(1)
            &&& spin_iters + yield_iters <= iter <==> adaptive == WaitAction::Pause(8)
        }),
{
}

/// A backoff starts with one hint and doubles, up to sixty-four.
pub proof fn lemma_backoff_doubles(iter: nat)
    ensures
        WaitStrategy::BackoffSpin.action(0) == WaitAction::Pause(1),
        WaitStrategy::BackoffSpin.action(iter) is Pause,
        ({
            let now = WaitStrategy::BackoffSpin.action(iter).hints();
            let next = WaitStrategy::BackoffSpin.action(iter + 1).hints();
            &&& 1 <= now <= 64
            &&& next == if 2 * now <= 64 {
                2 * now
            } else {
                64
            }
        }),
{
    reveal_with_fuel(backoff_pauses, 9);
}

/// An action gives as many pause hints as it says: none, that many, or one where there
/// is no timed pause.
pub proof fn lemma_hints(count: u32)
    ensures
        WaitAction::Nothing.hints() == 0,
        WaitAction::Pause(count).hints() == count,
        WaitAction::TimedPause.hints() == 1,
{
}

/// Iterations of a blocking receive that spin without a hint.
pub const BARE_SPINS: u32 = 64;

/// What iteration `iter` of a plain blocking receive does: bare spins first,
/// then one pause hint for each iteration.
pub fn recv_backoff(iter: u32) -> (action: WaitAction)
    ensures
        action == (if iter < BARE_SPINS {
            WaitAction::Nothing
        } else {
            WaitAction::Pause(1)
        }),
        iter < 64 ==> action == WaitAction::Nothing,
        iter >= 64 ==> action == WaitAction::Pause(1),
{
    if iter < BARE_SPINS {
        WaitAction::Nothing
    } else {
        WaitAction::Pause(1)
    }
}

/// CPUID leaf 7, sub-leaf 0, bit 5 of ECX.
pub const WAITPKG_BIT: u32 = 0x20;

/// Whether the feature word of CPUID leaf 7 announces timed pauses.
pub fn has_waitpkg(ecx: u32) -> (supported: bool)
    ensures
        supported == (ecx & WAITPKG_BIT != 0),
        supported <==> (ecx / 32) % 2 == 1,
{
    assert(ecx & 0x20 != 0 <==> (ecx / 32) % 2 == 1) by (bit_vector);
    ecx & WAITPKG_BIT != 0
}

/// What is known of a processor's support for timed pauses.
#[derive(Debug, Clone, Copy, PartialEq, Eq, Structural)]
pub enum WaitpkgSupport {
    Unknown,
    Missing,
    Present,
}

/// The answer on timed pauses, and what to remember for the next question.
/// The feature word is consulted only while nothing is remembered.
pub fn waitpkg_supported(cached: WaitpkgSupport, ecx: u32) -> (r: (bool, WaitpkgSupport))
    ensures
        r.0 == (match cached {
            WaitpkgSupport::Unknown => ecx & WAITPKG_BIT != 0,
            WaitpkgSupport::Missing => false,
            WaitpkgSupport::Present => true,
        }),
        r.1 == (if r.0 {
            WaitpkgSupport::Present
        } else {
            WaitpkgSupport::Missing
        }),
{
    let supported = match cached {
        WaitpkgSupport::Unknown => has_waitpkg(ecx),
        WaitpkgSupport::Missing => false,
        WaitpkgSupport::Present => true,
    };
    if supported {
        (true, WaitpkgSupport::Present)
    } else {
        (false, WaitpkgSupport::Missing)
    }
}

/// Cycles that a timed pause may last.
pub const PAUSE_CYCLES: u64 = 300_000;

/// Deadline of a timed pause that starts at time stamp `tsc`, as the low and
/// the high word.
pub fn pause_deadline(tsc: u64) -> (words: (u32, u32))
    ensures
        words.0 as int + words.1 as int * 0x1_0000_0000 == (tsc + PAUSE_CYCLES)
            % 0x1_0000_0000_0000_0000,
        words.0 as int + words.1 as int * 0x1_0000_0000 == (tsc + 300_000)
            % 0x1_0000_0000_0000_0000,
{
    let deadline: u64 = tsc.wrapping_add(PAUSE_CYCLES);
    let low: u64 = deadline & 0xffff_ffff;
    let high: u64 = deadline >> 32;
    assert(low <= 0xffff_ffff && high <= 0xffff_ffff && low + high * 0x1_0000_0000 == deadline)
        by (bit_vector)
        requires
            low == deadline & 0xffff_ffff,
            high == deadline >> 32,
    ;
    (low as u32, high as u32)
}

} // verus!
