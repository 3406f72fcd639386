//! The read side of a channel.

use crate::backpressure::Tracker;
use crate::barrier::{slowest_upstream, upstreams_within, DependencyBarrier};
use crate::channel::errors::TryRecvError;
use crate::index::{lemma_slot_lap, slot_of};
use crate::pod::Pod;
use crate::ring::{slot_shows, RingView, SharedRing};
use crate::slot::SEQ_LIMIT;
use crate::wait::{recv_backoff, WaitAction, WaitStrategy, BARE_SPINS};
use core::marker::PhantomData;
use vstd::prelude::*;

verus! {

/// The read side of a channel. Each subscriber has a cursor of its own.
pub struct Subscriber<T: Pod> {
    pub(crate) cursor: u64,
    /// The cell that shows this subscriber's position to others.
    pub(crate) tracker: Option<Tracker>,
    pub(crate) total_lagged: u64,
    pub(crate) total_received: u64,
    pub(crate) marker: PhantomData<T>,
}

/// A subscriber as contracts see it.
#[verifier::ext_equal]
pub struct SubscriberView {
    /// The sequence that will be read next.
    pub cursor: nat,
    pub tracker: Option<int>,
    /// Messages lost so far.
    pub lagged: nat,
    /// Messages received so far.
    pub received: nat,
}

impl<T: Pod> View for Subscriber<T> {
    type V = SubscriberView;

    open(crate) spec fn view(&self) -> SubscriberView {
        SubscriberView {
            cursor: self.cursor as nat,
            tracker: match self.tracker {
                Some(t) => Some(t@),
                None => None,
            },
            lagged: self.total_lagged as nat,
            received: self.total_received as nat,
        }
    }
}

/// What a read at some position comes to.
pub enum Outcome<T> {
    /// The message is there.
    Got(T),
    /// Nothing to read now.
    Empty,
    /// So many messages were overwritten before they could be read.
    Lagged(nat),
}

impl<T> RingView<T> {
    /// The message of `seq` is gone: its slot holds a later one.
    pub open spec fn overwritten(self, seq: nat) -> bool {
        self.tip(seq) matches Some(m) && seq < m && self.done(m)
    }

    /// The oldest sequence that the announced messages leave in the ring.
    pub open spec fn oldest(self) -> nat {
        match self.cursor {
            Some(head) if head >= self.capacity => (head - self.capacity + 1) as nat,
            _ => 0,
        }
    }

    /// What a read of `seq` comes to.
    pub open spec fn outcome(self, seq: nat) -> Outcome<T> {
        if self.readable(seq) {
            Outcome::Got(self.message(seq))
        } else if self.overwritten(seq) && seq < self.oldest() {
            Outcome::Lagged((self.oldest() - seq) as nat)
        } else {
            Outcome::Empty
        }
    }

    /// The sequence that a reader at `seq` receives next, once it has skipped
    /// what was overwritten.
    pub open spec fn arrival(self, seq: nat) -> Option<nat> {
        match self.outcome(seq) {
            Outcome::Got(_) => Some(seq),
            Outcome::Empty => None,
            Outcome::Lagged(skipped) => if self.readable(seq + skipped) {
                Some(seq + skipped)
            } else {
                None
            },
        }
    }
}

impl SubscriberView {
    /// The subscriber belongs to the ring.
    pub open spec fn bound<T>(self, ring: RingView<T>) -> bool {
        &&& self.cursor <= ring.next()
        &&& self.tracker matches Some(cell) ==> 0 <= cell < ring.cells.len()
        &&& self.received + (ring.next() - self.cursor) <= u64::MAX
        &&& self.lagged + (ring.next() - self.cursor) <= u64::MAX
    }

    /// The subscriber after a read.
    pub open spec fn after<T>(self, outcome: Outcome<T>) -> Self {
        match outcome {
            Outcome::Got(_) => SubscriberView {
                cursor: self.cursor + 1,
                received: self.received + 1,
                ..self
            },
            Outcome::Empty => self,
            Outcome::Lagged(skipped) => SubscriberView {
                cursor: self.cursor + skipped,
                lagged: self.lagged + skipped,
                ..self
            },
        }
    }

    /// The ring after this subscriber has shown its position.
    pub open spec fn shown<T>(self, ring: RingView<T>) -> RingView<T> {
        match self.tracker {
            Some(cell) => ring.move_cell(cell, self.cursor as u64),
            None => ring,
        }
    }

    /// The ring after a read by this subscriber.
    pub open spec fn ring_after<T>(self, ring: RingView<T>, outcome: Outcome<T>) -> RingView<T> {
        match outcome {
            Outcome::Empty => ring,
            _ => self.after(outcome).shown(ring),
        }
    }

    /// The subscriber after it has received `seq`, skipping what lies before.
    pub open spec fn received_at(self, seq: nat) -> Self {
        SubscriberView {
            cursor: seq + 1,
            tracker: self.tracker,
            lagged: (self.lagged + (seq - self.cursor)) as nat,
            received: self.received + 1,
        }
    }
}

/// How a receive reports an outcome.
pub open spec fn reports<T>(r: Result<T, TryRecvError>, outcome: Outcome<T>) -> bool {
    match outcome {
        Outcome::Got(value) => r == Ok::<T, TryRecvError>(value),
        Outcome::Empty => r == Err::<T, TryRecvError>(TryRecvError::Empty),
        Outcome::Lagged(skipped) => r matches Err(TryRecvError::Lagged { skipped: s }) && s
            == skipped,
    }
}

/// Reading through a tracker changes nothing that a read depends on.
pub proof fn lemma_moved_cell<T>(r: RingView<T>, cell: int, position: u64)
    ensures
        r.move_cell(cell, position).oldest() == r.oldest(),
        forall|n: nat| #![auto]
            r.move_cell(cell, position).readable(n) == r.readable(n)
            && r.move_cell(cell, position).overwritten(n) == r.overwritten(n),
        forall|n: nat| r.move_cell(cell, position).outcome(n) == #[trigger] r.outcome(n),
        forall|n: nat| r.move_cell(cell, position).arrival(n) == #[trigger] r.arrival(n),
        r.settled() ==> r.move_cell(cell, position).settled(),
{
    let m = r.move_cell(cell, position);
    assert forall|n: nat| m.outcome(n) == #[trigger] r.outcome(n) by {
        assert(m.readable(n) == r.readable(n));
        assert(m.overwritten(n) == r.overwritten(n));
    }
    assert forall|n: nat| m.arrival(n) == #[trigger] r.arrival(n) by {
        assert(m.outcome(n) == r.outcome(n));
        if let Outcome::Lagged(k) = r.outcome(n) {
            assert(m.readable(n + k) == r.readable(n + k));
        }
    }
    if r.settled() {
        assert forall|n: nat| n < m.next() implies #[trigger] m.done(n) by {
            assert(r.done(n));
        }
    }
}

/// After a skip the reader is at the oldest message and is not lagged again.
pub proof fn lemma_no_second_lag<T>(r: RingView<T>, seq: nat)
    requires
        r.outcome(seq) is Lagged,
    ensures
        r.outcome(r.oldest()) !is Lagged,
        seq + r.outcome(seq)->Lagged_0 == r.oldest(),
{
}

impl<T: Pod> Subscriber<T> {
    pub(crate) fn at(cursor: u64, tracker: Option<Tracker>) -> (sub: Self)
        ensures
            sub@ == (SubscriberView {
                cursor: cursor as nat,
                tracker: match tracker {
                    Some(t) => Some(t@),
                    None => None,
                },
                lagged: 0,
                received: 0,
            }),
    {
        Subscriber { cursor, tracker, total_lagged: 0, total_received: 0, marker: PhantomData }
    }

    /// Show the current position to those who watch the tracker.
    fn update_tracker(&self, ring: &mut SharedRing<T>)
        requires
            old(ring).wf(),
            self@.tracker matches Some(cell) ==> 0 <= cell < old(ring)@.cells.len(),
            self@.cursor <= SEQ_LIMIT,
        ensures
            final(ring).wf(),
            final(ring)@ == self@.shown(old(ring)@),
    {
        if let Some(tracker) = self.tracker {
            ring.move_tracker(tracker, self.cursor);
        }
    }

    /// Read the slot of the next message.
    fn read_slot(&mut self, ring: &mut SharedRing<T>) -> (r: Result<T, TryRecvError>)
        requires
            old(ring).wf(),
            old(self)@.bound(old(ring)@),
        ensures
            final(ring).wf(),
            final(self)@.bound(final(ring)@),
            reports(r, old(ring)@.outcome(old(self)@.cursor)),
            final(self)@ == old(self)@.after(old(ring)@.outcome(old(self)@.cursor)),
            final(ring)@ == old(self)@.ring_after(
                old(ring)@,
                old(ring)@.outcome(old(self)@.cursor),
            ),
    {
        let ghost view = ring@;
        let ghost at = self@.cursor;
        let slot: usize = ring.index.slot(self.cursor);
        let expected: u64 = self.cursor * 2 + 2;
        proof {
            lemma_slot_lap(at, view.capacity);
            assert(slot_shows(ring.slots[slot as int], view.tips[slot as int], view.history));
            if let Some(m) = view.tips[slot as int] {
                assert(slot_of(m, view.capacity) == slot && view.begun(m));
            }
        }
        match ring.slots[slot].try_read(self.cursor) {
            Ok(Some(value)) => {
                self.cursor = self.cursor + 1;
                self.update_tracker(ring);
                self.total_received = self.total_received + 1;
                Ok(value)
            },
            Ok(None) => {
                // A write is in progress.
                Err(TryRecvError::Empty)
            },
            Err(stamp) => {
                if stamp < expected {
                    // The slot holds an older message, or none.
                    return Err(TryRecvError::Empty);
                }
                // The slot was overwritten: find out how far behind we are.
                let capacity: u64 = ring.capacity();
                match ring.head() {
                    None => Err(TryRecvError::Empty),
                    Some(head) => {
                        if self.cursor <= head && head >= capacity {
                            let oldest: u64 = head - capacity + 1;
                            if self.cursor < oldest {
                                let skipped: u64 = oldest - self.cursor;
                                proof {
                                    assert(view.done(head as nat));
                                }
                                self.cursor = oldest;
                                self.update_tracker(ring);
                                self.total_lagged = self.total_lagged + skipped;
                                return Err(TryRecvError::Lagged { skipped });
                            }
                        }
                        Err(TryRecvError::Empty)
                    },
                }
            },
        }
    }

    /// Receive the next message, if it is there.
    pub fn try_recv(&mut self, ring: &mut SharedRing<T>) -> (r: Result<T, TryRecvError>)
        requires
            old(ring).wf(),
            old(self)@.bound(old(ring)@),
        ensures
            final(ring).wf(),
            final(self)@.bound(final(ring)@),
            reports(r, old(ring)@.outcome(old(self)@.cursor)),
            final(self)@ == old(self)@.after(old(ring)@.outcome(old(self)@.cursor)),
            final(ring)@ == old(self)@.ring_after(
                old(ring)@,
                old(ring)@.outcome(old(self)@.cursor),
            ),
    {
        self.read_slot(ring)
    }
}

impl SubscriberView {
    /// The subscriber after it has received up to `limit` messages, stopping
    /// early when nothing is left to read.
    pub open spec fn after_up_to<T>(self, ring: RingView<T>, limit: nat) -> Self
        decreases limit,
    {
        if limit == 0 {
            self
        } else {
            match ring.arrival(self.cursor) {
                Some(seq) => self.received_at(seq).after_up_to(ring, (limit - 1) as nat),
                None => self.after(ring.outcome(self.cursor)),
            }
        }
    }
}

impl<T> RingView<T> {
    /// The messages that a reader at `seq` receives when it asks for up to
    /// `limit` of them.
    pub open spec fn arrivals(self, seq: nat, limit: nat) -> Seq<T>
        decreases limit,
    {
        if limit == 0 {
            Seq::empty()
        } else {
            match self.arrival(seq) {
                Some(at) => seq![self.message(at)] + self.arrivals(at + 1, (limit - 1) as nat),
                None => Seq::empty(),
            }
        }
    }
}

impl SubscriberView {
    /// The ring after this subscriber came to be `after`.
    pub open spec fn ring_moved<T>(self, ring: RingView<T>, after: Self) -> RingView<T> {
        if after == self {
            ring
        } else {
            after.shown(ring)
        }
    }
}

/// Positions shown one after the other: the last one stays.
pub(crate) proof fn lemma_shown_twice<T>(r: RingView<T>, a: SubscriberView, b: SubscriberView)
    requires
        a.tracker == b.tracker,
        a.tracker matches Some(cell) ==> 0 <= cell < r.cells.len(),
    ensures
        b.shown(a.shown(r)) == b.shown(r),
        forall|n: nat| a.shown(r).outcome(n) == #[trigger] r.outcome(n),
        forall|n: nat| a.shown(r).arrival(n) == #[trigger] r.arrival(n),
        a.shown(r).oldest() == r.oldest(),
        a.shown(r).history == r.history,
        a.shown(r).cursor == r.cursor,
        a.shown(r).cells.len() == r.cells.len(),
        r.settled() ==> a.shown(r).settled(),
{
    if let Some(cell) = a.tracker {
        lemma_moved_cell(r, cell, a.cursor as u64);
        assert(r.cells.update(cell, a.cursor as u64).update(cell, b.cursor as u64)
            =~= r.cells.update(cell, b.cursor as u64));
    }
}

/// What a blocking receive does after a try that brought nothing, and the
/// iteration that it goes on with: bare spins at first, then pause hints. A
/// receive that was lagged is not spared the pause hints any more.
pub fn after_miss(miss: TryRecvError, iter: u32) -> (r: (WaitAction, u32))
    ensures
        miss is Empty ==> {
            &&& r.0 == (if iter < BARE_SPINS {
                WaitAction::Nothing
            } else {
                WaitAction::Pause(1)
            })
            &&& r.1 == (if iter < u32::MAX {
                iter + 1
            } else {
                iter as int
            })
        },
        miss is Lagged ==> r == (WaitAction::Nothing, BARE_SPINS),
        miss is Lagged ==> r.1 == 64,
        miss is Empty ==> (r.0 is Nothing <==> iter < 64),
{
    match miss {
        TryRecvError::Empty => (recv_backoff(iter), iter.saturating_add(1)),
        TryRecvError::Lagged { .. } => (WaitAction::Nothing, BARE_SPINS),
    }
}

/// What a blocking receive that waits by `strategy` does after a try that
/// brought nothing, and the iteration that it goes on with. A receive that was
/// lagged starts over.
pub fn after_miss_with(strategy: WaitStrategy, miss: TryRecvError, iter: u32) -> (r: (
    WaitAction,
    u32,
))
    ensures
        miss is Empty ==> {
            &&& r.0 == strategy.action(iter as nat)
            &&& r.1 == (if iter < u32::MAX {
                iter + 1
            } else {
                iter as int
            })
        },
        miss is Lagged ==> r == (WaitAction::Nothing, 0u32),
{
    match miss {
        TryRecvError::Empty => (strategy.plan(iter), iter.saturating_add(1)),
        TryRecvError::Lagged { .. } => (WaitAction::Nothing, 0),
    }
}

impl<T: Pod> Subscriber<T> {
    /// Receive the next message, skipping what was overwritten. There must be
    /// a message to receive.
    pub fn recv(&mut self, ring: &mut SharedRing<T>) -> (value: T)
        requires
            old(ring).wf(),
            old(self)@.bound(old(ring)@),
            old(ring)@.arrival(old(self)@.cursor) is Some,
        ensures
            final(ring).wf(),
            final(self)@.bound(final(ring)@),
            ({
                let seq = old(ring)@.arrival(old(self)@.cursor)->0;
                &&& value == old(ring)@.message(seq)
                &&& final(self)@ == old(self)@.received_at(seq)
                &&& final(ring)@ == final(self)@.shown(old(ring)@)
            }),
    {
        let ghost view = ring@;
        let ghost start = self@;
        let ghost seq = view.arrival(start.cursor)->0;
        let mut iter: u32 = 0;
        loop
            invariant
                ring.wf(),
                self@.bound(ring@),
                start == old(self)@,
                view == old(ring)@,
                start.bound(view),
                view.arrival(start.cursor) == Some(seq),
                (self@ == start && ring@ == view) || {
                    &&& view.outcome(start.cursor) is Lagged
                    &&& self@ == start.after(view.outcome(start.cursor))
                    &&& ring@ == self@.shown(view)
                    &&& seq == self@.cursor
                },
            decreases (if self@ == start { 1int } else { 0int }),
        {
            proof {
                lemma_shown_twice(view, self@, start.received_at(seq));
                if view.outcome(start.cursor) is Lagged {
                    lemma_no_second_lag(view, start.cursor);
                }
            }
            match self.try_recv(ring) {
                Ok(value) => {
                    return value;
                },
                Err(miss) => {
                    let (action, next) = after_miss(miss, iter);
                    action.perform();
                    iter = next;
                },
            }
        }
    }

    /// Receive the next message, skipping what was overwritten and waiting by
    /// `strategy` in between. There must be a message to receive.
    pub fn recv_with(&mut self, ring: &mut SharedRing<T>, strategy: WaitStrategy) -> (value: T)
        requires
            old(ring).wf(),
            old(self)@.bound(old(ring)@),
            old(ring)@.arrival(old(self)@.cursor) is Some,
        ensures
            final(ring).wf(),
            final(self)@.bound(final(ring)@),
            ({
                let seq = old(ring)@.arrival(old(self)@.cursor)->0;
                &&& value == old(ring)@.message(seq)
                &&& final(self)@ == old(self)@.received_at(seq)
                &&& final(ring)@ == final(self)@.shown(old(ring)@)
            }),
    {
        let ghost view = ring@;
        let ghost start = self@;
        let ghost seq = view.arrival(start.cursor)->0;
        let mut iter: u32 = 0;
        loop
            invariant
                ring.wf(),
                self@.bound(ring@),
                start == old(self)@,
                view == old(ring)@,
                start.bound(view),
                view.arrival(start.cursor) == Some(seq),
                (self@ == start && ring@ == view) || {
                    &&& view.outcome(start.cursor) is Lagged
                    &&& self@ == start.after(view.outcome(start.cursor))
                    &&& ring@ == self@.shown(view)
                    &&& seq == self@.cursor
                },
            decreases (if self@ == start { 1int } else { 0int }),
        {
            proof {
                lemma_shown_twice(view, self@, start.received_at(seq));
                if view.outcome(start.cursor) is Lagged {
                    lemma_no_second_lag(view, start.cursor);
                }
            }
            match self.try_recv(ring) {
                Ok(value) => {
                    return value;
                },
                Err(miss) => {
                    let (action, next) = after_miss_with(strategy, miss, iter);
                    action.perform();
                    iter = next;
                },
            }
        }
    }
}

/// How a look at the newest message came out.
#[derive(Debug, Clone, Copy, PartialEq, Eq)]
pub enum Latest<T> {
    /// Nothing has been published yet.
    Nothing,
    /// The newest message.
    Ready(T),
    /// The slot of the newest message is being replaced: look again.
    Retry,
}

impl<T: Pod> Subscriber<T> {
    /// Look at the newest message, discarding what lies before it.
    pub fn poll_latest(&mut self, ring: &mut SharedRing<T>) -> (r: Latest<T>)
        requires
            old(ring).wf(),
            old(self)@.bound(old(ring)@),
            old(self)@.received + old(ring)@.next() <= u64::MAX,
            old(self)@.lagged + old(ring)@.next() <= u64::MAX,
        ensures
            final(ring).wf(),
            final(self)@.bound(final(ring)@),
            match old(ring)@.cursor {
                None => {
                    &&& r == Latest::<T>::Nothing
                    &&& final(self)@ == old(self)@
                    &&& final(ring)@ == old(ring)@
                },
                Some(head) if old(ring)@.readable(head) => {
                    &&& r == Latest::Ready(old(ring)@.message(head))
                    &&& final(self)@ == (SubscriberView {
                        cursor: head + 1,
                        received: old(self)@.received + 1,
                        ..old(self)@
                    })
                    &&& final(ring)@ == final(self)@.shown(old(ring)@)
                },
                Some(head) => {
                    &&& r == Latest::<T>::Retry
                    &&& final(self)@ == (SubscriberView { cursor: head, ..old(self)@ })
                    &&& final(ring)@ == old(ring)@
                },
            },
    {
        match ring.head() {
            None => Latest::Nothing,
            Some(head) => {
                proof {
                    assert(ring@.done(head as nat));
                }
                self.cursor = head;
                match self.read_slot(ring) {
                    Ok(value) => Latest::Ready(value),
                    Err(_) => Latest::Retry,
                }
            },
        }
    }

    /// Skip to the newest message. `None` only if nothing has been published
    /// yet. The slot of the newest message must not be in the middle of a
    /// write.
    pub fn latest(&mut self, ring: &mut SharedRing<T>) -> (r: Option<T>)
        requires
            old(ring).wf(),
            old(self)@.bound(old(ring)@),
            old(self)@.received + old(ring)@.next() <= u64::MAX,
            old(self)@.lagged + old(ring)@.next() <= u64::MAX,
            old(ring)@.cursor matches Some(head) ==> old(ring)@.readable(head),
        ensures
            final(ring).wf(),
            final(self)@.bound(final(ring)@),
            match old(ring)@.cursor {
                None => r is None && final(self)@ == old(self)@ && final(ring)@ == old(ring)@,
                Some(head) => {
                    &&& r == Some(old(ring)@.message(head))
                    &&& final(self)@ == (SubscriberView {
                        cursor: head + 1,
                        received: old(self)@.received + 1,
                        ..old(self)@
                    })
                    &&& final(ring)@ == final(self)@.shown(old(ring)@)
                },
            },
    {
        match self.poll_latest(ring) {
            Latest::Ready(value) => Some(value),
            _ => None,
        }
    }

    /// How many announced messages are waiting, at most the capacity.
    pub fn pending(&self, ring: &SharedRing<T>) -> (count: u64)
        requires
            ring.wf(),
        ensures
            count == ring@.pending(self@.cursor),
    {
        match ring.head() {
            None => 0,
            Some(head) => {
                if self.cursor > head {
                    0
                } else {
                    proof {
                        assert(ring@.done(head as nat));
                    }
                    let raw: u64 = head - self.cursor + 1;
                    if raw < ring.capacity() {
                        raw
                    } else {
                        ring.capacity()
                    }
                }
            },
        }
    }

    /// Messages received so far.
    pub fn total_received(&self) -> (count: u64)
        ensures
            count == self@.received,
    {
        self.total_received
    }

    /// Messages lost so far because the subscriber fell behind.
    pub fn total_lagged(&self) -> (count: u64)
        ensures
            count == self@.lagged,
    {
        self.total_lagged
    }

    /// Messages that went by so far, received or lost.
    pub fn total_seen(&self) -> (count: u64)
        requires
            self@.received + self@.lagged <= u64::MAX,
        ensures
            count == self@.received + self@.lagged,
    {
        self.total_received + self.total_lagged
    }

    /// The sequence that will be read next.
    pub fn cursor(&self) -> (cursor: u64)
        ensures
            cursor == self@.cursor,
    {
        self.cursor
    }

    /// The tracker of this subscriber, for use in a barrier.
    pub fn tracker(&self) -> (tracker: Option<Tracker>)
        ensures
            match self@.tracker {
                Some(cell) => tracker matches Some(t) && t@ == cell,
                None => tracker is None,
            },
    {
        self.tracker
    }

    /// Receive the next message or report what went wrong, skipping one lag.
    fn recv_past_lag(&mut self, ring: &mut SharedRing<T>) -> (r: Option<T>)
        requires
            old(ring).wf(),
            old(self)@.bound(old(ring)@),
        ensures
            final(ring).wf(),
            final(self)@.bound(final(ring)@),
            match old(ring)@.arrival(old(self)@.cursor) {
                Some(seq) => {
                    &&& r == Some(old(ring)@.message(seq))
                    &&& final(self)@ == old(self)@.received_at(seq)
                    &&& final(ring)@ == final(self)@.shown(old(ring)@)
                },
                None => {
                    &&& r is None
                    &&& final(self)@ == old(self)@.after(old(ring)@.outcome(old(self)@.cursor))
                    &&& final(ring)@ == old(self)@.ring_after(
                        old(ring)@,
                        old(ring)@.outcome(old(self)@.cursor),
                    )
                },
            },
    {
        let ghost view = ring@;
        let ghost start = self@;
        match self.try_recv(ring) {
            Ok(value) => Some(value),
            Err(TryRecvError::Empty) => None,
            Err(TryRecvError::Lagged { .. }) => {
                proof {
                    lemma_no_second_lag(view, start.cursor);
                    lemma_shown_twice(view, self@, start.received_at(self@.cursor));
                }
                match self.try_recv(ring) {
                    Ok(value) => Some(value),
                    Err(_) => None,
                }
            },
        }
    }

    /// Receive up to `buf.len()` messages into the front of `buf`, and say how
    /// many were received. What was overwritten is skipped.
    pub fn recv_batch(&mut self, ring: &mut SharedRing<T>, buf: &mut [T]) -> (count: usize)
        requires
            old(ring).wf(),
            old(self)@.bound(old(ring)@),
        ensures
            final(ring).wf(),
            final(self)@.bound(final(ring)@),
            ({
                let values = old(ring)@.arrivals(old(self)@.cursor, old(buf)@.len());
                &&& count == values.len()
                &&& count <= old(buf)@.len()
                &&& final(buf)@ == values + old(buf)@.skip(count as int)
            }),
            final(self)@ == old(self)@.after_up_to(old(ring)@, old(buf)@.len()),
            final(ring)@ == old(self)@.ring_moved(old(ring)@, final(self)@),
    {
        let ghost view = ring@;
        let ghost start = self@;
        let ghost before = buf@;
        let ghost all = view.arrivals(start.cursor, before.len());
        let mut count: usize = 0;
        let size: usize = buf.len();
        let mut more = true;
        while more && count < size
            invariant
                size == before.len(),
                size == buf@.len(),
                count <= size,
                ring.wf(),
                self@.bound(ring@),
                start.bound(view),
                self@.tracker == start.tracker,
                self@ == start || self@.cursor > start.cursor,
                ring@ == start.ring_moved(view, self@),
                all == view.arrivals(start.cursor, before.len()),
                count <= all.len(),
                forall|j: int| 0 <= j < count ==> #[trigger] buf@[j] == all[j],
                forall|j: int| count <= j < size ==> #[trigger] buf@[j] == before[j],
                more ==> all =~= all.take(count as int) + view.arrivals(
                    self@.cursor,
                    (size - count) as nat,
                ),
                more ==> self@.after_up_to(view, (size - count) as nat) == start.after_up_to(
                    view,
                    before.len(),
                ),
                !more ==> all.len() == count && self@ == start.after_up_to(view, before.len()),
            decreases (if more { size - count + 1 } else { 0 }),
        {
            let ghost now = self@;
            let ghost rest = view.arrivals(now.cursor, (size - count) as nat);
            proof {
                lemma_shown_twice(view, now, start);
                assert(ring@.arrival(now.cursor) == view.arrival(now.cursor));
                assert(ring@.outcome(now.cursor) == view.outcome(now.cursor));
                assert(forall|s: SubscriberView| s.tracker == start.tracker ==> #[trigger] s.shown(
                    ring@,
                ) == s.shown(view)) by {
                    assert forall|s: SubscriberView| s.tracker == start.tracker implies #[trigger] s.shown(
                        ring@,
                    ) == s.shown(view) by {
                        lemma_shown_twice(view, now, s);
                    }
                }
            }
            match self.recv_past_lag(ring) {
                Some(value) => {
                    buf[count] = value;
                    count += 1;
                    proof {
                        assert(rest[0] == value);
                        assert(all[count as int - 1] == rest[0]);
                        assert(all.take(count as int) =~= all.take(count as int - 1).push(value));
                        assert(rest =~= seq![value] + view.arrivals(
                            self@.cursor,
                            (size - count) as nat,
                        ));
                    }
                },
                None => {
                    more = false;
                    assert(rest.len() == 0);
                },
            }
        }
        proof {
            assert(view.arrivals(self@.cursor, 0).len() == 0);
            assert(buf@ =~= all + before.skip(count as int));
        }
        count
    }
}

impl<T> RingView<T> {
    /// Announced messages waiting for a reader at `seq`, at most the capacity.
    pub open spec fn pending(self, seq: nat) -> int {
        match self.cursor {
            Some(head) if seq <= head => if head - seq + 1 < self.capacity {
                head - seq + 1
            } else {
                self.capacity as int
            },
            _ => 0,
        }
    }
}

impl<T: Pod> Subscriber<T> {
    /// Receive everything that is there now. What was overwritten is skipped.
    pub fn drain(&mut self, ring: &mut SharedRing<T>) -> (values: Vec<T>)
        requires
            old(ring).wf(),
            old(self)@.bound(old(ring)@),
        ensures
            final(ring).wf(),
            final(self)@.bound(final(ring)@),
            values@ == old(ring)@.arrivals(
                old(self)@.cursor,
                (old(ring)@.next() - old(self)@.cursor) as nat,
            ),
            final(ring)@.arrival(final(self)@.cursor) is None,
            final(self)@ == old(self)@.after_up_to(
                old(ring)@,
                (old(ring)@.next() - old(self)@.cursor) as nat,
            ),
            final(ring)@ == old(self)@.ring_moved(old(ring)@, final(self)@),
    {
        let ghost view = ring@;
        let ghost start = self@;
        let ghost limit = (view.next() - start.cursor) as nat;
        let ghost mut left = limit;
        let mut values: Vec<T> = Vec::new();
        let mut more = true;
        assert(values@ + view.arrivals(start.cursor, limit) =~= view.arrivals(
            start.cursor,
            limit,
        ));
        while more
            invariant
                ring.wf(),
                self@.bound(ring@),
                start == old(self)@,
                view == old(ring)@,
                start.bound(view),
                limit == view.next() - start.cursor,
                self@.tracker == start.tracker,
                self@ == start || self@.cursor > start.cursor,
                ring@ == start.ring_moved(view, self@),
                ring@.next() == view.next(),
                more ==> left >= view.next() - self@.cursor,
                more ==> values@ + view.arrivals(self@.cursor, left) == view.arrivals(
                    start.cursor,
                    limit,
                ),
                more ==> self@.after_up_to(view, left) == start.after_up_to(view, limit),
                !more ==> values@ == view.arrivals(start.cursor, limit),
                !more ==> self@ == start.after_up_to(view, limit),
                !more ==> view.arrival(self@.cursor) is None,
            decreases (if more { view.next() - self@.cursor + 1 } else { 0 }),
        {
            let ghost now = self@;
            let ghost rest = view.arrivals(now.cursor, left);
            proof {
                lemma_shown_twice(view, now, start);
                assert(ring@.arrival(now.cursor) == view.arrival(now.cursor));
                assert(ring@.outcome(now.cursor) == view.outcome(now.cursor));
                assert forall|s: SubscriberView| s.tracker == start.tracker implies #[trigger] s.shown(
                    ring@,
                ) == s.shown(view) by {
                    lemma_shown_twice(view, now, s);
                }
            }
            match self.recv_past_lag(ring) {
                Some(value) => {
                    let ghost had = values@;
                    values.push(value);
                    proof {
                        left = (left - 1) as nat;
                        assert(rest =~= seq![value] + view.arrivals(self@.cursor, left));
                        assert(values@ + view.arrivals(self@.cursor, left) =~= had + rest);
                    }
                },
                None => {
                    more = false;
                    proof {
                        assert(rest.len() == 0);
                        assert(values@ + rest =~= values@);
                        if view.outcome(now.cursor) is Lagged {
                            lemma_no_second_lag(view, now.cursor);
                        }
                    }
                },
            }
        }
        proof {
            lemma_shown_twice(view, self@, start);
        }
        values
    }

    /// Receive the next message, but only if every upstream subscriber of the
    /// barrier is past it.
    pub fn try_recv_gated(
        &mut self,
        ring: &mut SharedRing<T>,
        barrier: &DependencyBarrier,
    ) -> (r: Result<T, TryRecvError>)
        requires
            old(ring).wf(),
            old(self)@.bound(old(ring)@),
            upstreams_within(barrier@, old(ring)@.cells),
        ensures
            final(ring).wf(),
            final(self)@.bound(final(ring)@),
            ({
                let outcome = old(ring)@.gated_outcome(old(self)@.cursor, barrier@);
                &&& reports(r, outcome)
                &&& final(self)@ == old(self)@.after(outcome)
                &&& final(ring)@ == old(self)@.ring_after(old(ring)@, outcome)
            }),
    {
        if barrier.slowest(ring.trackers()) <= self.cursor {
            return Err(TryRecvError::Empty);
        }
        self.try_recv(ring)
    }

    /// Receive the next message that the barrier lets through, skipping what
    /// was overwritten. There must be such a message.
    pub fn recv_gated(&mut self, ring: &mut SharedRing<T>, barrier: &DependencyBarrier) -> (value:
        T)
        requires
            old(ring).wf(),
            old(self)@.bound(old(ring)@),
            upstreams_within(barrier@, old(ring)@.cells),
            old(ring)@.arrival(old(self)@.cursor) is Some,
            !barrier@.contains(old(self)@.tracker->0) || old(self)@.tracker is None,
            old(ring)@.arrival(old(self)@.cursor)->0 < slowest_upstream(
                barrier@,
                old(ring)@.cells,
            ),
        ensures
            final(ring).wf(),
            final(self)@.bound(final(ring)@),
            ({
                let seq = old(ring)@.arrival(old(self)@.cursor)->0;
                &&& value == old(ring)@.message(seq)
                &&& final(self)@ == old(self)@.received_at(seq)
                &&& final(ring)@ == final(self)@.shown(old(ring)@)
            }),
    {
        let ghost view = ring@;
        let ghost start = self@;
        let ghost seq = view.arrival(start.cursor)->0;
        loop
            invariant
                ring.wf(),
                self@.bound(ring@),
                start == old(self)@,
                view == old(ring)@,
                start.bound(view),
                upstreams_within(barrier@, view.cells),
                view.arrival(start.cursor) == Some(seq),
                seq < slowest_upstream(barrier@, view.cells),
                !barrier@.contains(start.tracker->0) || start.tracker is None,
                (self@ == start && ring@ == view) || {
                    &&& view.outcome(start.cursor) is Lagged
                    &&& self@ == start.after(view.outcome(start.cursor))
                    &&& ring@ == self@.shown(view)
                    &&& seq == self@.cursor
                },
            decreases (if self@ == start { 1int } else { 0int }),
        {
            proof {
                lemma_shown_twice(view, self@, start.received_at(seq));
                if view.outcome(start.cursor) is Lagged {
                    lemma_no_second_lag(view, start.cursor);
                }
                if let Some(cell) = start.tracker {
                    lemma_upstreams_apart(barrier@, view.cells, cell, self@.cursor as u64);
                }
            }
            match self.try_recv_gated(ring, barrier) {
                Ok(value) => {
                    return value;
                },
                Err(TryRecvError::Empty) => {
                    assert(false);
                    core::hint::spin_loop();
                },
                Err(TryRecvError::Lagged { .. }) => {},
            }
        }
    }

    /// The subscriber goes away, and no longer gates the publisher.
    pub fn unsubscribe(self, ring: &mut SharedRing<T>)
        requires
            old(ring).wf(),
        ensures
            final(ring).wf(),
            final(ring)@ == (match self@.tracker {
                Some(cell) => old(ring)@.release(cell),
                None => old(ring)@,
            }),
    {
        if let Some(tracker) = self.tracker {
            ring.release_tracker(tracker);
        }
    }
}

/// Moving a cell that is no upstream leaves the slowest upstream where it is.
pub proof fn lemma_upstreams_apart(upstreams: Seq<int>, cells: Seq<u64>, cell: int, position: u64)
    requires
        !upstreams.contains(cell),
        upstreams_within(upstreams, cells),
        0 <= cell < cells.len(),
    ensures
        slowest_upstream(upstreams, cells.update(cell, position)) == slowest_upstream(
            upstreams,
            cells,
        ),
    decreases upstreams.len(),
{
    if upstreams.len() > 0 {
        let front = upstreams.drop_last();
        assert(forall|i: int| 0 <= i < front.len() ==> front[i] == #[trigger] upstreams[i]);
        assert(!front.contains(cell)) by {
            if front.contains(cell) {
                let i = front.index_of(cell);
                assert(upstreams[i] == cell);
            }
        }
        assert(upstreams[upstreams.len() - 1] == upstreams.last());
        lemma_upstreams_apart(front, cells, cell, position);
    }
}

impl<T> RingView<T> {
    /// What a read of `seq` comes to behind a barrier.
    pub open spec fn gated_outcome(self, seq: nat, upstreams: Seq<int>) -> Outcome<T> {
        if slowest_upstream(upstreams, self.cells) <= seq {
            Outcome::Empty
        } else {
            self.outcome(seq)
        }
    }
}

} // verus!
