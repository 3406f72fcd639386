//! Receiving from a task that yields between tries.
//!
//! Nobody wakes a waiting subscriber. A poll makes a number of tries, and if
//! none of them brings a message the task gives way to others and polls again.

use crate::channel::errors::TryRecvError;
use crate::channel::group::SubscriberGroup;
use crate::channel::subscriber::{
    lemma_no_second_lag, lemma_shown_twice, Outcome, Subscriber, SubscriberView,
};
use crate::pod::Pod;
use crate::ring::{RingView, SharedRing};
use vstd::prelude::*;

verus! {

/// Tries of a poll unless another number is set.
pub const DEFAULT_SPIN_BUDGET: u32 = 64;

/// How a poll comes out.
#[derive(Debug, Clone, Copy, PartialEq, Eq)]
pub enum Polled<T> {
    /// Done.
    Ready(T),
    /// Give way to other tasks, then poll again.
    Pending,
}

/// What a poll of `budget` tries comes to: the message if there is one, and the
/// subscriber afterwards.
pub open spec fn poll_outcome<T>(ring: RingView<T>, sub: SubscriberView, budget: nat) -> (
    Option<T>,
    SubscriberView,
)
    decreases budget,
{
    if budget == 0 {
        (None, sub)
    } else {
        let outcome = ring.outcome(sub.cursor);
        match outcome {
            Outcome::Got(value) => (Some(value), sub.after(outcome)),
            _ => poll_outcome(ring, sub.after(outcome), (budget - 1) as nat),
        }
    }
}

/// Make up to `budget` tries to receive.
fn poll_once<T: Pod>(sub: &mut Subscriber<T>, ring: &mut SharedRing<T>, budget: u32) -> (r: Polled<
    T,
>)
    requires
        old(ring).wf(),
        old(sub)@.bound(old(ring)@),
    ensures
        final(ring).wf(),
        final(sub)@.bound(final(ring)@),
        ({
            let expected = poll_outcome(old(ring)@, old(sub)@, budget as nat);
            &&& match expected.0 {
                Some(value) => r == Polled::Ready(value),
                None => r is Pending,
            }
            &&& final(sub)@ == expected.1
            &&& final(ring)@ == old(sub)@.ring_moved(old(ring)@, final(sub)@)
        }),
{
    let ghost view = ring@;
    let ghost start = sub@;
    let mut tries: u32 = 0;
    while tries < budget
        invariant
            tries <= budget,
            ring.wf(),
            sub@.bound(ring@),
            view == old(ring)@,
            start == old(sub)@,
            start.bound(view),
            sub@.tracker == start.tracker,
            sub@ == start || sub@.cursor > start.cursor,
            ring@ == start.ring_moved(view, sub@),
            poll_outcome(view, sub@, (budget - tries) as nat) == poll_outcome(
                view,
                start,
                budget as nat,
            ),
        decreases budget - tries,
    {
        let ghost now = sub@;
        proof {
            lemma_shown_twice(view, now, now.after(view.outcome(now.cursor)));
            assert(ring@.outcome(now.cursor) == view.outcome(now.cursor));
        }
        match sub.try_recv(ring) {
            Ok(value) => {
                return Polled::Ready(value);
            },
            Err(TryRecvError::Empty) => {},
            Err(TryRecvError::Lagged { .. }) => {},
        }
        tries += 1;
    }
    Polled::Pending
}

/// A reader that finds nothing does not find anything on a second look either.
proof fn lemma_nothing_again<T>(ring: RingView<T>, sub: SubscriberView, limit: nat)
    requires
        ring.arrivals(sub.cursor, limit).len() == 0,
        limit > 0,
        sub.tracker matches Some(cell) ==> 0 <= cell < ring.cells.len(),
    ensures
        ({
            let after = sub.after_up_to(ring, limit);
            let moved = sub.ring_moved(ring, after);
            &&& after.tracker == sub.tracker
            &&& moved.arrivals(after.cursor, limit).len() == 0
            &&& after.after_up_to(moved, limit) == after
        }),
{
    let after = sub.after_up_to(ring, limit);
    let moved = sub.ring_moved(ring, after);
    if ring.outcome(sub.cursor) is Lagged {
        lemma_no_second_lag(ring, sub.cursor);
    }
    lemma_shown_twice(ring, after, after);
    assert(moved.outcome(after.cursor) == ring.outcome(after.cursor));
    assert(moved.arrival(after.cursor) == ring.arrival(after.cursor));
}

/// Make up to `budget` tries more to fill `buf`, if the first one brings
/// nothing.
fn poll_batch_once<T: Pod>(
    sub: &mut Subscriber<T>,
    ring: &mut SharedRing<T>,
    buf: &mut [T],
    budget: u32,
) -> (r: Polled<usize>)
    requires
        old(ring).wf(),
        old(sub)@.bound(old(ring)@),
    ensures
        final(ring).wf(),
        final(sub)@.bound(final(ring)@),
        old(buf)@.len() == 0 ==> {
            &&& r == Polled::Ready(0usize)
            &&& final(sub)@ == old(sub)@
            &&& final(ring)@ == old(ring)@
            &&& final(buf)@ == old(buf)@
        },
        old(buf)@.len() > 0 ==> {
            let values = old(ring)@.arrivals(old(sub)@.cursor, old(buf)@.len());
            &&& r == (if values.len() > 0 {
                Polled::Ready(values.len() as usize)
            } else {
                Polled::Pending
            })
            &&& final(buf)@ == values + old(buf)@.skip(values.len() as int)
            &&& final(sub)@ == old(sub)@.after_up_to(old(ring)@, old(buf)@.len())
            &&& final(ring)@ == old(sub)@.ring_moved(old(ring)@, final(sub)@)
        },
{
    if buf.len() == 0 {
        return Polled::Ready(0);
    }
    let ghost view = ring@;
    let ghost start = sub@;
    let ghost size = buf@.len();
    let count: usize = sub.recv_batch(ring, buf);
    if count > 0 {
        return Polled::Ready(count);
    }
    assert(buf@ =~= old(buf)@);
    let ghost end = sub@;
    let ghost moved = ring@;
    proof {
        lemma_nothing_again(view, start, size);
    }
    let mut tries: u32 = 0;
    while tries < budget
        invariant
            tries <= budget,
            ring.wf(),
            sub@.bound(ring@),
            sub@ == end,
            ring@ == moved,
            buf@ == old(buf)@,
            size == buf@.len(),
            moved.arrivals(end.cursor, size).len() == 0,
            end.after_up_to(moved, size) == end,
        decreases budget - tries,
    {
        let count: usize = sub.recv_batch(ring, buf);
        assert(buf@ =~= old(buf)@);
        if count > 0 {
            return Polled::Ready(count);
        }
        tries += 1;
    }
    Polled::Pending
}

/// A subscriber for tasks.
pub struct AsyncSubscriber<T: Pod> {
    inner: Subscriber<T>,
    spin_budget: u32,
}

/// A subscriber for tasks as contracts see it.
pub struct AsyncView {
    pub sub: SubscriberView,
    /// Tries of a poll.
    pub budget: u32,
}

impl<T: Pod> View for AsyncSubscriber<T> {
    type V = AsyncView;

    closed spec fn view(&self) -> AsyncView {
        AsyncView { sub: self.inner@, budget: self.spin_budget }
    }
}

impl<T: Pod> AsyncSubscriber<T> {
    /// A subscriber for tasks with the default number of tries.
    pub fn new(sub: Subscriber<T>) -> (r: Self)
        ensures
            r@ == (AsyncView { sub: sub@, budget: DEFAULT_SPIN_BUDGET }),
            r@.budget == 64,
    {
        AsyncSubscriber { inner: sub, spin_budget: DEFAULT_SPIN_BUDGET }
    }

    /// A subscriber for tasks with `budget` tries.
    pub fn with_spin_budget(sub: Subscriber<T>, budget: u32) -> (r: Self)
        ensures
            r@ == (AsyncView { sub: sub@, budget }),
    {
        AsyncSubscriber { inner: sub, spin_budget: budget }
    }

    /// Poll for the next message. What was overwritten is skipped.
    pub fn poll_recv(&mut self, ring: &mut SharedRing<T>) -> (r: Polled<T>)
        requires
            old(ring).wf(),
            old(self)@.sub.bound(old(ring)@),
        ensures
            final(ring).wf(),
            final(self)@.sub.bound(final(ring)@),
            final(self)@.budget == old(self)@.budget,
            ({
                let expected = poll_outcome(
                    old(ring)@,
                    old(self)@.sub,
                    old(self)@.budget as nat,
                );
                &&& match expected.0 {
                    Some(value) => r == Polled::Ready(value),
                    None => r is Pending,
                }
                &&& final(self)@.sub == expected.1
                &&& final(ring)@ == old(self)@.sub.ring_moved(old(ring)@, final(self)@.sub)
            }),
    {
        poll_once(&mut self.inner, ring, self.spin_budget)
    }

    /// Poll for a batch of messages. An empty buffer is filled at once, and no
    /// message is consumed for it.
    pub fn poll_recv_batch(&mut self, ring: &mut SharedRing<T>, buf: &mut [T]) -> (r: Polled<usize>)
        requires
            old(ring).wf(),
            old(self)@.sub.bound(old(ring)@),
        ensures
            final(ring).wf(),
            final(self)@.sub.bound(final(ring)@),
            final(self)@.budget == old(self)@.budget,
            old(buf)@.len() == 0 ==> {
                &&& r == Polled::Ready(0usize)
                &&& final(self)@.sub == old(self)@.sub
                &&& final(ring)@ == old(ring)@
                &&& final(buf)@ == old(buf)@
            },
            old(buf)@.len() > 0 ==> {
                let values = old(ring)@.arrivals(old(self)@.sub.cursor, old(buf)@.len());
                &&& r == (if values.len() > 0 {
                    Polled::Ready(values.len() as usize)
                } else {
                    Polled::Pending
                })
                &&& final(buf)@ == values + old(buf)@.skip(values.len() as int)
                &&& final(self)@.sub == old(self)@.sub.after_up_to(old(ring)@, old(buf)@.len())
                &&& final(ring)@ == old(self)@.sub.ring_moved(old(ring)@, final(self)@.sub)
            },
    {
        poll_batch_once(&mut self.inner, ring, buf, self.spin_budget)
    }

    /// How many announced messages are waiting, at most the capacity.
    pub fn pending(&self, ring: &SharedRing<T>) -> (count: u64)
        requires
            ring.wf(),
        ensures
            count == ring@.pending(self@.sub.cursor),
    {
        self.inner.pending(ring)
    }

    /// Messages received so far.
    pub fn total_received(&self) -> (count: u64)
        ensures
            count == self@.sub.received,
    {
        self.inner.total_received()
    }

    /// Messages lost so far.
    pub fn total_lagged(&self) -> (count: u64)
        ensures
            count == self@.sub.lagged,
    {
        self.inner.total_lagged()
    }

    /// Tries of a poll.
    pub fn spin_budget(&self) -> (budget: u32)
        ensures
            budget == self@.budget,
    {
        self.spin_budget
    }

    /// Set the number of tries of a poll.
    pub fn set_spin_budget(&mut self, budget: u32)
        ensures
            final(self)@ == (AsyncView { sub: old(self)@.sub, budget }),
    {
        self.spin_budget = budget;
    }

    /// The subscriber inside.
    pub fn inner(&self) -> (sub: &Subscriber<T>)
        ensures
            sub@ == self@.sub,
    {
        &self.inner
    }

    /// The subscriber inside.
    pub fn inner_mut(&mut self) -> (sub: &mut Subscriber<T>)
        ensures
            sub@ == old(self)@.sub,
            final(self)@ == (AsyncView { sub: final(sub)@, budget: old(self)@.budget }),
    {
        &mut self.inner
    }

    /// The subscriber inside.
    pub fn into_inner(self) -> (sub: Subscriber<T>)
        ensures
            sub@ == self@.sub,
    {
        self.inner
    }
}

/// A subscriber group for tasks.
pub struct AsyncSubscriberGroup<T: Pod, const N: usize> {
    inner: SubscriberGroup<T, N>,
    spin_budget: u32,
}

impl<T: Pod, const N: usize> View for AsyncSubscriberGroup<T, N> {
    type V = AsyncView;

    closed spec fn view(&self) -> AsyncView {
        AsyncView { sub: self.inner@, budget: self.spin_budget }
    }
}

impl<T: Pod, const N: usize> AsyncSubscriberGroup<T, N> {
    /// A group for tasks with the default number of tries.
    pub fn new(group: SubscriberGroup<T, N>) -> (r: Self)
        ensures
            r@ == (AsyncView { sub: group@, budget: DEFAULT_SPIN_BUDGET }),
            r@.budget == 64,
    {
        AsyncSubscriberGroup { inner: group, spin_budget: DEFAULT_SPIN_BUDGET }
    }

    /// A group for tasks with `budget` tries.
    pub fn with_spin_budget(group: SubscriberGroup<T, N>, budget: u32) -> (r: Self)
        ensures
            r@ == (AsyncView { sub: group@, budget }),
    {
        AsyncSubscriberGroup { inner: group, spin_budget: budget }
    }

    /// Poll for the next message. What was overwritten is skipped.
    pub fn poll_recv(&mut self, ring: &mut SharedRing<T>) -> (r: Polled<T>)
        requires
            old(ring).wf(),
            old(self)@.sub.bound(old(ring)@),
        ensures
            final(ring).wf(),
            final(self)@.sub.bound(final(ring)@),
            final(self)@.budget == old(self)@.budget,
            ({
                let expected = poll_outcome(
                    old(ring)@,
                    old(self)@.sub,
                    old(self)@.budget as nat,
                );
                &&& match expected.0 {
                    Some(value) => r == Polled::Ready(value),
                    None => r is Pending,
                }
                &&& final(self)@.sub == expected.1
                &&& final(ring)@ == old(self)@.sub.ring_moved(old(ring)@, final(self)@.sub)
            }),
    {
        poll_once(&mut self.inner.0, ring, self.spin_budget)
    }

    /// Poll for a batch of messages. An empty buffer is filled at once, and no
    /// message is consumed for it.
    pub fn poll_recv_batch(&mut self, ring: &mut SharedRing<T>, buf: &mut [T]) -> (r: Polled<usize>)
        requires
            old(ring).wf(),
            old(self)@.sub.bound(old(ring)@),
        ensures
            final(ring).wf(),
            final(self)@.sub.bound(final(ring)@),
            final(self)@.budget == old(self)@.budget,
            old(buf)@.len() == 0 ==> {
                &&& r == Polled::Ready(0usize)
                &&& final(self)@.sub == old(self)@.sub
                &&& final(ring)@ == old(ring)@
                &&& final(buf)@ == old(buf)@
            },
            old(buf)@.len() > 0 ==> {
                let values = old(ring)@.arrivals(old(self)@.sub.cursor, old(buf)@.len());
                &&& r == (if values.len() > 0 {
                    Polled::Ready(values.len() as usize)
                } else {
                    Polled::Pending
                })
                &&& final(buf)@ == values + old(buf)@.skip(values.len() as int)
                &&& final(self)@.sub == old(self)@.sub.after_up_to(old(ring)@, old(buf)@.len())
                &&& final(ring)@ == old(self)@.sub.ring_moved(old(ring)@, final(self)@.sub)
            },
    {
        poll_batch_once(&mut self.inner.0, ring, buf, self.spin_budget)
    }

    /// How many announced messages are waiting, at most the capacity.
    pub fn pending(&self, ring: &SharedRing<T>) -> (count: u64)
        requires
            ring.wf(),
        ensures
            count == ring@.pending(self@.sub.cursor),
    {
        self.inner.pending(ring)
    }

    /// Messages received so far.
    pub fn total_received(&self) -> (count: u64)
        ensures
            count == self@.sub.received,
    {
        self.inner.total_received()
    }

    /// Messages lost so far.
    pub fn total_lagged(&self) -> (count: u64)
        ensures
            count == self@.sub.lagged,
    {
        self.inner.total_lagged()
    }

    /// Tries of a poll.
    pub fn spin_budget(&self) -> (budget: u32)
        ensures
            budget == self@.budget,
    {
        self.spin_budget
    }

    /// Set the number of tries of a poll.
    pub fn set_spin_budget(&mut self, budget: u32)
        ensures
            final(self)@ == (AsyncView { sub: old(self)@.sub, budget }),
    {
        self.spin_budget = budget;
    }

    /// The group inside.
    pub fn inner(&self) -> (group: &SubscriberGroup<T, N>)
        ensures
            group@ == self@.sub,
    {
        &self.inner
    }

    /// The group inside.
    pub fn inner_mut(&mut self) -> (group: &mut SubscriberGroup<T, N>)
        ensures
            group@ == old(self)@.sub,
            final(self)@ == (AsyncView { sub: final(group)@, budget: old(self)@.budget }),
    {
        &mut self.inner
    }

    /// The group inside.
    pub fn into_inner(self) -> (group: SubscriberGroup<T, N>)
        ensures
            group@ == self@.sub,
    {
        self.inner
    }
}

/// A poll makes its tries one after the other: without a try there is nothing, a message
/// ends the poll, nothing stays nothing however often it is tried, and a loss takes one
/// try and leaves the rest behind it.
pub proof fn lemma_poll_by_tries<T>(ring: RingView<T>, sub: SubscriberView, budget: nat)
    ensures
        poll_outcome(ring, sub, 0) == (None::<T>, sub),
        ring.outcome(sub.cursor) is Empty ==> poll_outcome(ring, sub, budget) == (None::<T>, sub),
        ring.outcome(sub.cursor) matches Outcome::Got(value) ==> poll_outcome(ring, sub, budget + 1)
            == (Some(value), sub.after(ring.outcome(sub.cursor))),
        ring.outcome(sub.cursor) is Lagged ==> poll_outcome(ring, sub, budget + 1) == poll_outcome(
            ring,
            sub.after(ring.outcome(sub.cursor)),
            budget,
        ),
    decreases budget,
{
    if budget > 0 && ring.outcome(sub.cursor) is Empty {
        lemma_poll_by_tries(ring, sub, (budget - 1) as nat);
    }
}

/// A poll brings a message whenever there is one to receive and a try is left
/// after a lag.
pub proof fn lemma_poll_ready<T>(ring: RingView<T>, sub: SubscriberView, budget: nat)
    requires
        ring.arrival(sub.cursor) is Some,
        budget >= 2,
    ensures
        poll_outcome(ring, sub, budget).0 == Some(ring.message(ring.arrival(sub.cursor)->0)),
        poll_outcome(ring, sub, budget).1 == sub.received_at(ring.arrival(sub.cursor)->0),
{
    reveal_with_fuel(poll_outcome, 3);
}

} // verus!
