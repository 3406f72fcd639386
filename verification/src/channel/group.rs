//! Subscriber groups.

use crate::channel::errors::TryRecvError;
use crate::channel::subscriber::{reports, Subscriber, SubscriberView};
use crate::pod::Pod;
use crate::ring::SharedRing;
use crate::wait::WaitStrategy;
use vstd::prelude::*;

verus! {

/// `N` logical subscribers that are read for at once: one cursor, one read of
/// the ring for each message.
pub struct SubscriberGroup<T: Pod, const N: usize>(pub(crate) Subscriber<T>);

impl<T: Pod, const N: usize> View for SubscriberGroup<T, N> {
    type V = SubscriberView;

    open(crate) spec fn view(&self) -> SubscriberView {
        self.0@
    }
}

impl<T: Pod, const N: usize> SubscriberGroup<T, N> {
    /// Receive the next message, if it is there.
    pub fn try_recv(&mut self, ring: &mut SharedRing<T>) -> (r: Result<T, TryRecvError>)
        requires
            old(ring).wf(),
            old(self)@.bound(old(ring)@),
        ensures
            final(ring).wf(),
            final(self)@.bound(final(ring)@),
            reports(r, old(ring)@.outcome(old(self)@.cursor)),
            final(self)@ == old(self)@.after(old(ring)@.outcome(old(self)@.cursor)),
            final(ring)@ == old(self)@.ring_after(
                old(ring)@,
                old(ring)@.outcome(old(self)@.cursor),
            ),
    {
        self.0.try_recv(ring)
    }

    /// Receive the next message, skipping what was overwritten. There must be
    /// a message to receive.
    pub fn recv(&mut self, ring: &mut SharedRing<T>) -> (value: T)
        requires
            old(ring).wf(),
            old(self)@.bound(old(ring)@),
            old(ring)@.arrival(old(self)@.cursor) is Some,
        ensures
            final(ring).wf(),
            final(self)@.bound(final(ring)@),
            ({
                let seq = old(ring)@.arrival(old(self)@.cursor)->0;
                &&& value == old(ring)@.message(seq)
                &&& final(self)@ == old(self)@.received_at(seq)
                &&& final(ring)@ == final(self)@.shown(old(ring)@)
            }),
    {
        self.0.recv(ring)
    }

    /// Receive the next message, skipping what was overwritten and waiting by
    /// `strategy` in between. There must be a message to receive.
    pub fn recv_with(&mut self, ring: &mut SharedRing<T>, strategy: WaitStrategy) -> (value: T)
        requires
            old(ring).wf(),
            old(self)@.bound(old(ring)@),
            old(ring)@.arrival(old(self)@.cursor) is Some,
        ensures
            final(ring).wf(),
            final(self)@.bound(final(ring)@),
            ({
                let seq = old(ring)@.arrival(old(self)@.cursor)->0;
                &&& value == old(ring)@.message(seq)
                &&& final(self)@ == old(self)@.received_at(seq)
                &&& final(ring)@ == final(self)@.shown(old(ring)@)
            }),
    {
        self.0.recv_with(ring, strategy)
    }

    /// How many of the logical subscribers are at the same position: all.
    pub fn aligned_count(&self) -> (count: usize)
        ensures
            count == N,
    {
        N
    }

    /// How many announced messages are waiting, at most the capacity.
    pub fn pending(&self, ring: &SharedRing<T>) -> (count: u64)
        requires
            ring.wf(),
        ensures
            count == ring@.pending(self@.cursor),
    {
        self.0.pending(ring)
    }

    /// Messages received so far.
    pub fn total_received(&self) -> (count: u64)
        ensures
            count == self@.received,
    {
        self.0.total_received()
    }

    /// Messages lost so far because the group fell behind.
    pub fn total_lagged(&self) -> (count: u64)
        ensures
            count == self@.lagged,
    {
        self.0.total_lagged()
    }

    /// Receive up to `buf.len()` messages into the front of `buf`.
    pub fn recv_batch(&mut self, ring: &mut SharedRing<T>, buf: &mut [T]) -> (count: usize)
        requires
            old(ring).wf(),
            old(self)@.bound(old(ring)@),
        ensures
            final(ring).wf(),
            final(self)@.bound(final(ring)@),
            ({
                let values = old(ring)@.arrivals(old(self)@.cursor, old(buf)@.len());
                &&& count == values.len()
                &&& count <= old(buf)@.len()
                &&& final(buf)@ == values + old(buf)@.skip(count as int)
            }),
            final(self)@ == old(self)@.after_up_to(old(ring)@, old(buf)@.len()),
            final(ring)@ == old(self)@.ring_moved(old(ring)@, final(self)@),
    {
        self.0.recv_batch(ring, buf)
    }

    /// The group goes away, and no longer gates the publisher.
    pub fn unsubscribe(self, ring: &mut SharedRing<T>)
        requires
            old(ring).wf(),
        ensures
            final(ring).wf(),
            final(ring)@ == (match self@.tracker {
                Some(cell) => old(ring)@.release(cell),
                None => old(ring)@,
            }),
    {
        self.0.unsubscribe(ring)
    }
}

} // verus!
