//! The handle from which subscribers are made.

use crate::channel::group::SubscriberGroup;
use crate::channel::subscriber::{Subscriber, SubscriberView};
use crate::pod::Pod;
use crate::ring::{RingView, SharedRing};
use crate::slot::SEQ_LIMIT;
use core::marker::PhantomData;
use vstd::prelude::*;

verus! {

/// A handle from which any number of subscribers are made.
pub struct Subscribable<T: Pod> {
    pub(crate) marker: PhantomData<T>,
}

impl<T: Pod> Clone for Subscribable<T> {
    fn clone(&self) -> (handle: Self)
        ensures
            handle == *self,
    {
        Subscribable { marker: PhantomData }
    }
}

impl<T> RingView<T> {
    /// The sequence of the first message that is not announced yet.
    pub open spec fn future(self) -> nat {
        match self.cursor {
            Some(head) => head + 1,
            None => 0,
        }
    }

    /// The ring after a subscriber registered from `start` on. Only a bounded
    /// ring keeps a record of it.
    pub open spec fn registered(self, start: nat) -> Self {
        if self.backpressure is Some {
            self.add_gate(start as u64)
        } else {
            self
        }
    }

    /// The ring after a subscriber with a tracker registered from `start` on.
    pub open spec fn watched(self, start: nat) -> Self {
        if self.backpressure is Some {
            self.add_gate(start as u64)
        } else {
            self.add_cell(start as u64)
        }
    }
}

impl SubscriberView {
    /// A subscriber that has read nothing yet.
    pub open spec fn fresh(start: nat, tracker: Option<int>) -> Self {
        SubscriberView { cursor: start, tracker, lagged: 0, received: 0 }
    }
}

impl<T: Pod> Subscribable<T> {
    pub(crate) fn new() -> Self {
        Subscribable { marker: PhantomData }
    }

    /// The position from which a subscriber sees only future messages.
    fn start(&self, ring: &SharedRing<T>) -> (start: u64)
        requires
            ring.wf(),
        ensures
            start == ring@.future(),
            start <= ring@.next(),
            start <= SEQ_LIMIT,
    {
        match ring.head() {
            None => 0,
            Some(head) => {
                proof {
                    assert(ring@.done(head as nat));
                }
                head + 1
            },
        }
    }

    /// A subscriber that sees only future messages. On a bounded ring the
    /// publisher waits for it.
    pub fn subscribe(&self, ring: &mut SharedRing<T>) -> (sub: Subscriber<T>)
        requires
            old(ring).wf(),
        ensures
            final(ring).wf(),
            sub@.bound(final(ring)@),
            final(ring)@ == old(ring)@.registered(old(ring)@.future()),
            sub@ == SubscriberView::fresh(
                old(ring)@.future(),
                if old(ring)@.backpressure is Some {
                    Some(old(ring)@.cells.len() as int)
                } else {
                    None
                },
            ),
    {
        let start: u64 = self.start(ring);
        self.subscribe_at(ring, start)
    }

    /// A subscriber whose first message is `start`. On a bounded ring the
    /// publisher waits for it.
    pub(crate) fn subscribe_at(&self, ring: &mut SharedRing<T>, start: u64) -> (sub: Subscriber<T>)
        requires
            old(ring).wf(),
            start <= old(ring)@.next(),
        ensures
            final(ring).wf(),
            sub@.bound(final(ring)@),
            final(ring)@ == old(ring)@.registered(start as nat),
            sub@ == SubscriberView::fresh(
                start as nat,
                if old(ring)@.backpressure is Some {
                    Some(old(ring)@.cells.len() as int)
                } else {
                    None
                },
            ),
    {
        let tracker = ring.register_tracker(start);
        Subscriber::at(start, tracker)
    }

    /// A group of `N` logical subscribers that share one read of the ring.
    pub fn subscribe_group<const N: usize>(&self, ring: &mut SharedRing<T>) -> (group:
        SubscriberGroup<T, N>)
        requires
            old(ring).wf(),
            N > 0,
        ensures
            final(ring).wf(),
            group@.bound(final(ring)@),
            final(ring)@ == old(ring)@.registered(old(ring)@.future()),
            group@ == SubscriberView::fresh(
                old(ring)@.future(),
                if old(ring)@.backpressure is Some {
                    Some(old(ring)@.cells.len() as int)
                } else {
                    None
                },
            ),
    {
        SubscriberGroup(self.subscribe(ring))
    }

    /// A subscriber that sees only future messages, and that no publisher
    /// waits for.
    pub fn subscribe_lossy(&self, ring: &SharedRing<T>) -> (sub: Subscriber<T>)
        requires
            ring.wf(),
        ensures
            sub@.bound(ring@),
            sub@ == SubscriberView::fresh(ring@.future(), None),
    {
        Subscriber::at(self.start(ring), None)
    }

    /// A subscriber that starts at the oldest message still in the ring. On a
    /// bounded ring the publisher waits for it.
    pub fn subscribe_from_oldest(&self, ring: &mut SharedRing<T>) -> (sub: Subscriber<T>)
        requires
            old(ring).wf(),
        ensures
            final(ring).wf(),
            sub@.bound(final(ring)@),
            final(ring)@ == old(ring)@.registered(old(ring)@.oldest()),
            sub@ == SubscriberView::fresh(
                old(ring)@.oldest(),
                if old(ring)@.backpressure is Some {
                    Some(old(ring)@.cells.len() as int)
                } else {
                    None
                },
            ),
    {
        let capacity: u64 = ring.capacity();
        let start: u64 = match ring.head() {
            None => 0,
            Some(head) => {
                proof {
                    assert(ring@.done(head as nat));
                }
                if head >= capacity {
                    head - capacity + 1
                } else {
                    0
                }
            },
        };
        self.subscribe_at(ring, start)
    }

    /// A subscriber that sees only future messages and always has a tracker,
    /// so that a barrier can watch it. On a lossy ring the tracker gates no
    /// publisher.
    pub fn subscribe_tracked(&self, ring: &mut SharedRing<T>) -> (sub: Subscriber<T>)
        requires
            old(ring).wf(),
        ensures
            final(ring).wf(),
            sub@.bound(final(ring)@),
            final(ring)@ == old(ring)@.watched(old(ring)@.future()),
            sub@ == SubscriberView::fresh(
                old(ring)@.future(),
                Some(old(ring)@.cells.len() as int),
            ),
    {
        let start: u64 = self.start(ring);
        let tracker = match ring.register_tracker(start) {
            Some(tracker) => tracker,
            None => ring.register_standalone(start),
        };
        Subscriber::at(start, Some(tracker))
    }
}

} // verus!
