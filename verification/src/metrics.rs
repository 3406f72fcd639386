//! Snapshots of the counters of publishers and subscribers.

use crate::channel::publisher::Publisher;
use crate::channel::subscriber::{Subscriber, SubscriberView};
use crate::pod::Pod;
use crate::ring::SharedRing;
use crate::text::{append_decimal, decimal};
use vstd::prelude::*;

verus! {

/// So many messages out of so many.
#[derive(Debug, Clone, Copy, PartialEq, Eq, Structural)]
pub struct ReceiveRatio {
    pub received: u64,
    /// Received and lost together.
    pub total: u64,
}

/// The counters of a subscriber at one moment.
#[derive(Debug, Clone, Copy, PartialEq, Eq, Structural)]
pub struct SubscriberSnapshot {
    /// Messages received.
    pub total_received: u64,
    /// Messages lost because the subscriber fell behind.
    pub total_lagged: u64,
    /// Received out of received and lost.
    pub receive_ratio: ReceiveRatio,
    /// Messages waiting, at most the capacity.
    pub pending: u64,
}

/// The counters of a publisher at one moment.
#[derive(Debug, Clone, Copy, PartialEq, Eq, Structural)]
pub struct PublisherSnapshot {
    /// Messages published.
    pub published: u64,
    /// Number of slots of the ring.
    pub capacity: u64,
}

impl PublisherSnapshot {
    /// The snapshot as one line of text.
    pub fn to_text(&self) -> (text: String)
        ensures
            text@ == "published="@ + decimal(self.published as nat) + " capacity="@ + decimal(
                self.capacity as nat,
            ),
    {
        let mut text = "published=".to_owned();
        append_decimal(&mut text, self.published);
        text.append(" capacity=");
        append_decimal(&mut text, self.capacity);
        text
    }
}

/// Follows the counters of a subscriber.
pub struct SubscriberMetrics {
    prev_received: u64,
    prev_lagged: u64,
}

/// The counters up to which changes were reported.
pub struct BaselineView {
    pub received: nat,
    pub lagged: nat,
}

impl BaselineView {
    /// The counters of a subscriber.
    pub open spec fn of(sub: SubscriberView) -> Self {
        BaselineView { received: sub.received, lagged: sub.lagged }
    }

    /// How many more messages a subscriber has received.
    pub open spec fn more_received(self, sub: SubscriberView) -> int {
        sub.received - self.received
    }

    /// How many more messages a subscriber has lost.
    pub open spec fn more_lagged(self, sub: SubscriberView) -> int {
        sub.lagged - self.lagged
    }
}

impl View for SubscriberMetrics {
    type V = BaselineView;

    closed spec fn view(&self) -> BaselineView {
        BaselineView { received: self.prev_received as nat, lagged: self.prev_lagged as nat }
    }
}

impl SubscriberMetrics {
    /// Changes are reported from the subscriber's current counters on.
    pub fn new<T: Pod>(sub: &Subscriber<T>) -> (metrics: Self)
        ensures
            metrics@ == BaselineView::of(sub@),
            metrics@.received == sub@.received,
            metrics@.lagged == sub@.lagged,
    {
        SubscriberMetrics {
            prev_received: sub.total_received(),
            prev_lagged: sub.total_lagged(),
        }
    }

    /// The current counters.
    pub fn snapshot<T: Pod>(&self, sub: &Subscriber<T>, ring: &SharedRing<T>) -> (snapshot:
        SubscriberSnapshot)
        requires
            ring.wf(),
            sub@.received + sub@.lagged <= u64::MAX,
        ensures
            snapshot.total_received == sub@.received,
            snapshot.total_lagged == sub@.lagged,
            snapshot.receive_ratio.received == sub@.received,
            snapshot.receive_ratio.total == sub@.received + sub@.lagged,
            snapshot.pending == ring@.pending(sub@.cursor),
    {
        SubscriberSnapshot {
            total_received: sub.total_received(),
            total_lagged: sub.total_lagged(),
            receive_ratio: ReceiveRatio {
                received: sub.total_received(),
                total: sub.total_seen(),
            },
            pending: sub.pending(ring),
        }
    }

    /// What changed since the last report. The ratio and the number of waiting
    /// messages are those of now.
    pub fn delta<T: Pod>(&mut self, sub: &Subscriber<T>, ring: &SharedRing<T>) -> (delta:
        SubscriberSnapshot)
        requires
            ring.wf(),
            sub@.received + sub@.lagged <= u64::MAX,
            old(self)@.received <= sub@.received,
            old(self)@.lagged <= sub@.lagged,
        ensures
            delta.total_received == old(self)@.more_received(sub@),
            delta.total_lagged == old(self)@.more_lagged(sub@),
            delta.total_received == sub@.received - old(self)@.received,
            delta.total_lagged == sub@.lagged - old(self)@.lagged,
            delta.receive_ratio.received == sub@.received,
            delta.receive_ratio.total == sub@.received + sub@.lagged,
            delta.pending == ring@.pending(sub@.cursor),
            final(self)@ == BaselineView::of(sub@),
            final(self)@.received == sub@.received,
            final(self)@.lagged == sub@.lagged,
    {
        let current = self.snapshot(sub, ring);
        let delta = SubscriberSnapshot {
            total_received: current.total_received - self.prev_received,
            total_lagged: current.total_lagged - self.prev_lagged,
            receive_ratio: current.receive_ratio,
            pending: current.pending,
        };
        self.prev_received = current.total_received;
        self.prev_lagged = current.total_lagged;
        delta
    }
}

/// What consecutive reports say together, one for each state of the subscriber:
/// messages received and messages lost.
pub open spec fn reported(base: BaselineView, states: Seq<SubscriberView>) -> (int, int)
    decreases states.len(),
{
    if states.len() == 0 {
        (0, 0)
    } else {
        let sub = states.first();
        let rest = reported(BaselineView::of(sub), states.drop_first());
        (base.more_received(sub) + rest.0, base.more_lagged(sub) + rest.1)
    }
}

/// Reports add up: over any number of them, what they say together is how much the
/// counters have grown since the start, whatever was read in between.
pub proof fn lemma_reports_add_up(base: BaselineView, states: Seq<SubscriberView>)
    requires
        states.len() > 0,
    ensures
        reported(base, states) == (
            base.more_received(states.last()),
            base.more_lagged(states.last()),
        ),
        reported(base, states).0 == states.last().received - base.received,
        reported(base, states).1 == states.last().lagged - base.lagged,
    decreases states.len(),
{
    let rest = states.drop_first();
    if rest.len() > 0 {
        lemma_reports_add_up(BaselineView::of(states.first()), rest);
        assert(rest.last() == states.last());
    } else {
        assert(reported(BaselineView::of(states.first()), rest) == (0int, 0int));
    }
}

/// A report on a subscriber that has read nothing since the last one says nothing.
pub proof fn lemma_nothing_new(sub: SubscriberView)
    ensures
        BaselineView::of(sub).more_received(sub) == 0,
        BaselineView::of(sub).more_lagged(sub) == 0,
{
}

/// Reads the counters of a publisher.
pub struct PublisherMetrics {}

impl PublisherMetrics {
    /// The current counters.
    pub fn snapshot<T: Pod>(publisher: &Publisher<T>, ring: &SharedRing<T>) -> (snapshot:
        PublisherSnapshot)
        ensures
            snapshot.published == publisher@.seq,
            snapshot.capacity == ring@.capacity,
    {
        PublisherSnapshot { published: publisher.published(), capacity: publisher.capacity(ring) }
    }
}

} // verus!
