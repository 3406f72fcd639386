//! The rings between the stages of a pipeline.

use crate::channel::constructors::channel;
use crate::channel::publisher::{Publisher, PublisherView};
use crate::channel::subscribable::Subscribable;
use crate::channel::subscriber::{Subscriber, SubscriberView};
use crate::pod::Pod;
use crate::ring::{fresh_ring, SharedRing};
use crate::slot::SEQ_LIMIT;
use vstd::prelude::*;

verus! {

/// Ring size when none is given.
pub const DEFAULT_CAPACITY: usize = 1024;

/// Settings of a pipeline.
#[derive(Debug, Clone, Copy, PartialEq, Eq)]
pub struct PipelineBuilder {
    capacity: usize,
}

impl View for PipelineBuilder {
    type V = nat;

    closed spec fn view(&self) -> nat {
        self.capacity as nat
    }
}

impl Default for PipelineBuilder {
    fn default() -> (builder: Self)
        ensures
            builder@ == DEFAULT_CAPACITY,
            builder@ == 1024,
    {
        PipelineBuilder { capacity: DEFAULT_CAPACITY }
    }
}

/// A ring with a publisher that has published nothing yet.
pub open spec fn fresh_link<T: Pod>(
    publisher: Publisher<T>,
    sub: Subscriber<T>,
    ring: SharedRing<T>,
    capacity: nat,
) -> bool {
    &&& ring.wf()
    &&& ring@ == fresh_ring::<T>(capacity, None, false)
    &&& publisher.bound(ring@)
    &&& publisher@ == (PublisherView { seq: 0, cached_slowest: 0 })
    &&& sub@.bound(ring@)
    &&& sub@ == SubscriberView::fresh(0, None)
}

/// A link between stages is a ring of the size that was asked for, on which nothing has
/// happened and which loses what is not read in time, with a publisher and a subscriber
/// at its start.
pub proof fn lemma_fresh_link<T: Pod>(
    publisher: Publisher<T>,
    sub: Subscriber<T>,
    ring: SharedRing<T>,
    capacity: nat,
)
    requires
        fresh_link(publisher, sub, ring, capacity),
    ensures
        ring.wf(),
        ring@.capacity == capacity,
        ring@.next() == 0,
        ring@.cursor is None,
        ring@.backpressure is None,
        ring@.cells.len() == 0,
        !ring@.multi_producer,
        publisher.bound(ring@),
        publisher@.seq == 0,
        sub@.bound(ring@),
        sub@.cursor == 0,
        sub@.tracker is None,
        sub@.received == 0,
        sub@.lagged == 0,
{
}

impl PipelineBuilder {
    /// Settings with the default ring size.
    pub fn new() -> (builder: Self)
        ensures
            builder@ == DEFAULT_CAPACITY,
            builder@ == 1024,
    {
        PipelineBuilder { capacity: DEFAULT_CAPACITY }
    }

    /// Set the ring size of all rings between stages.
    pub fn capacity(self, capacity: usize) -> (builder: Self)
        ensures
            builder@ == capacity,
    {
        PipelineBuilder { capacity }
    }

    /// The first ring, with the publisher that feeds the pipeline.
    pub fn input<T: Pod>(self) -> (r: (Publisher<T>, StageBuilder<T>, SharedRing<T>))
        requires
            2 <= self@ <= SEQ_LIMIT,
        ensures
            fresh_link(r.0, r.1.subscriber, r.2, self@),
            r.1.capacity == self@,
    {
        let (publisher, subscribable, mut ring) = channel::<T>(self.capacity);
        let subscriber = subscribable.subscribe(&mut ring);
        (publisher, StageBuilder { subscriber, subscribable, capacity: self.capacity }, ring)
    }
}

/// The end of a pipeline under construction: who reads its last ring.
pub struct StageBuilder<T: Pod> {
    pub subscriber: Subscriber<T>,
    pub subscribable: Subscribable<T>,
    pub capacity: usize,
}

/// A stage of a pipeline: where it reads and where it writes.
pub struct StageLink<T: Pod, U: Pod> {
    pub input: Subscriber<T>,
    pub output: Publisher<U>,
    /// The ring that the stage writes to.
    pub ring: SharedRing<U>,
}

impl<T: Pod> StageBuilder<T> {
    /// Add a stage: it reads what came out of the pipeline so far and writes to
    /// a ring of its own, which is now the end of the pipeline.
    pub fn link<U: Pod>(self) -> (r: (StageLink<T, U>, StageBuilder<U>))
        requires
            2 <= self.capacity <= SEQ_LIMIT,
        ensures
            r.0.input == self.subscriber,
            fresh_link(r.0.output, r.1.subscriber, r.0.ring, self.capacity as nat),
            r.1.capacity == self.capacity,
    {
        let (output, subscribable, mut ring) = channel::<U>(self.capacity);
        let subscriber = subscribable.subscribe(&mut ring);
        (
            StageLink { input: self.subscriber, output, ring },
            StageBuilder { subscriber, subscribable, capacity: self.capacity },
        )
    }

    /// Add two stages that both read what came out of the pipeline so far, from
    /// the same message on. `ring` is the ring that it came out of.
    pub fn fan_out<A: Pod, B: Pod>(self, ring: &mut SharedRing<T>) -> (r: (
        StageLink<T, A>,
        StageLink<T, B>,
        FanOutBuilder<A, B>,
    ))
        requires
            2 <= self.capacity <= SEQ_LIMIT,
            old(ring).wf(),
            self.subscriber@.bound(old(ring)@),
        ensures
            final(ring).wf(),
            final(ring)@ == old(ring)@.registered(self.subscriber@.cursor),
            r.0.input == self.subscriber,
            r.0.input@.bound(final(ring)@),
            r.1.input@.bound(final(ring)@),
            r.1.input@ == SubscriberView::fresh(
                self.subscriber@.cursor,
                if old(ring)@.backpressure is Some {
                    Some(old(ring)@.cells.len() as int)
                } else {
                    None
                },
            ),
            fresh_link(r.0.output, r.2.sub_a, r.0.ring, self.capacity as nat),
            fresh_link(r.1.output, r.2.sub_b, r.1.ring, self.capacity as nat),
            r.2.capacity == self.capacity,
    {
        let (output_a, subs_a, mut ring_a) = channel::<A>(self.capacity);
        let (output_b, subs_b, mut ring_b) = channel::<B>(self.capacity);
        let sub_a = subs_a.subscribe(&mut ring_a);
        let sub_b = subs_b.subscribe(&mut ring_b);
        let input_b = self.subscribable.subscribe_at(ring, self.subscriber.cursor());
        (
            StageLink { input: self.subscriber, output: output_a, ring: ring_a },
            StageLink { input: input_b, output: output_b, ring: ring_b },
            FanOutBuilder { sub_a, subs_a, sub_b, subs_b, capacity: self.capacity },
        )
    }

    /// The subscriber that reads what comes out of the pipeline.
    pub fn build(self) -> (output: Subscriber<T>)
        ensures
            output == self.subscriber,
    {
        self.subscriber
    }
}

/// The two ends of a pipeline under construction that forks.
pub struct FanOutBuilder<A: Pod, B: Pod> {
    pub sub_a: Subscriber<A>,
    pub subs_a: Subscribable<A>,
    pub sub_b: Subscriber<B>,
    pub subs_b: Subscribable<B>,
    pub capacity: usize,
}

impl<A: Pod, B: Pod> FanOutBuilder<A, B> {
    /// The subscribers that read what comes out of the two branches.
    pub fn build(self) -> (outputs: (Subscriber<A>, Subscriber<B>))
        ensures
            outputs == (self.sub_a, self.sub_b),
    {
        (self.sub_a, self.sub_b)
    }

    /// Add a stage to the first branch.
    pub fn then_a<A2: Pod>(self) -> (r: (StageLink<A, A2>, FanOutBuilder<A2, B>))
        requires
            2 <= self.capacity <= SEQ_LIMIT,
        ensures
            r.0.input == self.sub_a,
            fresh_link(r.0.output, r.1.sub_a, r.0.ring, self.capacity as nat),
            r.1.sub_b == self.sub_b,
            r.1.capacity == self.capacity,
    {
        let (output, subs_a, mut ring) = channel::<A2>(self.capacity);
        let sub_a = subs_a.subscribe(&mut ring);
        (
            StageLink { input: self.sub_a, output, ring },
            FanOutBuilder {
                sub_a,
                subs_a,
                sub_b: self.sub_b,
                subs_b: self.subs_b,
                capacity: self.capacity,
            },
        )
    }

    /// Add a stage to the second branch.
    pub fn then_b<B2: Pod>(self) -> (r: (StageLink<B, B2>, FanOutBuilder<A, B2>))
        requires
            2 <= self.capacity <= SEQ_LIMIT,
        ensures
            r.0.input == self.sub_b,
            fresh_link(r.0.output, r.1.sub_b, r.0.ring, self.capacity as nat),
            r.1.sub_a == self.sub_a,
            r.1.capacity == self.capacity,
    {
        let (output, subs_b, mut ring) = channel::<B2>(self.capacity);
        let sub_b = subs_b.subscribe(&mut ring);
        (
            StageLink { input: self.sub_b, output, ring },
            FanOutBuilder {
                sub_a: self.sub_a,
                subs_a: self.subs_a,
                sub_b,
                subs_b,
                capacity: self.capacity,
            },
        )
    }
}

} // verus!
