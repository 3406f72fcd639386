//! The write side of a channel with many producers.

use crate::channel::publish_op::{before, OpPhase, PublishOp};
use crate::channel::publisher::lemma_settled_tips;
use crate::index::{lemma_slot_lap, slot_of};
use crate::pod::Pod;
use crate::ring::{Phase, RingView, SharedRing};
use crate::slot::SEQ_LIMIT;
use core::marker::PhantomData;
use vstd::prelude::*;

verus! {

/// A write side of a channel with many producers. Any number of clones may
/// publish to the ring.
pub struct MpPublisher<T: Pod> {
    pub(crate) marker: PhantomData<T>,
}

impl<T: Pod> Clone for MpPublisher<T> {
    fn clone(&self) -> (publisher: Self)
        ensures
            publisher == *self,
    {
        MpPublisher { marker: PhantomData }
    }
}

impl<T> RingView<T> {
    /// The next message is written, but not announced.
    pub open spec fn write_next(self, value: T) -> Self {
        RingView {
            history: self.history.push(Phase::Done(value)),
            tips: self.tips.update(
                slot_of(self.next(), self.capacity) as int,
                Some(self.next()),
            ),
            ..self
        }
    }

    /// One of many producers publishes `value` undisturbed. The message is
    /// announced if its predecessor is; otherwise the producers that are
    /// behind announce it later.
    pub open spec fn publish_shared(self, value: T) -> Self {
        if self.cursor == before(self.next()) {
            self.publish(value)
        } else {
            self.write_next(value)
        }
    }

    /// One of many producers can publish now: the slot's previous write is
    /// complete, and so is the predecessor's.
    pub open spec fn can_publish_shared(self) -> bool {
        &&& self.multi_producer
        &&& self.next() + 1 < SEQ_LIMIT
        &&& self.claim().can_begin(self.next())
        &&& self.next() > 0 ==> self.done((self.next() - 1) as nat)
    }
}

/// How far along a publication that nobody disturbs has come.
spec fn undisturbed<T>(op: PublishOp<T>, start: RingView<T>, value: T, now: RingView<T>) -> bool {
    let seq = start.next();
    &&& op.value == value
    &&& !(op.phase is Claim) ==> op.seq == seq
    &&& match op.phase {
        OpPhase::Claim => now == start,
        OpPhase::Begin => now == start.claim(),
        OpPhase::Put => now == start.claim().begin(seq),
        OpPhase::Finish => now == start.claim().begin(seq).put(seq, value),
        OpPhase::FastExchange => now == start.write_next(value),
        OpPhase::AwaitPredecessor | OpPhase::Exchange | OpPhase::CheckCursor => now
            == start.write_next(value) && start.cursor != before(seq),
        OpPhase::LookClaimed(at) => at == seq && now == start.publish(value) && start.cursor
            == before(seq),
        OpPhase::LookStamp(_) | OpPhase::Follow(_) => false,
        OpPhase::Finished => now == start.publish_shared(value),
    }
}

/// Steps left for a publication that nobody disturbs.
spec fn steps_left(phase: OpPhase) -> int {
    match phase {
        OpPhase::Claim => 9,
        OpPhase::Begin => 8,
        OpPhase::Put => 7,
        OpPhase::Finish => 6,
        OpPhase::FastExchange => 5,
        OpPhase::AwaitPredecessor => 4,
        OpPhase::Exchange => 3,
        OpPhase::CheckCursor => 2,
        OpPhase::LookClaimed(_) => 1,
        OpPhase::LookStamp(_) | OpPhase::Follow(_) => 1,
        OpPhase::Finished => 0,
    }
}

impl<T: Pod> MpPublisher<T> {
    pub(crate) fn new() -> Self {
        MpPublisher { marker: PhantomData }
    }

    /// Publish a message. The slot's previous write and the predecessor's
    /// write must be complete.
    pub fn publish(&self, ring: &mut SharedRing<T>, value: T)
        requires
            old(ring).wf(),
            old(ring)@.can_publish_shared(),
        ensures
            final(ring).wf(),
            final(ring)@ == old(ring)@.publish_shared(value),
    {
        let ghost start = ring@;
        let ghost seq = start.next();
        let mut op = PublishOp::new(value);
        while !op.finished()
            invariant
                ring.wf(),
                ring@.multi_producer,
                start.wf(),
                start.can_publish_shared(),
                seq == start.next(),
                op.inv(ring@),
                undisturbed(op, start, value, ring@),
            decreases steps_left(op.phase),
        {
            let ghost was = op;
            let ghost now = ring@;
            proof {
                lemma_slot_lap(seq, start.capacity);
                if let Some(head) = start.cursor {
                    assert(start.done(head));
                }
                if seq > 0 {
                    let p = (seq - 1) as nat;
                    assert(start.done(p));
                    if now.next() > seq {
                        assert(now.done(p));
                        crate::channel::publish_op::lemma_stamp_tells(now, p);
                    }
                }
            }
            op.step(ring);
            proof {
                if was.phase is Finish {
                    assert(ring@.history =~= start.write_next(value).history);
                    assert(ring@.tips =~= start.write_next(value).tips);
                }
                if was.phase is FastExchange {
                    assert(ring@.cursor == start.publish_shared(value).cursor);
                }
            }
        }
    }

    /// Publish the message that `f` builds. The slot's previous write and the
    /// predecessor's write must be complete.
    pub fn publish_with(&self, ring: &mut SharedRing<T>, f: impl FnOnce() -> T)
        requires
            old(ring).wf(),
            old(ring)@.can_publish_shared(),
            f.requires(()),
        ensures
            final(ring).wf(),
            exists|value: T|
                #[trigger] f.ensures((), value) && final(ring)@ == old(ring)@.publish_shared(value),
    {
        let value = f();
        self.publish(ring, value);
    }

    /// Number of sequences claimed so far, by all clones.
    pub fn published(&self, ring: &SharedRing<T>) -> (count: u64)
        requires
            ring.wf(),
            ring@.multi_producer,
        ensures
            count == ring@.next(),
    {
        ring.claimed()
    }

    /// Number of slots of the ring.
    pub fn capacity(&self, ring: &SharedRing<T>) -> (capacity: u64)
        ensures
            capacity == ring@.capacity,
    {
        ring.capacity()
    }
}

/// While no publication is open, one of many producers can publish, and the
/// outcome is that of a single publisher.
pub proof fn lemma_publish_shared_settled<T>(r: RingView<T>, value: T)
    requires
        r.wf(),
        r.settled(),
        r.multi_producer,
        r.next() + 1 < SEQ_LIMIT,
    ensures
        r.can_publish_shared(),
        r.publish_shared(value) == r.publish(value),
        r.publish(value).settled(),
{
    let n = r.next();
    lemma_settled_tips(r, n);
    if n > 0 {
        assert(r.done((n - 1) as nat));
    }
    if n >= r.capacity {
        let m = (n - r.capacity) as nat;
        assert(r.done(m));
        assert(r.claim().done(m));
    }
    assert forall|k: nat| k < r.publish(value).next() implies #[trigger] r.publish(value).done(
        k,
    ) by {
        if k < n {
            assert(r.done(k));
        }
    }
}

} // verus!
