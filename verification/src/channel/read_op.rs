//! One read of a slot, access by access.

use crate::channel::publish_op::PublishOp;
use crate::index::{lemma_slot_lap, slot_of};
use crate::pod::Pod;
use crate::ring::{slot_shows, RingView, SharedRing};
use crate::slot::SEQ_LIMIT;
use vstd::prelude::*;

verus! {

/// Where a read stands: the access to the slot that it makes next.
pub enum ReadPhase<T> {
    /// Load the stamp for the first time.
    LoadStamp,
    /// Copy the payload.
    Copy,
    /// Load the stamp for the second time. The copy counts only if the stamp
    /// is the same.
    Recheck(Option<T>),
    /// The copy was taken while the slot was being replaced, or a write was in
    /// progress.
    Torn,
    /// The slot holds another message than the one looked for. This is its
    /// stamp.
    Other(u64),
    /// The message.
    Accepted(T),
}

/// A read of the message `seq` by somebody who does not stop the writers.
///
/// A call of [`step`](Self::step) is a single access to the slot. Between two
/// steps any producer may access the ring.
pub struct ReadOp<T> {
    pub phase: ReadPhase<T>,
    pub seq: u64,
}

impl<T> RingView<T> {
    /// A later state of the same ring: what is complete stays complete with
    /// the same payload, and a slot is only reused for later messages.
    pub open spec fn evolves(self, later: Self) -> bool {
        &&& later.capacity == self.capacity
        &&& later.tips.len() == self.tips.len()
        &&& later.next() >= self.next()
        &&& forall|n: nat| #[trigger]
            self.done(n) ==> later.done(n) && later.message(n) == self.message(n)
        &&& forall|i: int|
            0 <= i < self.tips.len() ==> (#[trigger] self.tips[i] matches Some(m) ==> (
            later.tips[i] matches Some(k) && m <= k))
    }
}

/// Later states follow each other.
pub proof fn lemma_evolves_on<T>(a: RingView<T>, b: RingView<T>, c: RingView<T>)
    requires
        a.evolves(b),
        b.evolves(c),
    ensures
        a.evolves(c),
{
    assert forall|n: nat| #[trigger] a.done(n) implies c.done(n) && c.message(n) == a.message(
        n,
    ) by {
        assert(b.done(n));
    }
    assert forall|i: int| 0 <= i < a.tips.len() implies (#[trigger] a.tips[i] matches Some(m) ==> (
    c.tips[i] matches Some(k) && m <= k)) by {
        if let Some(m) = a.tips[i] {
            assert(b.tips[i] is Some);
        }
    }
}

/// Every step of a producer leads to a later state.
pub proof fn lemma_producer_evolves<T>(op: PublishOp<T>, r: RingView<T>)
    requires
        r.wf(),
        op.inv(r),
        op.can_step(r),
    ensures
        r.evolves(op.ring_stepped(r)),
{
    let seq = op.seq as nat;
    lemma_slot_lap(seq, r.capacity);
    if op.phase is Begin {
        if let Some(m) = r.tip(seq) {
            assert(m <= seq);
        }
    }
}

/// A publication by a single producer leads to a later state.
pub proof fn lemma_publish_evolves<T>(r: RingView<T>, value: T)
    requires
        r.wf(),
    ensures
        r.evolves(r.publish(value)),
{
    let n = r.next();
    lemma_slot_lap(n, r.capacity);
    let s = slot_of(n, r.capacity) as int;
    if let Some(m) = r.tips[s] {
        assert(r.begun(m));
    }
}

impl<T> ReadOp<T> {
    /// What a read relies on between its steps: if the slot has not been
    /// reused, the copy is the message.
    pub open spec fn inv(self, r: RingView<T>) -> bool {
        let seq = self.seq as nat;
        &&& self.seq < SEQ_LIMIT
        &&& match self.phase {
            ReadPhase::LoadStamp | ReadPhase::Torn | ReadPhase::Other(_) => true,
            ReadPhase::Copy => r.done(seq) && (r.tip(seq) matches Some(m) && seq <= m),
            ReadPhase::Recheck(copy) => {
                &&& r.done(seq)
                &&& r.tip(seq) matches Some(m) && seq <= m
                &&& r.tip(seq) == Some(seq) ==> copy == Some(r.message(seq))
            },
            ReadPhase::Accepted(value) => r.done(seq) && value == r.message(seq),
        }
    }
}

/// A read relies on nothing that a producer can take away: its invariant holds
/// in every later state.
pub proof fn lemma_read_stable<T>(op: ReadOp<T>, r: RingView<T>, later: RingView<T>)
    requires
        r.wf(),
        op.inv(r),
        r.evolves(later),
    ensures
        op.inv(later),
{
    let seq = op.seq as nat;
    lemma_slot_lap(seq, r.capacity);
    if !(op.phase is LoadStamp || op.phase is Torn || op.phase is Other) {
        assert(r.done(seq));
        assert(r.tips[slot_of(seq, r.capacity) as int] == r.tip(seq));
    }
}

impl<T: Pod> ReadOp<T> {
    /// A read of the message `seq` that has not started yet.
    pub fn new(seq: u64) -> (op: Self)
        requires
            seq < SEQ_LIMIT,
        ensures
            op == (ReadOp { phase: ReadPhase::<T>::LoadStamp, seq }),
    {
        ReadOp { phase: ReadPhase::LoadStamp, seq }
    }

    /// Make one access to the slot.
    ///
    /// A message is accepted only if it is the one published as `seq`, whatever
    /// producers did between the steps.
    pub fn step(&mut self, ring: &SharedRing<T>)
        requires
            ring.wf(),
            old(self).inv(ring@),
        ensures
            final(self).seq == old(self).seq,
            final(self).inv(ring@),
            match old(self).phase {
                ReadPhase::LoadStamp => {
                    let stamp = ring@.stamp(old(self).seq as nat);
                    if stamp == old(self).seq * 2 + 2 {
                        final(self).phase is Copy
                    } else if stamp % 2 == 1 {
                        final(self).phase is Torn
                    } else {
                        final(self).phase matches ReadPhase::Other(found) && found == stamp
                    }
                },
                ReadPhase::Copy => final(self).phase is Recheck,
                ReadPhase::Recheck(_) => if ring@.stamp(old(self).seq as nat) == old(self).seq * 2
                    + 2 {
                    final(self).phase == ReadPhase::Accepted(ring@.message(old(self).seq as nat))
                } else {
                    final(self).phase is Torn
                },
                _ => final(self).phase == old(self).phase,
            },
    {
        let seq: u64 = self.seq;
        let expected: u64 = seq * 2 + 2;
        let ghost r = ring@;
        proof {
            lemma_slot_lap(seq as nat, r.capacity);
            let s = slot_of(seq as nat, r.capacity) as int;
            assert(slot_shows(ring.slots[s], r.tips[s], r.history));
            if let Some(m) = r.tips[s] {
                assert(r.begun(m) && slot_of(m, r.capacity) == s);
            }
        }
        match self.phase {
            ReadPhase::LoadStamp => {
                let stamp: u64 = ring.stamp_load(seq);
                if stamp == expected {
                    self.phase = ReadPhase::Copy;
                } else if stamp % 2 == 1 {
                    self.phase = ReadPhase::Torn;
                } else {
                    self.phase = ReadPhase::Other(stamp);
                }
            },
            ReadPhase::Copy => {
                let slot: usize = ring.index.slot(seq);
                self.phase = ReadPhase::Recheck(ring.slots[slot].value);
            },
            ReadPhase::Recheck(copy) => {
                let stamp: u64 = ring.stamp_load(seq);
                if stamp == expected {
                    if let Some(value) = copy {
                        self.phase = ReadPhase::Accepted(value);
                    }
                } else {
                    self.phase = ReadPhase::Torn;
                }
            },
            _ => {},
        }
    }
}

/// Readers and producers together: any step of any producer leaves a read in
/// order.
pub proof fn lemma_read_under_producers<T>(read: ReadOp<T>, op: PublishOp<T>, r: RingView<T>)
    requires
        r.wf(),
        read.inv(r),
        op.inv(r),
        op.can_step(r),
    ensures
        read.inv(op.ring_stepped(r)),
{
    lemma_producer_evolves(op, r);
    lemma_read_stable(read, r, op.ring_stepped(r));
}

} // verus!
