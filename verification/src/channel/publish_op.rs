//! One publication by one of many producers, access by access.

use crate::index::{lemma_slot_lap, slot_of};
use crate::pod::Pod;
use crate::ring::{Phase, RingView, SharedRing};
use crate::slot::SEQ_LIMIT;
use crate::steps::{lemma_begin_wf, lemma_claim_wf, lemma_progress_wf, lemma_same_history};
use vstd::prelude::*;

verus! {

/// Where a publication stands: the access to the ring that it makes next.
#[derive(Debug, Clone, Copy, PartialEq, Eq, Structural)]
pub enum OpPhase {
    /// Claim a sequence.
    Claim,
    /// Mark the slot as being written.
    Begin,
    /// Store the payload.
    Put,
    /// Mark the write as complete.
    Finish,
    /// Try once to move the cursor from the predecessor.
    FastExchange,
    /// Wait until the predecessor's write is complete.
    AwaitPredecessor,
    /// Try a second time to move the cursor.
    Exchange,
    /// Look whether the cursor is at the own sequence.
    CheckCursor,
    /// Look whether a successor of the sequence is claimed.
    LookClaimed(u64),
    /// Look whether the successor of the sequence is complete.
    LookStamp(u64),
    /// Try to move the cursor from the sequence to its successor.
    Follow(u64),
    /// Nothing is left to do.
    Finished,
}

/// One publication by a producer that shares the ring with other producers.
///
/// A call of [`step`](Self::step) is a single access to the ring. Between two
/// steps any other producer or reader may access the ring.
#[derive(Debug, Clone, Copy)]
pub struct PublishOp<T> {
    pub phase: OpPhase,
    /// The claimed sequence; of no meaning before the claim.
    pub seq: u64,
    pub value: T,
}

/// The cursor from which `seq` is announced: its predecessor.
pub open spec fn before(seq: nat) -> Option<nat> {
    if seq == 0 {
        None
    } else {
        Some((seq - 1) as nat)
    }
}

impl<T> RingView<T> {
    /// Cursor `c` has been reached.
    pub open spec fn reached(self, c: nat) -> bool {
        self.cursor matches Some(head) && c <= head
    }
}

impl<T> PublishOp<T> {
    /// The payload is in the ring.
    pub open spec fn committed(self, r: RingView<T>) -> bool {
        self.seq < r.next() && r.history[self.seq as int] == Phase::Done(self.value)
    }

    /// What a publication relies on between its steps.
    pub open spec fn inv(self, r: RingView<T>) -> bool {
        match self.phase {
            OpPhase::Claim => true,
            OpPhase::Begin => self.seq < r.next() && r.history[self.seq as int] is Claimed,
            OpPhase::Put => self.seq < r.next() && r.history[self.seq as int] is Writing,
            OpPhase::Finish => self.seq < r.next() && r.history[self.seq as int]
                == Phase::Written(self.value),
            OpPhase::FastExchange => self.committed(r),
            OpPhase::AwaitPredecessor => self.committed(r) && self.seq > 0,
            OpPhase::Exchange => self.committed(r) && (self.seq > 0 ==> r.done(
                (self.seq - 1) as nat,
            )),
            OpPhase::CheckCursor => self.committed(r),
            OpPhase::LookClaimed(at) => self.committed(r) && r.reached(at as nat),
            OpPhase::LookStamp(at) => self.committed(r) && r.reached(at as nat) && at + 1
                < r.next(),
            OpPhase::Follow(at) => self.committed(r) && r.reached(at as nat) && r.done(
                (at + 1) as nat,
            ),
            OpPhase::Finished => self.committed(r),
        }
    }

    /// The next step can be taken: a write begins only when the slot's previous
    /// write, one lap earlier, is complete.
    pub open spec fn can_step(self, r: RingView<T>) -> bool {
        &&& self.phase is Claim ==> r.next() + 1 < SEQ_LIMIT
        &&& self.phase is Begin ==> r.can_begin(self.seq as nat)
    }

    /// The publication after its next step.
    pub open spec fn stepped(self, r: RingView<T>) -> Self {
        let seq = self.seq as nat;
        match self.phase {
            OpPhase::Claim => PublishOp { phase: OpPhase::Begin, seq: r.next() as u64, ..self },
            OpPhase::Begin => PublishOp { phase: OpPhase::Put, ..self },
            OpPhase::Put => PublishOp { phase: OpPhase::Finish, ..self },
            OpPhase::Finish => PublishOp { phase: OpPhase::FastExchange, ..self },
            OpPhase::FastExchange => PublishOp {
                phase: if r.cursor == before(seq) {
                    OpPhase::LookClaimed(self.seq)
                } else if self.seq > 0 {
                    OpPhase::AwaitPredecessor
                } else {
                    OpPhase::Exchange
                },
                ..self
            },
            OpPhase::AwaitPredecessor => PublishOp {
                phase: if r.stamp((seq - 1) as nat) >= seq * 2 {
                    OpPhase::Exchange
                } else {
                    OpPhase::AwaitPredecessor
                },
                ..self
            },
            OpPhase::Exchange => PublishOp { phase: OpPhase::CheckCursor, ..self },
            OpPhase::CheckCursor => PublishOp {
                phase: if r.cursor == Some(seq) {
                    OpPhase::LookClaimed(self.seq)
                } else {
                    OpPhase::Finished
                },
                ..self
            },
            OpPhase::LookClaimed(at) => PublishOp {
                phase: if at + 1 >= r.next() {
                    OpPhase::Finished
                } else {
                    OpPhase::LookStamp(at)
                },
                ..self
            },
            OpPhase::LookStamp(at) => PublishOp {
                phase: if r.stamp((at + 1) as nat) < at * 2 + 4 {
                    OpPhase::Finished
                } else {
                    OpPhase::Follow(at)
                },
                ..self
            },
            OpPhase::Follow(at) => PublishOp {
                phase: if r.cursor == Some(at as nat) {
                    OpPhase::LookClaimed((at + 1) as u64)
                } else {
                    OpPhase::Finished
                },
                ..self
            },
            OpPhase::Finished => self,
        }
    }

    /// The ring after the next step of this publication.
    pub open spec fn ring_stepped(self, r: RingView<T>) -> RingView<T> {
        let seq = self.seq as nat;
        match self.phase {
            OpPhase::Claim => r.claim(),
            OpPhase::Begin => r.begin(seq),
            OpPhase::Put => r.put(seq, self.value),
            OpPhase::Finish => r.finish(seq),
            OpPhase::FastExchange | OpPhase::Exchange => if r.cursor == before(seq) {
                r.announce(seq)
            } else {
                r
            },
            OpPhase::Follow(at) => if r.cursor == Some(at as nat) {
                r.announce((at + 1) as nat)
            } else {
                r
            },
            _ => r,
        }
    }
}

/// The stamp of a slot tells whether the write of `n` there is complete.
pub proof fn lemma_stamp_tells<T>(r: RingView<T>, n: nat)
    requires
        r.wf(),
        n < r.next(),
    ensures
        r.stamp(n) >= n * 2 + 2 <==> r.done(n),
{
    lemma_slot_lap(n, r.capacity);
    if let Some(m) = r.tip(n) {
        assert(r.tips[slot_of(n, r.capacity) as int] == Some(m));
        assert(r.begun(m));
        if n < m {
            assert(r.done(n));
        }
    }
    if r.done(n) {
        assert(r.begun(n));
    }
}

impl<T: Pod> PublishOp<T> {
    /// A publication of `value` that has not started yet.
    pub fn new(value: T) -> (op: Self)
        ensures
            op == (PublishOp { phase: OpPhase::Claim, seq: 0u64, value }),
    {
        PublishOp { phase: OpPhase::Claim, seq: 0, value }
    }

    /// Whether nothing is left to do.
    pub fn finished(&self) -> (finished: bool)
        ensures
            finished == (self.phase is Finished),
    {
        match self.phase {
            OpPhase::Finished => true,
            _ => false,
        }
    }

    /// Whether [`step`](Self::step) may be called now.
    pub fn ready(&self, ring: &SharedRing<T>) -> (ready: bool)
        requires
            ring.wf(),
            ring@.multi_producer,
            self.inv(ring@),
        ensures
            ready == self.can_step(ring@),
    {
        match self.phase {
            OpPhase::Claim => ring.claimed() + 1 < SEQ_LIMIT,
            OpPhase::Begin => {
                let seq: u64 = self.seq;
                let capacity: u64 = ring.capacity();
                let stamp: u64 = ring.stamp_load(seq);
                proof {
                    let r = ring@;
                    lemma_slot_lap(seq as nat, r.capacity);
                    if let Some(m) = r.tip(seq as nat) {
                        assert(r.tips[slot_of(seq as nat, r.capacity) as int] == Some(m));
                        assert(r.begun(m));
                    }
                    assert(!r.begun(seq as nat));
                    if seq >= capacity {
                        let k = (seq - capacity) as nat;
                        lemma_slot_lap(k, r.capacity);
                    }
                }
                if seq < capacity {
                    stamp == 0
                } else {
                    stamp == (seq - capacity) * 2 + 2
                }
            },
            _ => true,
        }
    }
}

/// The ring stays well formed through every step.
pub proof fn lemma_step_wf<T>(op: PublishOp<T>, r: RingView<T>)
    requires
        r.wf(),
        op.inv(r),
        op.can_step(r),
    ensures
        op.ring_stepped(r).wf(),
{
    let seq = op.seq as nat;
    match op.phase {
        OpPhase::Claim => {
            lemma_claim_wf(r);
        },
        OpPhase::Begin => {
            lemma_begin_wf(r, seq);
        },
        OpPhase::Put => {
            assert(r.begun(seq));
            lemma_progress_wf(r, seq, Phase::Written(op.value));
        },
        OpPhase::Finish => {
            assert(r.begun(seq));
            lemma_progress_wf(r, seq, Phase::Done(op.value));
        },
        OpPhase::FastExchange | OpPhase::Exchange => {
            if r.cursor == before(seq) {
                assert forall|n: nat| n <= seq implies #[trigger] r.done(n) by {}
                lemma_same_history(r, r.announce(seq));
            }
        },
        OpPhase::Follow(at) => {
            if r.cursor == Some(at as nat) {
                assert forall|n: nat| n <= at + 1 implies #[trigger] r.done(n) by {}
                lemma_same_history(r, r.announce((at + 1) as nat));
            }
        },
        _ => {},
    }
}

/// A step keeps what the publication relies on.
pub proof fn lemma_step_inv<T>(op: PublishOp<T>, r: RingView<T>)
    requires
        r.wf(),
        op.inv(r),
        op.can_step(r),
    ensures
        op.stepped(r).inv(op.ring_stepped(r)),
{
    let seq = op.seq as nat;
    let n = op.ring_stepped(r);
    match op.phase {
        OpPhase::AwaitPredecessor => {
            lemma_stamp_tells(r, (seq - 1) as nat);
        },
        OpPhase::LookStamp(at) => {
            lemma_stamp_tells(r, (at + 1) as nat);
        },
        OpPhase::Follow(at) => {
            assert(r.done((at + 1) as nat));
        },
        _ => {},
    }
}

/// A publication goes through its accesses in order. It claims the next sequence, and
/// marks, fills and completes the slot of that sequence with its own payload. Then it
/// announces its sequence if the one before is announced, and goes on to those behind it
/// that are complete already.
pub proof fn lemma_step_by_step<T>(op: PublishOp<T>, r: RingView<T>)
    requires
        r.wf(),
        op.inv(r),
        op.can_step(r),
    ensures
        ({
            let next = op.stepped(r);
            let n = op.ring_stepped(r);
            &&& next.value == op.value
            &&& !(op.phase is Claim) ==> next.seq == op.seq
            &&& op.phase is Claim ==> next.seq == r.next() && next.phase is Begin && n == r.claim()
            &&& op.phase is Begin ==> next.phase is Put && n == r.begin(op.seq as nat)
            &&& op.phase is Put ==> next.phase is Finish && n == r.put(op.seq as nat, op.value)
            &&& op.phase is Finish ==> next.phase is FastExchange && n.done(op.seq as nat)
                && n.message(op.seq as nat) == op.value
            &&& op.phase is FastExchange || op.phase is Exchange ==> (if r.future() == op.seq {
                n == r.announce(op.seq as nat)
            } else {
                n == r
            })
            &&& op.phase is AwaitPredecessor ==> n == r && (next.phase is Exchange <==> r.done(
                (op.seq - 1) as nat,
            ))
            &&& op.phase is CheckCursor ==> n == r && (next.phase is Finished <==> r.cursor != Some(
                op.seq as nat,
            ))
            &&& op.phase matches OpPhase::LookClaimed(at) ==> n == r && (next.phase is Finished
                <==> at + 1 >= r.next())
            &&& op.phase matches OpPhase::LookStamp(at) ==> n == r && (next.phase is Finished
                <==> !r.done((at + 1) as nat))
            &&& op.phase matches OpPhase::Follow(at) ==> (if r.cursor == Some(at as nat) {
                n == r.announce((at + 1) as nat) && next.phase == OpPhase::LookClaimed(
                    (at + 1) as u64,
                )
            } else {
                n == r && next.phase is Finished
            })
        }),
{
    match op.phase {
        OpPhase::AwaitPredecessor => {
            lemma_stamp_tells(r, (op.seq - 1) as nat);
        },
        OpPhase::LookStamp(at) => {
            lemma_stamp_tells(r, (at + 1) as nat);
        },
        _ => {},
    }
}

/// A publication can make its next access unless the counter is used up or the slot is
/// still taken by the write one lap before.
pub proof fn lemma_can_step<T>(op: PublishOp<T>, r: RingView<T>)
    requires
        op.inv(r),
    ensures
        op.phase is Claim ==> (op.can_step(r) <==> r.next() + 1 < SEQ_LIMIT),
        op.phase is Begin ==> (op.can_step(r) <==> match r.tips[(op.seq as nat
            % r.capacity) as int] {
            Some(m) => m + r.capacity == op.seq && r.done(m),
            None => op.seq < r.capacity,
        }),
        !(op.phase is Claim) && !(op.phase is Begin) ==> op.can_step(r),
{
}

impl<T: Pod> PublishOp<T> {
    /// Make one access to the ring.
    pub fn step(&mut self, ring: &mut SharedRing<T>)
        requires
            old(ring).wf(),
            old(ring)@.multi_producer,
            old(self).inv(old(ring)@),
            old(self).can_step(old(ring)@),
        ensures
            final(ring).wf(),
            *final(self) == old(self).stepped(old(ring)@),
            final(ring)@ == old(self).ring_stepped(old(ring)@),
            final(self).inv(final(ring)@),
    {
        proof {
            lemma_step_inv(*self, ring@);
        }
        match self.phase {
            OpPhase::Claim | OpPhase::Begin | OpPhase::Put | OpPhase::Finish => {
                self.write(ring);
            },
            OpPhase::FastExchange | OpPhase::AwaitPredecessor | OpPhase::Exchange
            | OpPhase::CheckCursor => {
                self.advance_cursor(ring);
            },
            OpPhase::LookClaimed(_) | OpPhase::LookStamp(_) | OpPhase::Follow(_) => {
                self.catch_up_cursor(ring);
            },
            OpPhase::Finished => {},
        }
    }

    /// The steps that claim a sequence and write its slot.
    fn write(&mut self, ring: &mut SharedRing<T>)
        requires
            old(ring).wf(),
            old(ring)@.multi_producer,
            old(self).inv(old(ring)@),
            old(self).can_step(old(ring)@),
            old(self).phase is Claim || old(self).phase is Begin || old(self).phase is Put || old(
                self,
            ).phase is Finish,
        ensures
            final(ring).wf(),
            *final(self) == old(self).stepped(old(ring)@),
            final(ring)@ == old(self).ring_stepped(old(ring)@),
    {
        match self.phase {
            OpPhase::Claim => {
                self.seq = ring.claim();
                self.phase = OpPhase::Begin;
            },
            OpPhase::Begin => {
                ring.begin_write(self.seq);
                self.phase = OpPhase::Put;
            },
            OpPhase::Put => {
                ring.write_value(self.seq, self.value);
                self.phase = OpPhase::Finish;
            },
            _ => {
                ring.finish_write(self.seq);
                self.phase = OpPhase::FastExchange;
            },
        }
    }

    /// The steps that announce the written sequence. The cursor is moved at
    /// once if the predecessor is announced. Otherwise the predecessor's slot
    /// is watched until its write is complete, and one more try is made.
    fn advance_cursor(&mut self, ring: &mut SharedRing<T>)
        requires
            old(ring).wf(),
            old(self).inv(old(ring)@),
            old(self).phase is FastExchange || old(self).phase is AwaitPredecessor || old(
                self,
            ).phase is Exchange || old(self).phase is CheckCursor,
        ensures
            final(ring).wf(),
            *final(self) == old(self).stepped(old(ring)@),
            final(ring)@ == old(self).ring_stepped(old(ring)@),
    {
        let seq: u64 = self.seq;
        let expected: Option<u64> = if seq == 0 {
            None
        } else {
            Some(seq - 1)
        };
        proof {
            let r = ring@;
            if r.cursor == before(seq as nat) {
                assert forall|n: nat| n <= seq implies #[trigger] r.done(n) by {}
            }
        }
        match self.phase {
            OpPhase::FastExchange => {
                if ring.exchange_cursor(expected, seq) {
                    self.phase = OpPhase::LookClaimed(seq);
                } else if seq > 0 {
                    self.phase = OpPhase::AwaitPredecessor;
                } else {
                    self.phase = OpPhase::Exchange;
                }
            },
            OpPhase::AwaitPredecessor => {
                let done: u64 = (seq - 1) * 2 + 2;
                if ring.stamp_load(seq - 1) >= done {
                    self.phase = OpPhase::Exchange;
                }
            },
            OpPhase::Exchange => {
                let _ = ring.exchange_cursor(expected, seq);
                self.phase = OpPhase::CheckCursor;
            },
            _ => {
                let at_own: bool = match ring.head() {
                    Some(head) => head == seq,
                    None => false,
                };
                if at_own {
                    self.phase = OpPhase::LookClaimed(seq);
                } else {
                    self.phase = OpPhase::Finished;
                }
            },
        }
    }

    /// The steps that move the cursor on past successors that are complete
    /// already.
    fn catch_up_cursor(&mut self, ring: &mut SharedRing<T>)
        requires
            old(ring).wf(),
            old(ring)@.multi_producer,
            old(self).inv(old(ring)@),
            old(self).phase is LookClaimed || old(self).phase is LookStamp || old(
                self,
            ).phase is Follow,
        ensures
            final(ring).wf(),
            *final(self) == old(self).stepped(old(ring)@),
            final(ring)@ == old(self).ring_stepped(old(ring)@),
    {
        proof {
            let r = ring@;
            assert(r.done(r.cursor->0));
        }
        match self.phase {
            OpPhase::LookClaimed(at) => {
                if at + 1 >= ring.claimed() {
                    self.phase = OpPhase::Finished;
                } else {
                    self.phase = OpPhase::LookStamp(at);
                }
            },
            OpPhase::LookStamp(at) => {
                let done: u64 = (at + 1) * 2 + 2;
                if ring.stamp_load(at + 1) < done {
                    self.phase = OpPhase::Finished;
                } else {
                    self.phase = OpPhase::Follow(at);
                }
            },
            OpPhase::Follow(at) => {
                proof {
                    let r = ring@;
                    if r.cursor == Some(at as nat) {
                        assert forall|n: nat| n <= at + 1 implies #[trigger] r.done(n) by {}
                    }
                }
                if ring.exchange_cursor(Some(at), at + 1) {
                    self.phase = OpPhase::LookClaimed(at + 1);
                } else {
                    self.phase = OpPhase::Finished;
                }
            },
            _ => {},
        }
    }
}

} // verus!
