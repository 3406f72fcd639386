//! Many producers on one ring, in any interleaving.

use crate::channel::publish_op::{
    before, lemma_stamp_tells, lemma_step_inv, lemma_step_wf, OpPhase, PublishOp,
};
use crate::index::{lemma_slot_apart, lemma_slot_lap, slot_of};
use crate::pod::Pod;
use crate::ring::{RingView, SharedRing};
use vstd::prelude::*;

verus! {

impl<T> PublishOp<T> {
    /// The publication has claimed `n`.
    pub open spec fn owns(self, n: nat) -> bool {
        !(self.phase is Claim) && self.seq == n
    }

    /// The publication will see to it that the cursor moves on from where it
    /// is.
    pub open spec fn watches(self, r: RingView<T>) -> bool {
        match self.phase {
            OpPhase::FastExchange | OpPhase::AwaitPredecessor | OpPhase::Exchange => self.seq
                == r.future(),
            OpPhase::CheckCursor => self.seq + 1 == r.future(),
            OpPhase::LookClaimed(at) | OpPhase::LookStamp(at) | OpPhase::Follow(at) => at + 1
                == r.future(),
            _ => false,
        }
    }

    /// The publication cannot go on now: the slot it has to write is still in
    /// use, or its predecessor is not complete.
    pub open spec fn blocked(self, r: RingView<T>) -> bool {
        ||| self.phase is Begin && !r.can_begin(self.seq as nat)
        ||| self.phase is AwaitPredecessor && !r.done((self.seq - 1) as nat)
    }
}

/// Every sequence is claimed by one publication only.
pub open spec fn claims_distinct<T>(ops: Seq<PublishOp<T>>) -> bool {
    forall|i: int, j: int|
        0 <= i < ops.len() && 0 <= j < ops.len() && i != j && !(ops[i].phase is Claim) && !(
        ops[j].phase is Claim) ==> (#[trigger] ops[i]).seq != (#[trigger] ops[j]).seq
}

/// An incomplete write belongs to one of the publications.
pub open spec fn open_writes_owned<T>(ops: Seq<PublishOp<T>>, r: RingView<T>) -> bool {
    forall|n: nat|
        n < r.next() && !(#[trigger] r.done(n)) ==> exists|i: int|
            0 <= i < ops.len() && (#[trigger] ops[i]).owns(n)
}

/// If the message after the cursor is complete, some publication is about to
/// announce it.
pub open spec fn cursor_watched<T>(ops: Seq<PublishOp<T>>, r: RingView<T>) -> bool {
    r.done(r.future()) ==> exists|i: int| 0 <= i < ops.len() && (#[trigger] ops[i]).watches(r)
}

/// What holds of a ring and of the publications on it between any two steps.
pub open spec fn producers_inv<T>(ops: Seq<PublishOp<T>>, r: RingView<T>) -> bool {
    &&& r.wf()
    &&& r.multi_producer
    &&& forall|i: int| 0 <= i < ops.len() ==> (#[trigger] ops[i]).inv(r)
    &&& claims_distinct(ops)
    &&& open_writes_owned(ops, r)
    &&& cursor_watched(ops, r)
}

/// What one step leaves as it is for the others: their sequences, what is
/// complete, and the positions that the cursor has reached.
pub proof fn lemma_step_effect<T>(op: PublishOp<T>, r: RingView<T>)
    requires
        r.wf(),
        op.inv(r),
        op.can_step(r),
    ensures
        op.ring_stepped(r).next() >= r.next(),
        op.ring_stepped(r).multi_producer == r.multi_producer,
        forall|n: int|
            0 <= n < r.next() && (op.phase is Claim || n != op.seq) ==> op.ring_stepped(r).history[n]
                == #[trigger] r.history[n],
        forall|n: nat| #[trigger]
            r.done(n) ==> op.ring_stepped(r).done(n) && op.ring_stepped(r).history[n as int]
                == r.history[n as int],
        forall|c: nat| #[trigger] r.reached(c) ==> op.ring_stepped(r).reached(c),
{
    if let Some(head) = r.cursor {
        assert(r.done(head));
    }
}

/// What a publication relies on survives the steps of the others.
proof fn lemma_inv_stable<T>(other: PublishOp<T>, op: PublishOp<T>, r: RingView<T>)
    requires
        r.wf(),
        op.inv(r),
        op.can_step(r),
        other.inv(r),
        !(other.phase is Claim) && !(op.phase is Claim) ==> other.seq != op.seq,
    ensures
        other.inv(op.ring_stepped(r)),
{
    lemma_step_effect(op, r);
    let n = op.ring_stepped(r);
    if !(other.phase is Claim) {
        assert(n.history[other.seq as int] == r.history[other.seq as int]);
    }
    match other.phase {
        OpPhase::Exchange => {
            if other.seq > 0 {
                assert(r.done((other.seq - 1) as nat));
            }
        },
        OpPhase::LookClaimed(at) => {
            assert(r.reached(at as nat));
        },
        OpPhase::LookStamp(at) => {
            assert(r.reached(at as nat));
        },
        OpPhase::Follow(at) => {
            assert(r.reached(at as nat));
            assert(r.done((at + 1) as nat));
        },
        _ => {},
    }
}

/// After a step somebody still watches the cursor.
proof fn lemma_cursor_watched<T>(ops: Seq<PublishOp<T>>, r: RingView<T>, i: int)
    requires
        producers_inv(ops, r),
        0 <= i < ops.len(),
        ops[i].can_step(r),
    ensures
        cursor_watched(ops.update(i, ops[i].stepped(r)), ops[i].ring_stepped(r)),
{
    let op = ops[i];
    let n = op.ring_stepped(r);
    let after = ops.update(i, op.stepped(r));
    let front = r.future();
    assert(op.inv(r));
    lemma_step_effect(op, r);
    lemma_step_inv(op, r);
    if let Some(head) = r.cursor {
        assert(r.done(head));
    }
    if n.done(n.future()) {
        if n.cursor != r.cursor {
            // The step moved the cursor, and looks at the next message itself.
            assert(after[i].watches(n));
        } else if !r.done(front) {
            // The step completed the message after the cursor.
            if op.phase is Finish && op.seq == front {
                assert(after[i].watches(n));
            } else {
                assert(front < r.next() ==> n.history[front as int] == r.history[front as int]
                    || op.seq == front);
                assert(false);
            }
        } else {
            let w = choose|k: int| 0 <= k < ops.len() && (#[trigger] ops[k]).watches(r);
            if w != i {
                assert(after[w].watches(n));
            } else {
                if let OpPhase::LookStamp(at) = op.phase {
                    lemma_stamp_tells(r, front);
                }
                assert(after[i].watches(n));
            }
        }
    }
}

/// Whatever publication makes the next step, the ring and all publications
/// keep their invariant.
pub proof fn lemma_producers_step<T>(ops: Seq<PublishOp<T>>, r: RingView<T>, i: int)
    requires
        producers_inv(ops, r),
        0 <= i < ops.len(),
        ops[i].can_step(r),
    ensures
        producers_inv(ops.update(i, ops[i].stepped(r)), ops[i].ring_stepped(r)),
{
    let op = ops[i];
    let n = op.ring_stepped(r);
    let after = ops.update(i, op.stepped(r));
    assert(op.inv(r));
    lemma_step_wf(op, r);
    lemma_step_inv(op, r);
    lemma_step_effect(op, r);
    lemma_cursor_watched(ops, r, i);
    assert forall|j: int| 0 <= j < after.len() implies (#[trigger] after[j]).inv(n) by {
        if j != i {
            assert(ops[j].inv(r));
            lemma_inv_stable(ops[j], op, r);
        }
    }
    assert forall|a: int, b: int|
        0 <= a < after.len() && 0 <= b < after.len() && a != b && !(after[a].phase is Claim) && !(
        after[b].phase is Claim) implies (#[trigger] after[a]).seq != (#[trigger] after[b]).seq by {
        if op.phase is Claim {
            // The new sequence is none of the old ones.
            if a == i {
                assert(ops[b].inv(r));
            } else if b == i {
                assert(ops[a].inv(r));
            } else {
                assert(ops[a].seq != ops[b].seq);
            }
        } else {
            assert(ops[a].seq != ops[b].seq);
        }
    }
    assert forall|k: nat| k < n.next() && !(#[trigger] n.done(k)) implies exists|j: int|
        0 <= j < after.len() && (#[trigger] after[j]).owns(k) by {
        if k < r.next() {
            assert(!r.done(k));
            let j = choose|j: int| 0 <= j < ops.len() && (#[trigger] ops[j]).owns(k);
            assert(after[j].owns(k));
        } else {
            assert(after[i].owns(k));
        }
    }
}

/// Publications that have not started yet, on a ring at rest.
pub proof fn lemma_producers_start<T>(ops: Seq<PublishOp<T>>, r: RingView<T>)
    requires
        r.wf(),
        r.multi_producer,
        r.settled(),
        forall|i: int| 0 <= i < ops.len() ==> (#[trigger] ops[i]).phase is Claim,
    ensures
        producers_inv(ops, r),
{
    if let Some(head) = r.cursor {
        assert(r.done(head));
    }
}

/// Once all publications are finished, every claimed sequence is complete and
/// the cursor is at the last one, whatever the interleaving was. Each message
/// is in the ring's history under a sequence of its own.
pub proof fn lemma_producers_finished<T>(ops: Seq<PublishOp<T>>, r: RingView<T>)
    requires
        producers_inv(ops, r),
        forall|i: int| 0 <= i < ops.len() ==> (#[trigger] ops[i]).phase is Finished,
    ensures
        r.settled(),
        forall|i: int|
            0 <= i < ops.len() ==> (#[trigger] ops[i]).seq < r.next() && r.message(
                ops[i].seq as nat,
            ) == ops[i].value,
        claims_distinct(ops),
{
    assert forall|n: nat| n < r.next() implies #[trigger] r.done(n) by {
        if !r.done(n) {
            let i = choose|i: int| 0 <= i < ops.len() && (#[trigger] ops[i]).owns(n);
            assert(ops[i].inv(r));
        }
    }
    assert forall|i: int| 0 <= i < ops.len() implies (#[trigger] ops[i]).seq < r.next()
        && r.message(ops[i].seq as nat) == ops[i].value by {
        assert(ops[i].inv(r));
    }
    if let Some(head) = r.cursor {
        assert(r.done(head));
    }
    if r.future() < r.next() {
        assert(r.done(r.future()));
        let i = choose|i: int| 0 <= i < ops.len() && (#[trigger] ops[i]).watches(r);
        assert(ops[i].phase is Finished);
    }
}

/// Once all publications are finished, at least the first message is
/// announced.
pub proof fn lemma_minimum_progress<T>(ops: Seq<PublishOp<T>>, r: RingView<T>)
    requires
        producers_inv(ops, r),
        forall|i: int| 0 <= i < ops.len() ==> (#[trigger] ops[i]).phase is Finished,
        r.next() > 0,
    ensures
        r.reached(0),
{
    lemma_producers_finished(ops, r);
}

/// No gap: whatever the producers are doing, every sequence up to the cursor is
/// complete, and its slot's stamp says so.
pub proof fn lemma_no_gap<T>(r: RingView<T>, n: nat)
    requires
        r.wf(),
        r.reached(n),
    ensures
        r.done(n),
        r.stamp(n) >= n * 2 + 2,
{
    assert(r.done(n));
    lemma_stamp_tells(r, n);
}

/// The first sequence below `bound` that is not complete.
proof fn lemma_first_open<T>(r: RingView<T>, bound: nat) -> (first: nat)
    requires
        bound <= r.next(),
        exists|n: nat| n < bound && !(#[trigger] r.done(n)),
    ensures
        first < bound,
        !r.done(first),
        forall|n: nat| n < first ==> #[trigger] r.done(n),
    decreases bound,
{
    let last = (bound - 1) as nat;
    if exists|n: nat| n < last && !(#[trigger] r.done(n)) {
        lemma_first_open(r, last)
    } else {
        last
    }
}

/// The producers never wait for each other in a circle: while a publication is
/// unfinished, some unfinished publication can go on.
pub proof fn lemma_producers_progress<T>(ops: Seq<PublishOp<T>>, r: RingView<T>)
    requires
        producers_inv(ops, r),
        exists|i: int| 0 <= i < ops.len() && !((#[trigger] ops[i]).phase is Finished),
    ensures
        exists|i: int|
            0 <= i < ops.len() && !((#[trigger] ops[i]).phase is Finished) && !ops[i].blocked(r),
{
    if exists|n: nat| n < r.next() && !(#[trigger] r.done(n)) {
        let first = lemma_first_open(r, r.next());
        let i = choose|i: int| 0 <= i < ops.len() && (#[trigger] ops[i]).owns(first);
        assert(ops[i].inv(r));
        if ops[i].phase is Begin {
            lemma_slot_lap(first, r.capacity);
            assert(!r.begun(first));
            if let Some(m) = r.tip(first) {
                assert(r.tips[slot_of(first, r.capacity) as int] == Some(m));
                assert(r.begun(m));
                lemma_slot_apart(m, first, r.capacity);
                assert(r.done(m));
            }
            if first >= r.capacity {
                let k = (first - r.capacity) as nat;
                lemma_slot_lap(k, r.capacity);
                assert(r.done(k));
                assert(r.begun(k));
            }
            assert(r.can_begin(first));
        }
        assert(!ops[i].blocked(r));
    } else {
        let i = choose|i: int| 0 <= i < ops.len() && !((#[trigger] ops[i]).phase is Finished);
        assert(ops[i].inv(r));
        if ops[i].phase is AwaitPredecessor {
            assert(r.done((ops[i].seq - 1) as nat));
        }
        if ops[i].phase is Begin {
            assert(!r.done(ops[i].seq as nat));
        }
        assert(!ops[i].blocked(r));
    }
}

/// The publications after the steps that `schedule` lists. A step that cannot
/// be taken is left out.
pub open spec fn scheduled<T>(
    ops: Seq<PublishOp<T>>,
    r: RingView<T>,
    schedule: Seq<usize>,
) -> (Seq<PublishOp<T>>, RingView<T>)
    decreases schedule.len(),
{
    if schedule.len() == 0 {
        (ops, r)
    } else {
        let i = schedule.first() as int;
        if i < ops.len() && ops[i].can_step(r) {
            scheduled(
                ops.update(i, ops[i].stepped(r)),
                ops[i].ring_stepped(r),
                schedule.drop_first(),
            )
        } else {
            scheduled(ops, r, schedule.drop_first())
        }
    }
}

/// A schedule is carried out entry by entry: each one is a step of the publication that
/// it names, and is passed over if there is none or it cannot go on. Two schedules can be
/// carried out one after the other.
pub proof fn lemma_scheduled<T>(
    ops: Seq<PublishOp<T>>,
    r: RingView<T>,
    i: usize,
    first: Seq<usize>,
    second: Seq<usize>,
)
    ensures
        scheduled(ops, r, Seq::empty()) == (ops, r),
        i < ops.len() && ops[i as int].can_step(r) ==> scheduled(ops, r, seq![i]) == (
            ops.update(i as int, ops[i as int].stepped(r)),
            ops[i as int].ring_stepped(r),
        ),
        i >= ops.len() || !ops[i as int].can_step(r) ==> scheduled(ops, r, seq![i]) == (ops, r),
        ({
            let (mid, at) = scheduled(ops, r, first);
            scheduled(ops, r, first + second) == scheduled(mid, at, second)
        }),
    decreases first.len(),
{
    reveal_with_fuel(scheduled, 2);
    assert(seq![i].first() == i);
    assert(seq![i].drop_first() =~= Seq::empty());
    if first.len() == 0 {
        assert(first + second =~= second);
    } else {
        let whole = first + second;
        let k = first.first() as int;
        assert(whole.first() == first.first());
        assert(whole.drop_first() =~= first.drop_first() + second);
        if k < ops.len() && ops[k].can_step(r) {
            lemma_scheduled(
                ops.update(k, ops[k].stepped(r)),
                ops[k].ring_stepped(r),
                i,
                first.drop_first(),
                second,
            );
        } else {
            lemma_scheduled(ops, r, i, first.drop_first(), second);
        }
    }
}

/// Order: a publication that has its sequence comes before one that has not
/// started yet, whatever the interleaving. So the messages of one producer, who
/// starts one after the other, are in the order in which it published them.
pub proof fn lemma_order_kept<T>(
    ops: Seq<PublishOp<T>>,
    r: RingView<T>,
    schedule: Seq<usize>,
    first: int,
    second: int,
)
    requires
        producers_inv(ops, r),
        0 <= first < ops.len(),
        0 <= second < ops.len(),
        !(ops[first].phase is Claim),
        ops[second].phase is Claim || ops[first].seq < ops[second].seq,
    ensures
        ({
            let after = scheduled(ops, r, schedule).0;
            &&& after.len() == ops.len()
            &&& after[first].seq == ops[first].seq
            &&& after[second].phase is Claim || after[first].seq < after[second].seq
        }),
    decreases schedule.len(),
{
    if schedule.len() > 0 {
        let i = schedule.first() as int;
        if i < ops.len() && ops[i].can_step(r) {
            lemma_producers_step(ops, r, i);
            assert(ops[first].inv(r));
            assert(ops[i].inv(r));
            lemma_order_kept(
                ops.update(i, ops[i].stepped(r)),
                ops[i].ring_stepped(r),
                schedule.drop_first(),
                first,
                second,
            );
        } else {
            lemma_order_kept(ops, r, schedule.drop_first(), first, second);
        }
    }
}

/// How many of the publications have claimed a sequence.
pub open spec fn claims<T>(ops: Seq<PublishOp<T>>) -> nat
    decreases ops.len(),
{
    if ops.len() == 0 {
        0
    } else if ops.last().phase is Claim {
        claims(ops.drop_last())
    } else {
        claims(ops.drop_last()) + 1
    }
}

/// The count follows a change of one publication.
proof fn lemma_claims_update<T>(ops: Seq<PublishOp<T>>, i: int, op: PublishOp<T>)
    requires
        0 <= i < ops.len(),
    ensures
        ops[i].phase is Claim == op.phase is Claim ==> claims(ops.update(i, op)) == claims(ops),
        ops[i].phase is Claim && !(op.phase is Claim) ==> claims(ops.update(i, op)) == claims(ops)
            + 1,
    decreases ops.len(),
{
    let after = ops.update(i, op);
    if i == ops.len() - 1 {
        assert(after.drop_last() =~= ops.drop_last());
    } else {
        lemma_claims_update(ops.drop_last(), i, op);
        assert(after.drop_last() =~= ops.drop_last().update(i, op));
    }
}

/// None of the publications has claimed a sequence yet, or all of them have.
proof fn lemma_claims_extremes<T>(ops: Seq<PublishOp<T>>)
    ensures
        (forall|i: int| 0 <= i < ops.len() ==> (#[trigger] ops[i]).phase is Claim) ==> claims(ops)
            == 0,
        (forall|i: int| 0 <= i < ops.len() ==> !((#[trigger] ops[i]).phase is Claim)) ==> claims(
            ops,
        ) == ops.len(),
    decreases ops.len(),
{
    if ops.len() > 0 {
        let rest = ops.drop_last();
        lemma_claims_extremes(rest);
        assert(forall|i: int| 0 <= i < rest.len() ==> #[trigger] rest[i] == ops[i]);
        assert(ops.last() == ops[ops.len() - 1]);
    }
}

/// Whatever the interleaving, as many sequences are handed out as publications
/// claim one.
pub proof fn lemma_claims_counted<T>(
    ops: Seq<PublishOp<T>>,
    r: RingView<T>,
    schedule: Seq<usize>,
)
    requires
        producers_inv(ops, r),
    ensures
        ({
            let (after, n) = scheduled(ops, r, schedule);
            &&& after.len() == ops.len()
            &&& n.next() - r.next() == claims(after) - claims(ops)
        }),
    decreases schedule.len(),
{
    if schedule.len() > 0 {
        let i = schedule.first() as int;
        if i < ops.len() && ops[i].can_step(r) {
            lemma_producers_step(ops, r, i);
            lemma_claims_update(ops, i, ops[i].stepped(r));
            lemma_claims_counted(
                ops.update(i, ops[i].stepped(r)),
                ops[i].ring_stepped(r),
                schedule.drop_first(),
            );
        } else {
            lemma_claims_counted(ops, r, schedule.drop_first());
        }
    }
}

/// Publications that start on a ring at rest and are all finished in the end have
/// claimed as many sequences as there are publications, and all of them are
/// published.
pub proof fn lemma_one_claim_each<T>(
    ops: Seq<PublishOp<T>>,
    r: RingView<T>,
    schedule: Seq<usize>,
)
    requires
        r.wf(),
        r.multi_producer,
        r.settled(),
        forall|i: int| 0 <= i < ops.len() ==> (#[trigger] ops[i]).phase is Claim,
        ({
            let after = scheduled(ops, r, schedule).0;
            forall|i: int| 0 <= i < after.len() ==> (#[trigger] after[i]).phase is Finished
        }),
    ensures
        ({
            let n = scheduled(ops, r, schedule).1;
            &&& n.next() == r.next() + ops.len()
            &&& n.settled()
        }),
{
    let (after, n) = scheduled(ops, r, schedule);
    lemma_producers_start(ops, r);
    lemma_claims_counted(ops, r, schedule);
    lemma_claims_extremes(ops);
    lemma_claims_extremes(after);
    lemma_scheduled_inv(ops, r, schedule);
    lemma_producers_finished(after, n);
}

/// What holds between any two steps holds after any number of them.
pub proof fn lemma_scheduled_inv<T>(
    ops: Seq<PublishOp<T>>,
    r: RingView<T>,
    schedule: Seq<usize>,
)
    requires
        producers_inv(ops, r),
    ensures
        producers_inv(scheduled(ops, r, schedule).0, scheduled(ops, r, schedule).1),
    decreases schedule.len(),
{
    if schedule.len() > 0 {
        let i = schedule.first() as int;
        if i < ops.len() && ops[i].can_step(r) {
            lemma_producers_step(ops, r, i);
            lemma_scheduled_inv(
                ops.update(i, ops[i].stepped(r)),
                ops[i].ring_stepped(r),
                schedule.drop_first(),
            );
        } else {
            lemma_scheduled_inv(ops, r, schedule.drop_first());
        }
    }
}

/// Let the publications make their steps in the order that `schedule` lists
/// them. A publication whose next step cannot be taken is passed over.
pub fn interleave<T: Pod>(
    ring: &mut SharedRing<T>,
    ops: &mut Vec<PublishOp<T>>,
    schedule: &[usize],
)
    requires
        old(ring).wf(),
        producers_inv(old(ops)@, old(ring)@),
    ensures
        final(ring).wf(),
        producers_inv(final(ops)@, final(ring)@),
        (final(ops)@, final(ring)@) == scheduled(old(ops)@, old(ring)@, schedule@),
{
    let mut k: usize = 0;
    assert(schedule@.skip(0) =~= schedule@);
    while k < schedule.len()
        invariant
            k <= schedule.len(),
            ring.wf(),
            producers_inv(ops@, ring@),
            scheduled(ops@, ring@, schedule@.skip(k as int)) == scheduled(
                old(ops)@,
                old(ring)@,
                schedule@,
            ),
        decreases schedule.len() - k,
    {
        let i: usize = schedule[k];
        proof {
            let rest = schedule@.skip(k as int);
            assert(rest.first() == i);
            assert(rest.drop_first() =~= schedule@.skip(k as int + 1));
        }
        if i < ops.len() {
            let mut op = ops[i];
            if op.ready(ring) {
                proof {
                    lemma_producers_step(ops@, ring@, i as int);
                }
                op.step(ring);
                ops[i] = op;
            }
        }
        k += 1;
    }
    assert(schedule@.skip(k as int).len() == 0);
}

} // verus!
