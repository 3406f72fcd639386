//! What each operation on a ring changes, and what it leaves alone.

use crate::backpressure::{
    lemma_filter_gates, lemma_release_gates, lemma_slowest_of_live, GateView,
};
use crate::channel::publish_op::before;
use crate::channel::publisher::PublisherView;
use crate::index::lemma_slot_lap;
use crate::ring::{slot_shows, Phase, RingView};
use crate::slot::Slot;
use vstd::prelude::*;

verus! {

/// Two rings hold the same messages, in the same slots, announced as far.
pub open spec fn same_slots<T>(a: RingView<T>, b: RingView<T>) -> bool {
    &&& a.capacity == b.capacity
    &&& a.history == b.history
    &&& a.tips == b.tips
    &&& a.cursor == b.cursor
    &&& a.multi_producer == b.multi_producer
}

/// Two rings have the same subscribers.
pub open spec fn same_subscribers<T>(a: RingView<T>, b: RingView<T>) -> bool {
    &&& a.cells == b.cells
    &&& a.backpressure == b.backpressure
}

/// A ring is at rest exactly if every sequence that was handed out is complete and the
/// last of them is announced. What is published is then what is complete, in order.
pub proof fn lemma_settled_means<T>(r: RingView<T>)
    ensures
        r.next() == r.history.len(),
        r.settled() <==> {
            &&& forall|i: int| 0 <= i < r.history.len() ==> #[trigger] r.history[i] is Done
            &&& r.history.len() == 0 ==> r.cursor is None
            &&& r.history.len() > 0 ==> r.cursor == Some((r.history.len() - 1) as nat)
        },
        r.log().len() == r.history.len(),
        forall|i: int|
            0 <= i < r.history.len() && r.history[i] is Done ==> Phase::Done(#[trigger] r.log()[i])
                == r.history[i],
{
    if r.settled() {
        assert forall|i: int| 0 <= i < r.history.len() implies #[trigger] r.history[i] is Done by {
            assert(r.done(i as nat));
        }
    }
}

/// A cell that is added shows its position behind all others.
pub proof fn lemma_add_cell<T>(r: RingView<T>, position: u64)
    ensures
        ({
            let n = r.add_cell(position);
            &&& same_slots(n, r)
            &&& n.backpressure == r.backpressure
            &&& n.cells.len() == r.cells.len() + 1
            &&& n.cells[r.cells.len() as int] == position
            &&& forall|i: int| 0 <= i < r.cells.len() ==> #[trigger] n.cells[i] == r.cells[i]
        }),
{
}

/// A subscriber that gates the publisher has a cell of its own, and a live gate on it.
/// The headroom and the other gates stay.
pub proof fn lemma_add_gate<T>(r: RingView<T>, position: u64)
    requires
        r.backpressure is Some,
    ensures
        ({
            let n = r.add_gate(position);
            let gates = r.backpressure->0.gates;
            &&& same_slots(n, r)
            &&& n.cells == r.cells.push(position)
            &&& n.backpressure matches Some(bp) && bp.watermark == r.backpressure->0.watermark
                && bp.gates.len() == gates.len() + 1 && bp.gates[gates.len() as int].live
                && bp.gates[gates.len() as int].cell == r.cells.len() && forall|i: int|
                0 <= i < gates.len() ==> #[trigger] bp.gates[i] == gates[i]
        }),
{
}

/// A subscriber that moves changes the position that its own cell shows.
pub proof fn lemma_move_cell<T>(r: RingView<T>, cell: int, position: u64)
    requires
        0 <= cell < r.cells.len(),
    ensures
        ({
            let n = r.move_cell(cell, position);
            &&& same_slots(n, r)
            &&& n.backpressure == r.backpressure
            &&& n.cells.len() == r.cells.len()
            &&& n.cells[cell] == position
            &&& forall|i: int|
                0 <= i < r.cells.len() && i != cell ==> #[trigger] n.cells[i] == r.cells[i]
        }),
{
}

/// A subscriber that is gone leaves its gate dead, and everything else as it is.
pub proof fn lemma_release_ring<T>(r: RingView<T>, cell: int)
    ensures
        ({
            let n = r.release(cell);
            &&& same_slots(n, r)
            &&& n.cells == r.cells
            &&& n.backpressure is Some <==> r.backpressure is Some
            &&& r.backpressure matches Some(bp) ==> {
                let now = n.backpressure->0;
                &&& now.watermark == bp.watermark
                &&& now.gates.len() == bp.gates.len()
                &&& forall|i: int|
                    0 <= i < bp.gates.len() ==> (#[trigger] now.gates[i]).cell == bp.gates[i].cell
                        && (now.gates[i].live <==> bp.gates[i].live && bp.gates[i].cell != cell)
            }
        }),
{
    if let Some(bp) = r.backpressure {
        lemma_release_gates(bp.gates, cell);
    }
}

/// Dropping dead gates keeps every live one, and everything else.
pub proof fn lemma_prune_ring<T>(r: RingView<T>)
    ensures
        ({
            let n = r.prune();
            &&& same_slots(n, r)
            &&& n.cells == r.cells
            &&& n.slowest() == r.slowest()
            &&& n.backpressure is Some <==> r.backpressure is Some
            &&& r.backpressure matches Some(bp) ==> {
                let now = n.backpressure->0;
                &&& now.watermark == bp.watermark
                &&& forall|g: GateView| #[trigger]
                    now.gates.contains(g) <==> bp.gates.contains(g) && g.live
            }
        }),
{
    if let Some(bp) = r.backpressure {
        lemma_slowest_of_live(bp.gates, r.cells);
        lemma_filter_gates(bp.gates);
    }
}

/// A claim hands out the next sequence, and touches no slot.
pub proof fn lemma_claim<T>(r: RingView<T>)
    ensures
        ({
            let n = r.claim();
            &&& n.next() == r.next() + 1
            &&& n.history == r.history.push(Phase::Claimed)
            &&& n.tips == r.tips
            &&& n.cursor == r.cursor
            &&& n.capacity == r.capacity
            &&& n.multi_producer == r.multi_producer
            &&& same_subscribers(n, r)
        }),
{
}

/// A write takes over the slot of its sequence when it begins, and no other slot.
pub proof fn lemma_begin<T>(r: RingView<T>, seq: nat)
    requires
        r.capacity > 0,
        r.tips.len() == r.capacity,
        seq < r.next(),
    ensures
        ({
            let n = r.begin(seq);
            &&& n.next() == r.next()
            &&& n.history[seq as int] is Writing
            &&& forall|i: int|
                0 <= i < r.next() && i != seq ==> #[trigger] n.history[i] == r.history[i]
            &&& n.tip(seq) == Some(seq)
            &&& forall|k: nat| k % r.capacity != seq % r.capacity ==> #[trigger] n.tip(k) == r.tip(k)
            &&& n.cursor == r.cursor
            &&& n.capacity == r.capacity
            &&& n.multi_producer == r.multi_producer
            &&& same_subscribers(n, r)
        }),
{
    lemma_slot_lap(seq, r.capacity);
    assert forall|k: nat| k % r.capacity != seq % r.capacity implies #[trigger] r.begin(seq).tip(k)
        == r.tip(k) by {
        lemma_slot_lap(k, r.capacity);
    }
}

/// The payload is stored, and the write completed with that payload: a write changes what
/// has become of its own sequence.
pub proof fn lemma_put_and_finish<T>(r: RingView<T>, seq: nat, value: T)
    requires
        seq < r.next(),
    ensures
        ({
            let n = r.put(seq, value);
            &&& n.history == r.history.update(seq as int, Phase::Written(value))
            &&& n.tips == r.tips && n.cursor == r.cursor && n.capacity == r.capacity
            &&& n.multi_producer == r.multi_producer
            &&& same_subscribers(n, r)
        }),
        ({
            let n = r.put(seq, value).finish(seq);
            &&& n.done(seq) && n.message(seq) == value
            &&& n.next() == r.next()
            &&& forall|i: int|
                0 <= i < r.next() && i != seq ==> #[trigger] n.history[i] == r.history[i]
            &&& n.tips == r.tips && n.cursor == r.cursor && n.capacity == r.capacity
            &&& n.multi_producer == r.multi_producer
            &&& same_subscribers(n, r)
        }),
        r.history[seq as int] matches Phase::Written(v) ==> r.finish(seq).history
            == r.history.update(seq as int, Phase::Done(v)),
{
}

/// An announcement moves the cursor, and nothing else.
pub proof fn lemma_announce<T>(r: RingView<T>, seq: nat)
    ensures
        ({
            let n = r.announce(seq);
            &&& n.cursor == Some(seq)
            &&& n.history == r.history && n.tips == r.tips && n.capacity == r.capacity
            &&& n.multi_producer == r.multi_producer
            &&& same_subscribers(n, r)
        }),
{
}

/// A message is announced from the one right before it.
pub proof fn lemma_before(seq: nat)
    ensures
        before(0) is None,
        before(seq + 1) == Some(seq),
{
}

/// A publication is a claim, a whole write and an announcement of the next sequence.
pub proof fn lemma_publish_is_all_steps<T>(r: RingView<T>, value: T)
    requires
        r.capacity > 0,
        r.tips.len() == r.capacity,
    ensures
        ({
            let seq = r.next();
            let written = r.claim().begin(seq).put(seq, value).finish(seq);
            &&& r.write_next(value) == written
            &&& r.publish(value) == written.announce(seq)
            &&& r.cursor == before(seq) ==> r.publish_shared(value) == written.announce(seq)
            &&& r.cursor != before(seq) ==> r.publish_shared(value) == written
        }),
{
    let seq = r.next();
    let written = r.claim().begin(seq).put(seq, value).finish(seq);
    lemma_slot_lap(seq, r.capacity);
    assert(written.history =~= r.history.push(Phase::Done(value)));
    assert(written.tips =~= r.write_next(value).tips);
    assert(r.write_next(value) =~= written);
    assert(r.publish(value) =~= written.announce(seq));
}

/// What a publication leaves behind: one more message, in the next slot, announced.
pub proof fn lemma_publish_changes<T>(r: RingView<T>, value: T)
    requires
        r.capacity > 0,
        r.tips.len() == r.capacity,
    ensures
        ({
            let n = r.publish(value);
            &&& n.next() == r.next() + 1
            &&& n.history == r.history.push(Phase::Done(value))
            &&& n.cursor == Some(r.next())
            &&& n.tip(r.next()) == Some(r.next())
            &&& forall|k: nat|
                k % r.capacity != r.next() % r.capacity ==> #[trigger] n.tip(k) == r.tip(k)
            &&& n.capacity == r.capacity
            &&& n.multi_producer == r.multi_producer
            &&& same_subscribers(n, r)
        }),
{
    lemma_slot_lap(r.next(), r.capacity);
    assert forall|k: nat|
        k % r.capacity != r.next() % r.capacity implies #[trigger] r.publish(value).tip(k) == r.tip(
        k,
    ) by {
        lemma_slot_lap(k, r.capacity);
    }
}

/// The stamp of a slot tells which write began there last and whether it is complete.
pub proof fn lemma_stamp_of_slot<T>(r: RingView<T>, seq: nat)
    ensures
        r.tip(seq) is None <==> r.stamp(seq) == 0,
        r.tip(seq) matches Some(m) ==> r.stamp(seq) == 2 * m + (if r.done(m) {
            2int
        } else {
            1int
        }),
{
}

/// What a slot of a ring shows: nothing before its first write, an odd stamp while a write
/// is open, and an even stamp with the payload once it is complete.
pub proof fn lemma_slot_shows<T>(slot: Slot<T>, tip: Option<nat>, history: Seq<Phase<T>>)
    requires
        slot_shows(slot, tip, history),
    ensures
        tip is None ==> slot@.stamp == 0 && slot@.value is None,
        tip matches Some(m) ==> match history[m as int] {
            Phase::Done(value) => slot@.stamp == 2 * m + 2 && slot@.value == Some(value),
            Phase::Written(value) => slot@.stamp == 2 * m + 1 && slot@.value == Some(value),
            Phase::Writing => slot@.stamp == 2 * m + 1,
            Phase::Claimed => false,
        },
{
}

/// A subscriber of the future starts right behind what is announced, and a ring keeps a
/// record of it only where somebody has to know its position.
pub proof fn lemma_registered<T>(r: RingView<T>, start: nat)
    ensures
        r.cursor is None ==> r.future() == 0,
        r.cursor matches Some(head) ==> r.future() == head + 1,
        r.backpressure is None ==> r.registered(start) == r,
        r.backpressure is None ==> r.watched(start) == r.add_cell(start as u64),
        r.backpressure is Some ==> r.registered(start) == r.add_gate(start as u64),
        r.backpressure is Some ==> r.watched(start) == r.add_gate(start as u64),
{
}

/// Looking for room takes nothing from a ring and changes nothing of a publisher but the
/// position that it remembers, which is then that of the slowest subscriber.
pub proof fn lemma_looked<T>(p: PublisherView, r: RingView<T>)
    ensures
        p.looked(r).seq == p.seq,
        p.looked(r).cached_slowest == p.cached_slowest || (r.slowest() matches Some(position)
            && p.looked(r).cached_slowest == position),
        same_slots(p.ring_looked(r), r),
        p.ring_looked(r).cells == r.cells,
        p.ring_looked(r).slowest() == r.slowest(),
        p.ring_looked(r) == r || p.ring_looked(r) == r.prune(),
        p.published(r).seq == p.seq + 1,
        p.published(r).cached_slowest == p.looked(r).cached_slowest,
{
    lemma_prune_ring(r);
}

/// What a batch leaves behind: its messages, in their order, behind what was there. The
/// subscribers stay where they are.
pub proof fn lemma_batch_appends<T>(p: PublisherView, r: RingView<T>, values: Seq<T>)
    ensures
        ({
            let n = p.ring_published_all(r, values);
            &&& p.published_all(r, values).seq == p.seq + values.len()
            &&& n.next() == r.next() + values.len()
            &&& forall|i: int| 0 <= i < r.next() ==> #[trigger] n.history[i] == r.history[i]
            &&& forall|i: int|
                0 <= i < values.len() ==> n.history[r.next() + i] == Phase::Done(
                    #[trigger] values[i],
                )
            &&& n.cursor == (if values.len() == 0 {
                r.cursor
            } else {
                Some((r.next() + values.len() - 1) as nat)
            })
            &&& n.cells == r.cells
            &&& n.capacity == r.capacity
            &&& n.multi_producer == r.multi_producer
        }),
    decreases values.len(),
{
    if values.len() > 0 {
        let rest = values.drop_first();
        let mid = p.ring_published(r, values.first());
        lemma_looked(p, r);
        lemma_batch_appends(p.published(r), mid, rest);
        let n = p.ring_published_all(r, values);
        assert(mid.history == r.history.push(Phase::Done(values.first())));
        assert forall|i: int| 0 <= i < r.next() implies #[trigger] n.history[i] == r.history[i] by {
            assert(mid.history[i] == r.history[i]);
        }
        assert forall|i: int| 0 <= i < values.len() implies n.history[r.next() + i] == Phase::Done(
            #[trigger] values[i],
        ) by {
            if i == 0 {
                assert(n.history[r.next() as int] == mid.history[r.next() as int]);
            } else {
                assert(rest[i - 1] == values[i]);
                assert(n.history[mid.next() + (i - 1)] == Phase::Done(rest[i - 1]));
            }
        }
    }
}

} // verus!
