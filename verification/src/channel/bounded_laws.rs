//! What a bounded channel promises its subscribers.

use crate::backpressure::{
    lemma_filter_gates, lemma_slowest, lemma_slowest_of_live, live_gates, slowest,
};
use crate::barrier::{lemma_slowest_upstream, slowest_upstream};
use crate::channel::laws::{lemma_message_kept, lemma_publish_appends};
use crate::channel::publisher::{lemma_publish_wf, PublisherView};
use crate::channel::subscriber::{Outcome, SubscriberView};
use crate::ring::RingView;
use crate::slot::SEQ_LIMIT;
use crate::steps::lemma_same_history;
use vstd::prelude::*;

verus! {

impl<T> RingView<T> {
    /// The publisher has to wait for the subscriber on `cell`.
    pub open spec fn gated_by(self, cell: int) -> bool {
        self.backpressure matches Some(bp) && exists|i: int|
            0 <= i < bp.gates.len() && (#[trigger] bp.gates[i]).live && bp.gates[i].cell == cell
    }
}

impl PublisherView {
    /// The publisher's cached position is not ahead of any subscriber that it
    /// has to wait for.
    pub open spec fn behind_gates<T>(self, ring: RingView<T>) -> bool {
        &&& self.seq == ring.next()
        &&& self.cached_slowest <= self.seq
        &&& forall|cell: int| #[trigger]
            ring.gated_by(cell) ==> self.cached_slowest <= ring.cells[cell]
    }
}

impl SubscriberView {
    /// The publisher has to wait for this subscriber, and the subscriber is not
    /// behind the position that it shows.
    pub open spec fn gates<T>(self, ring: RingView<T>) -> bool {
        &&& self.tracker matches Some(cell) && 0 <= cell < ring.cells.len() && ring.gated_by(cell)
            && ring.cells[cell] <= self.cursor
        &&& self.cursor <= ring.next()
    }
}

/// Dropping dead gates keeps the live ones.
pub(crate) proof fn lemma_prune_gates<T>(r: RingView<T>)
    ensures
        forall|cell: int| r.prune().gated_by(cell) <==> #[trigger] r.gated_by(cell),
{
    if let Some(bp) = r.backpressure {
        let live = live_gates(bp.gates);
        lemma_filter_gates(bp.gates);
        assert forall|cell: int| r.prune().gated_by(cell) <==> #[trigger] r.gated_by(cell) by {
            if r.gated_by(cell) {
                let i = choose|i: int|
                    0 <= i < bp.gates.len() && (#[trigger] bp.gates[i]).live && bp.gates[i].cell
                        == cell;
                assert(bp.gates.contains(bp.gates[i]));
                assert(live.contains(bp.gates[i]));
                let j = choose|j: int| 0 <= j < live.len() && live[j] == bp.gates[i];
                assert(r.prune().backpressure->0.gates[j].live);
            }
            if r.prune().gated_by(cell) {
                let j = choose|j: int|
                    0 <= j < live.len() && (#[trigger] live[j]).live && live[j].cell == cell;
                assert(live.contains(live[j]));
                let i = choose|i: int| 0 <= i < bp.gates.len() && bp.gates[i] == live[j];
                assert(bp.gates[i].live);
            }
        }
    }
}

/// Where the publisher sees room, no subscriber that it has to wait for is a
/// full window behind.
pub proof fn lemma_room_is_real<T>(p: PublisherView, r: RingView<T>, cell: int)
    requires
        p.behind_gates(r),
        p.has_room(r),
        r.gated_by(cell),
    ensures
        p.seq < r.cells[cell] + r.window(),
{
    let bp = r.backpressure->0;
    lemma_slowest(bp.gates, r.cells);
    let i = choose|i: int|
        0 <= i < bp.gates.len() && (#[trigger] bp.gates[i]).live && bp.gates[i].cell == cell;
    assert(bp.gates[i].live);
}

/// Where the publisher sees no room, some subscriber that it has to wait for is
/// a full window behind.
pub proof fn lemma_full_is_real<T>(p: PublisherView, r: RingView<T>)
    requires
        !p.has_room(r),
    ensures
        exists|cell: int| #[trigger] r.gated_by(cell) && p.seq >= r.cells[cell] + r.window(),
{
    let bp = r.backpressure->0;
    lemma_slowest(bp.gates, r.cells);
    let i = choose|i: int|
        0 <= i < bp.gates.len() && (#[trigger] bp.gates[i]).live && r.cells[bp.gates[i].cell]
            == slowest(bp.gates, r.cells)->0;
    assert(r.gated_by(bp.gates[i].cell));
}

/// A publication is refused exactly if some subscriber that the publisher has to wait
/// for has as many messages unread as the ring has slots, less the headroom.
pub proof fn lemma_full_exactly<T>(p: PublisherView, r: RingView<T>)
    requires
        p.behind_gates(r),
        r.backpressure is Some,
    ensures
        !p.has_room(r) <==> exists|cell: int| #[trigger]
            r.gated_by(cell) && r.next() - r.cells[cell] >= r.capacity
                - r.backpressure->0.watermark,
{
    if !p.has_room(r) {
        lemma_full_is_real(p, r);
    } else {
        assert forall|cell: int| #[trigger] r.gated_by(cell) implies r.next() - r.cells[cell]
            < r.capacity - r.backpressure->0.watermark by {
            lemma_room_is_real(p, r, cell);
        }
    }
}

/// A bounded ring whose subscribers do not read accepts as many messages as it has
/// slots, less the headroom, and no more: what counts is the slowest subscriber that
/// the publisher waits for.
pub proof fn lemma_accepts_up_to_headroom<T>(p: PublisherView, r: RingView<T>, cell: int)
    requires
        p.behind_gates(r),
        r.gated_by(cell),
        forall|c: int| #[trigger] r.gated_by(c) ==> r.cells[cell] <= r.cells[c],
    ensures
        p.has_room(r) <==> r.next() - r.cells[cell] < r.capacity - r.backpressure->0.watermark,
{
    lemma_full_exactly(p, r);
}

/// After a publication the publisher's cached position is still behind all gates, and the
/// gates are where they were.
proof fn lemma_published_behind_gates<T>(p: PublisherView, r: RingView<T>, value: T)
    requires
        p.behind_gates(r),
        p.has_room(r),
        forall|cell: int| #[trigger] r.gated_by(cell) ==> r.cells[cell] <= r.next(),
    ensures
        ({
            let n = p.ring_published(r, value);
            &&& p.published(r).behind_gates(n)
            &&& n.cells == r.cells
            &&& n.capacity == r.capacity
            &&& n.next() == r.next() + 1
            &&& n.backpressure is Some <==> r.backpressure is Some
            &&& r.backpressure is Some ==> n.backpressure->0.watermark
                == r.backpressure->0.watermark
            &&& forall|cell: int| #[trigger] n.gated_by(cell) <==> r.gated_by(cell)
        }),
{
    let looked = p.ring_looked(r);
    let n = p.ring_published(r, value);
    lemma_prune_gates(r);
    lemma_same_gates(looked, n);
    assert forall|cell: int| #[trigger] n.gated_by(cell) <==> r.gated_by(cell) by {
        assert(looked.gated_by(cell) <==> r.gated_by(cell));
    }
    if r.backpressure is Some {
        let bp = r.backpressure->0;
        lemma_slowest(bp.gates, r.cells);
        if r.slowest() is Some {
            let w = choose|i: int|
                0 <= i < bp.gates.len() && (#[trigger] bp.gates[i]).live && r.cells[bp.gates[i].cell]
                    == slowest(bp.gates, r.cells)->0;
            assert(r.gated_by(bp.gates[w].cell));
        }
        assert forall|c: int| #[trigger] n.gated_by(c) implies p.published(r).cached_slowest
            <= n.cells[c] by {
            assert(r.gated_by(c));
            let i = choose|i: int|
                0 <= i < bp.gates.len() && (#[trigger] bp.gates[i]).live && bp.gates[i].cell == c;
            assert(bp.gates[i].live);
        }
    }
}

/// A bounded ring has room for a batch exactly if it has room for all of its messages at
/// once: no subscriber that the publisher waits for would have more unread than the ring
/// has slots, less the headroom. A lossy ring has room for any batch.
pub proof fn lemma_room_for_batch<T>(p: PublisherView, r: RingView<T>, values: Seq<T>)
    requires
        p.behind_gates(r),
        forall|cell: int| #[trigger] r.gated_by(cell) ==> r.cells[cell] <= r.next(),
        values.len() > 0,
    ensures
        r.backpressure is None ==> p.has_room_for(r, values),
        r.backpressure is Some ==> (p.has_room_for(r, values) <==> forall|cell: int| #[trigger]
            r.gated_by(cell) ==> r.next() + values.len() - r.cells[cell] <= r.capacity
                - r.backpressure->0.watermark),
    decreases values.len(),
{
    let rest = values.drop_first();
    let n = p.ring_published(r, values.first());
    if r.backpressure is Some {
        lemma_full_exactly(p, r);
    }
    if p.has_room(r) {
        lemma_published_behind_gates(p, r, values.first());
        if rest.len() > 0 {
            lemma_room_for_batch(p.published(r), n, rest);
            if r.backpressure is Some {
                assert(p.has_room_for(r, values) <==> p.published(r).has_room_for(n, rest));
                if p.has_room_for(r, values) {
                    assert forall|cell: int| #[trigger] r.gated_by(cell) implies r.next()
                        + values.len() - r.cells[cell] <= r.capacity
                        - r.backpressure->0.watermark by {
                        assert(n.gated_by(cell));
                    }
                }
                if forall|cell: int| #[trigger]
                    r.gated_by(cell) ==> r.next() + values.len() - r.cells[cell] <= r.capacity
                        - r.backpressure->0.watermark {
                    assert forall|cell: int| #[trigger] n.gated_by(cell) implies n.next()
                        + rest.len() - n.cells[cell] <= n.capacity
                        - n.backpressure->0.watermark by {
                        assert(r.gated_by(cell));
                    }
                }
            }
        } else {
            assert(p.published(r).has_room_for(n, rest));
        }
    }
}

/// No message is lost: what a subscriber that gates the publisher has not read
/// yet is still in the ring after the next publication. The promise carries
/// over to the publication after that.
pub proof fn lemma_bounded_no_loss<T>(p: PublisherView, r: RingView<T>, s: SubscriberView, value: T)
    requires
        r.wf(),
        r.settled(),
        r.next() + 1 < SEQ_LIMIT,
        p.behind_gates(r),
        p.has_room(r),
        s.gates(r),
    ensures
        p.ring_published(r, value).wf(),
        forall|n: nat|
            s.cursor <= n < p.ring_published(r, value).next() ==> #[trigger] p.ring_published(
                r,
                value,
            ).readable(n),
        p.ring_published(r, value).outcome(s.cursor) is Got,
        p.published(r).behind_gates(p.ring_published(r, value)),
        s.gates(p.ring_published(r, value)),
{
    let cell = s.tracker->0;
    let looked = p.ring_looked(r);
    let n = p.ring_published(r, value);
    lemma_room_is_real(p, r, cell);
    lemma_prune_gates(r);
    lemma_looked_keeps(p, r);
    lemma_publish_appends(looked, value);
    lemma_publish_wf(looked, value);
    assert forall|k: nat| s.cursor <= k < n.next() implies #[trigger] n.readable(k) by {
        lemma_message_kept(n, k);
    }
    assert(n.readable(s.cursor));
    let bp = r.backpressure->0;
    lemma_slowest(bp.gates, r.cells);
    assert forall|c: int| #[trigger] n.gated_by(c) implies p.published(r).cached_slowest
        <= n.cells[c] by {
        assert(looked.gated_by(c) <==> n.gated_by(c)) by {
            lemma_same_gates(looked, n);
        }
        assert(r.gated_by(c));
        let i = choose|i: int|
            0 <= i < bp.gates.len() && (#[trigger] bp.gates[i]).live && bp.gates[i].cell == c;
        assert(bp.gates[i].live);
    }
    lemma_same_gates(looked, n);
    assert(p.published(r).cached_slowest <= p.seq) by {
        if p.must_scan(r) {
            if let Some(m) = r.slowest() {
                assert(m <= r.cells[cell]) by {
                    let i = choose|i: int|
                        0 <= i < bp.gates.len() && (#[trigger] bp.gates[i]).live
                            && bp.gates[i].cell == cell;
                    assert(bp.gates[i].live);
                }
            }
        }
    }
}

proof fn lemma_same_gates<T>(a: RingView<T>, b: RingView<T>)
    requires
        a.backpressure == b.backpressure,
    ensures
        forall|cell: int| #[trigger] a.gated_by(cell) <==> b.gated_by(cell),
{
}

/// Looking for room changes nothing but the list of gates.
pub(crate) proof fn lemma_looked_keeps<T>(p: PublisherView, r: RingView<T>)
    requires
        r.wf(),
        r.settled(),
    ensures
        p.ring_looked(r).wf(),
        p.ring_looked(r).settled(),
        p.ring_looked(r).history == r.history,
        p.ring_looked(r).cells == r.cells,
{
    assert forall|n: nat| n < p.ring_looked(r).next() implies #[trigger] p.ring_looked(r).done(
        n,
    ) by {
        assert(r.done(n));
    }
    if let Some(bp) = r.backpressure {
        lemma_slowest_of_live(bp.gates, r.cells);
    }
    lemma_same_history(r, r.prune());
}

/// A subscriber that gates the publisher still does after a read, and the
/// publisher's cached position stays behind all gates.
pub proof fn lemma_read_keeps_gates<T>(p: PublisherView, r: RingView<T>, s: SubscriberView)
    requires
        r.wf(),
        r.settled(),
        p.behind_gates(r),
        s.gates(r),
    ensures
        ({
            let outcome = r.outcome(s.cursor);
            &&& p.behind_gates(s.ring_after(r, outcome))
            &&& s.after(outcome).gates(s.ring_after(r, outcome))
        }),
{
    let outcome = r.outcome(s.cursor);
    let n = s.ring_after(r, outcome);
    lemma_same_gates(r, n);
    if let Outcome::Lagged(_) = outcome {
        assert(r.done(r.tip(s.cursor)->0));
    }
    let cell = s.tracker->0;
    assert forall|c: int| #[trigger] n.gated_by(c) implies p.cached_slowest <= n.cells[c] by {
        assert(r.gated_by(c));
        assert(r.gated_by(cell));
        if c == cell {
            assert(n.cells[c] >= r.cells[c]);
        } else if 0 <= c < r.cells.len() {
            assert(n.cells[c] == r.cells[c]);
        } else {
            let bp = r.backpressure->0;
            let i = choose|i: int|
                0 <= i < bp.gates.len() && (#[trigger] bp.gates[i]).live && bp.gates[i].cell == c;
            assert(0 <= bp.gates[i].cell < r.cells.len());
        }
    }
}

/// A subscriber of future messages gates the publisher from the moment on that
/// it is made, wherever the publisher's cached position is.
pub proof fn lemma_subscribe_gates<T>(p: PublisherView, r: RingView<T>)
    requires
        r.wf(),
        r.settled(),
        r.backpressure is Some,
        p.behind_gates(r),
    ensures
        ({
            let n = r.registered(r.future());
            let s = SubscriberView::fresh(r.future(), Some(r.cells.len() as int));
            &&& p.behind_gates(n)
            &&& s.gates(n)
        }),
{
    let n = r.registered(r.future());
    let bp = r.backpressure->0;
    let gates = n.backpressure->0.gates;
    assert forall|c: int| #[trigger] n.gated_by(c) implies p.cached_slowest <= n.cells[c] by {
        let i = choose|i: int|
            0 <= i < gates.len() && (#[trigger] gates[i]).live && gates[i].cell == c;
        if i < bp.gates.len() {
            assert(bp.gates[i] == gates[i]);
            assert(r.gated_by(c));
            assert(0 <= bp.gates[i].cell < r.cells.len());
            assert(n.cells[c] == r.cells[c]);
        }
    }
    assert(gates[bp.gates.len() as int].live);
    assert(n.gated_by(r.cells.len() as int));
}

/// A channel that was just made keeps the promise from the start.
pub proof fn lemma_fresh_behind_gates<T>(capacity: nat, watermark: nat)
    ensures
        (PublisherView { seq: 0, cached_slowest: 0 }).behind_gates(
            crate::ring::fresh_ring::<T>(
                capacity,
                Some(
                    crate::backpressure::BackpressureView {
                        watermark,
                        gates: Seq::empty(),
                    },
                ),
                false,
            ),
        ),
{
}

/// A subscriber that is gone holds no publisher back, and the others still do.
pub proof fn lemma_release<T>(r: RingView<T>, cell: int, other: int)
    ensures
        !r.release(cell).gated_by(cell),
        other != cell ==> (r.release(cell).gated_by(other) <==> r.gated_by(other)),
{
    if let Some(bp) = r.backpressure {
        let gates = r.release(cell).backpressure->0.gates;
        if r.gated_by(other) && other != cell {
            let i = choose|i: int|
                0 <= i < bp.gates.len() && (#[trigger] bp.gates[i]).live && bp.gates[i].cell
                    == other;
            assert(gates[i].live && gates[i].cell == other);
        }
        if r.release(cell).gated_by(other) {
            let i = choose|i: int|
                0 <= i < gates.len() && (#[trigger] gates[i]).live && gates[i].cell == other;
            assert(bp.gates[i].live && bp.gates[i].cell == other);
        }
    }
}

/// Without a subscriber to wait for, there is always room.
pub proof fn lemma_no_gate_no_wait<T>(p: PublisherView, r: RingView<T>)
    requires
        forall|cell: int| !(#[trigger] r.gated_by(cell)),
    ensures
        p.has_room(r),
{
    if !p.has_room(r) {
        lemma_full_is_real(p, r);
    }
}

/// A lossy ring has no subscriber to wait for.
pub proof fn lemma_lossy_ring_always_has_room<T>(p: PublisherView, r: RingView<T>)
    requires
        r.backpressure is None,
    ensures
        p.has_room(r),
{
}

/// A barrier lets no message through before every upstream is past it.
pub proof fn lemma_barrier_holds<T>(r: RingView<T>, seq: nat, upstreams: Seq<int>, i: int)
    requires
        r.gated_outcome(seq, upstreams) !is Empty,
        0 <= i < upstreams.len(),
    ensures
        seq < r.cells[upstreams[i]],
{
    lemma_slowest_upstream(upstreams, r.cells);
    assert(slowest_upstream(upstreams, r.cells) <= r.cells[upstreams[i]]);
}

/// A barrier holds back only what some upstream has not passed.
pub proof fn lemma_barrier_opens<T>(r: RingView<T>, seq: nat, upstreams: Seq<int>)
    requires
        upstreams.len() > 0,
        forall|i: int| 0 <= i < upstreams.len() ==> seq < r.cells[#[trigger] upstreams[i]],
    ensures
        r.gated_outcome(seq, upstreams) == r.outcome(seq),
{
    lemma_slowest_upstream(upstreams, r.cells);
}

} // verus!
