//! What a read comes to, whatever producers are in the middle of.

use crate::barrier::{lemma_slowest_upstream, slowest_upstream};
use crate::channel::errors::TryRecvError;
use crate::channel::subscriber::{lemma_no_second_lag, reports, Outcome, SubscriberView};
use crate::ring::{Phase, RingView};
use crate::ring_laws::same_slots;
use vstd::prelude::*;

verus! {

/// A message is received exactly if its write is complete and no later write has begun in
/// its slot.
pub proof fn lemma_got_exactly<T>(r: RingView<T>, seq: nat, value: T)
    ensures
        r.outcome(seq) == Outcome::Got(value) <==> {
            &&& seq < r.history.len()
            &&& r.history[seq as int] == Phase::Done(value)
            &&& r.tips[(seq % r.capacity) as int] == Some(seq)
        },
{
}

/// A read reports a loss exactly if the slot holds a later message and what is announced
/// has left the position behind. The position that it skips to is a full ring behind the
/// newest announced message.
pub proof fn lemma_lagged_exactly<T>(r: RingView<T>, seq: nat, skipped: nat)
    ensures
        r.outcome(seq) == Outcome::<T>::Lagged(skipped) <==> {
            &&& r.tips[(seq % r.capacity) as int] matches Some(m) && seq < m && m
                < r.history.len() && r.history[m as int] is Done
            &&& r.cursor matches Some(head) && head >= r.capacity && seq + skipped + r.capacity
                == head + 1
            &&& skipped > 0
        },
{
}

/// A message that is not written yet is not there, and neither is one whose write is in
/// progress.
pub proof fn lemma_empty_until_written<T>(r: RingView<T>, seq: nat)
    ensures
        seq < r.history.len() && !(r.history[seq as int] is Done) && r.tips[(seq
            % r.capacity) as int] == Some(seq) ==> r.outcome(seq) is Empty,
        seq >= r.history.len() && (r.tips[(seq % r.capacity) as int] matches Some(m) ==> m <= seq)
            ==> r.outcome(seq) is Empty,
        r.tips[(seq % r.capacity) as int] is None ==> r.outcome(seq) is Empty,
{
}

/// What is reported is what the read came to.
pub proof fn lemma_reports<T>(r: Result<T, TryRecvError>, outcome: Outcome<T>)
    requires
        reports(r, outcome),
    ensures
        r matches Ok(value) ==> outcome == Outcome::Got(value),
        r == Err::<T, TryRecvError>(TryRecvError::Empty) <==> outcome is Empty,
        r matches Err(TryRecvError::Lagged { skipped }) ==> outcome == Outcome::<T>::Lagged(
            skipped as nat,
        ),
{
}

/// A reader that got a message moves on by one, one that found nothing stays, and one that
/// lost messages skips them. Each is counted as what it is.
pub proof fn lemma_after_read<T>(s: SubscriberView, value: T, skipped: nat)
    ensures
        ({
            let t = s.after(Outcome::Got(value));
            &&& t.cursor == s.cursor + 1
            &&& t.received == s.received + 1
            &&& t.lagged == s.lagged
            &&& t.tracker == s.tracker
        }),
        s.after(Outcome::<T>::Empty) == s,
        ({
            let t = s.after(Outcome::<T>::Lagged(skipped));
            &&& t.cursor == s.cursor + skipped
            &&& t.received == s.received
            &&& t.lagged == s.lagged + skipped
            &&& t.tracker == s.tracker
        }),
{
}

/// Receiving past a loss is the loss and then the receipt.
pub proof fn lemma_received_past_lag<T>(s: SubscriberView, value: T, skipped: nat)
    ensures
        s.received_at(s.cursor) == s.after(Outcome::Got(value)),
        s.received_at(s.cursor + skipped) == s.after(Outcome::<T>::Lagged(skipped)).after(
            Outcome::Got(value),
        ),
{
}

/// A subscriber that has just been made has neither received nor lost anything.
pub proof fn lemma_fresh_subscriber(start: nat, tracker: Option<int>)
    ensures
        ({
            let s = SubscriberView::fresh(start, tracker);
            s.cursor == start && s.tracker == tracker && s.received == 0 && s.lagged == 0
        }),
{
}

/// A read takes nothing out of the ring. All that it changes is the position that the
/// reader's own cell shows, which is where the reader is.
pub proof fn lemma_ring_after_read<T>(s: SubscriberView, r: RingView<T>, outcome: Outcome<T>)
    requires
        s.tracker matches Some(cell) ==> 0 <= cell < r.cells.len(),
        s.after(outcome).cursor <= u64::MAX,
    ensures
        ({
            let n = s.ring_after(r, outcome);
            &&& same_slots(n, r)
            &&& n.backpressure == r.backpressure
            &&& n.cells.len() == r.cells.len()
            &&& outcome is Empty || s.tracker is None ==> n == r
            &&& s.tracker is Some && !(outcome is Empty) ==> n.cells[s.tracker->0] == s.after(
                outcome,
            ).cursor
            &&& forall|i: int|
                0 <= i < r.cells.len() && s.tracker != Some(i) ==> #[trigger] n.cells[i]
                    == r.cells[i]
        }),
{
}

/// So does a reader that has come anywhere: its cell shows where it is, and stays as it
/// is if the reader does.
pub proof fn lemma_ring_moved<T>(s: SubscriberView, r: RingView<T>, after: SubscriberView)
    requires
        after.tracker == s.tracker,
        s.tracker matches Some(cell) ==> 0 <= cell < r.cells.len(),
        after.cursor <= u64::MAX,
    ensures
        same_slots(s.ring_moved(r, after), r),
        s.ring_moved(r, after).backpressure == r.backpressure,
        s.ring_moved(r, after).cells.len() == r.cells.len(),
        after == s || s.tracker is None ==> s.ring_moved(r, after) == r,
        after != s ==> s.ring_moved(r, after) == after.shown(r),
        s.tracker is Some && after != s ==> s.ring_moved(r, after).cells[s.tracker->0]
            == after.cursor,
        forall|i: int|
            0 <= i < r.cells.len() && s.tracker != Some(i) ==> #[trigger] s.ring_moved(
                r,
                after,
            ).cells[i] == r.cells[i],
{
}

/// A batch is what single receives would have brought: the message at the position and
/// then the rest, nothing where there is nothing, and after a loss the same as from
/// behind it.
pub proof fn lemma_batch_is_single_receives<T>(r: RingView<T>, seq: nat, limit: nat)
    ensures
        r.arrivals(seq, 0).len() == 0,
        r.outcome(seq) is Empty ==> r.arrivals(seq, limit).len() == 0,
        r.outcome(seq) matches Outcome::Got(value) ==> r.arrivals(seq, limit + 1) == seq![value]
            + r.arrivals(seq + 1, limit),
        r.outcome(seq) matches Outcome::Lagged(skipped) ==> r.arrivals(seq, limit) == r.arrivals(
            seq + skipped,
            limit,
        ),
{
    if r.outcome(seq) is Lagged {
        lemma_no_second_lag(r, seq);
    }
}

/// And so is where a batch leaves its reader.
pub proof fn lemma_batch_leaves_reader<T>(s: SubscriberView, r: RingView<T>, limit: nat)
    ensures
        s.after_up_to(r, 0) == s,
        r.outcome(s.cursor) is Empty ==> s.after_up_to(r, limit) == s,
        r.outcome(s.cursor) is Got ==> s.after_up_to(r, limit + 1) == s.after(
            r.outcome(s.cursor),
        ).after_up_to(r, limit),
        r.outcome(s.cursor) is Lagged ==> s.after_up_to(r, limit + 1) == s.after(
            r.outcome(s.cursor),
        ).after_up_to(r, limit + 1),
{
    if r.outcome(s.cursor) is Lagged {
        lemma_no_second_lag(r, s.cursor);
        let k = r.outcome(s.cursor)->Lagged_0;
        let t = s.after(r.outcome(s.cursor));
        assert(t.cursor == s.cursor + k);
        assert(s.received_at(s.cursor + k) == t.received_at(t.cursor));
    }
}

/// A message is there to be received exactly if it is at the position, or if it is the
/// first one behind a loss.
pub proof fn lemma_arrival<T>(r: RingView<T>, seq: nat)
    ensures
        r.outcome(seq) is Empty ==> r.arrival(seq) is None,
        r.outcome(seq) is Got ==> r.arrival(seq) == Some(seq),
        r.outcome(seq) matches Outcome::Lagged(skipped) ==> r.arrival(seq) == r.arrival(
            seq + skipped,
        ) && (r.arrival(seq) matches Some(at) ==> at == seq + skipped),
        r.arrival(seq) matches Some(at) ==> r.outcome(at) is Got,
{
    if r.outcome(seq) is Lagged {
        lemma_no_second_lag(r, seq);
    }
}

/// What waits is what is announced from the position on, and never more than a full ring.
pub proof fn lemma_pending<T>(r: RingView<T>, seq: nat)
    ensures
        r.cursor is None ==> r.pending(seq) == 0,
        r.cursor matches Some(head) ==> {
            &&& head < seq ==> r.pending(seq) == 0
            &&& seq <= head < seq + r.capacity ==> r.pending(seq) == head + 1 - seq
            &&& seq + r.capacity <= head ==> r.pending(seq) == r.capacity
        },
{
}

/// The oldest sequence that a ring keeps is a full ring behind the newest announced one.
pub proof fn lemma_oldest<T>(r: RingView<T>)
    ensures
        r.cursor is None ==> r.oldest() == 0,
        r.cursor matches Some(head) ==> {
            &&& head < r.capacity ==> r.oldest() == 0
            &&& head >= r.capacity ==> r.oldest() + r.capacity == head + 1
        },
{
}

/// Behind a barrier nothing is there while one upstream has not passed the position, and
/// otherwise whatever would be there without it.
pub proof fn lemma_gated_exactly<T>(r: RingView<T>, seq: nat, upstreams: Seq<int>)
    requires
        seq < u64::MAX,
    ensures
        (exists|i: int| 0 <= i < upstreams.len() && r.cells[#[trigger] upstreams[i]] <= seq)
            ==> r.gated_outcome(seq, upstreams) is Empty,
        (forall|i: int| 0 <= i < upstreams.len() ==> r.cells[#[trigger] upstreams[i]] > seq)
            ==> r.gated_outcome(seq, upstreams) == r.outcome(seq),
{
    lemma_slowest_upstream(upstreams, r.cells);
    if exists|i: int| 0 <= i < upstreams.len() && r.cells[#[trigger] upstreams[i]] <= seq {
        let i = choose|i: int|
            0 <= i < upstreams.len() && r.cells[#[trigger] upstreams[i]] <= seq;
        assert(slowest_upstream(upstreams, r.cells) <= r.cells[upstreams[i]]);
    }
}

} // verus!
