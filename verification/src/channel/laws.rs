//! What holds of a channel as a whole.

use crate::channel::publisher::lemma_settled_tips;
use crate::channel::subscriber::{lemma_moved_cell, Outcome, SubscriberView};
use crate::index::lemma_slot_lap;
use crate::ring::RingView;
use vstd::prelude::*;

verus! {

/// The first message that a reader at `seq` can still get: its own position, or
/// the oldest one in the ring if that is later.
pub open spec fn first_kept<T>(r: RingView<T>, seq: nat) -> nat {
    if seq + r.capacity < r.next() {
        (r.next() - r.capacity) as nat
    } else {
        seq
    }
}

/// What a reader at `seq` finds while no write is open: the message, as long as
/// fewer than a full ring of messages came after it; nothing, if it is not
/// published yet; otherwise the exact number of messages that are lost.
pub proof fn lemma_settled_outcome<T>(r: RingView<T>, seq: nat)
    requires
        r.wf(),
        r.settled(),
        seq <= r.next(),
    ensures
        seq == r.next() ==> r.outcome(seq) is Empty,
        seq < r.next() <= seq + r.capacity ==> r.outcome(seq) == Outcome::Got(r.log()[seq as int]),
        seq + r.capacity < r.next() ==> r.outcome(seq) == Outcome::<T>::Lagged(
            (r.next() - r.capacity - seq) as nat,
        ),
        r.arrival(seq) == (if seq < r.next() {
            Some(first_kept(r, seq))
        } else {
            None
        }),
{
    lemma_settled_tips(r, seq);
    if seq < r.next() {
        assert(r.done(seq));
    }
    if seq + r.capacity < r.next() {
        let kept = (r.next() - r.capacity) as nat;
        lemma_settled_tips(r, kept);
        assert(r.done(kept));
        assert(r.done(r.tip(seq)->0));
    }
}

/// Order and completeness: what a reader receives is a stretch of the published
/// messages, in the order in which they were published, without a gap, from the
/// first one that is still there.
pub proof fn lemma_settled_arrivals<T>(r: RingView<T>, seq: nat, limit: nat)
    requires
        r.wf(),
        r.settled(),
        seq <= r.next(),
    ensures
        ({
            let from = first_kept(r, seq) as int;
            let to = if from + limit < r.next() {
                from + limit
            } else {
                r.next() as int
            };
            r.arrivals(seq, limit) == r.log().subrange(from, to)
        }),
    decreases limit,
{
    lemma_settled_outcome(r, seq);
    let from = first_kept(r, seq);
    let to = if from + limit < r.next() {
        from + limit
    } else {
        r.next()
    };
    if limit > 0 && seq < r.next() {
        lemma_settled_arrivals(r, from + 1, (limit - 1) as nat);
        assert(r.arrivals(seq, limit) =~= r.log().subrange(from as int, to as int));
    } else {
        assert(r.arrivals(seq, limit) =~= r.log().subrange(from as int, to as int));
    }
}

/// Publishing appends to what is published, and leaves the ring at rest.
pub proof fn lemma_publish_appends<T>(r: RingView<T>, value: T)
    requires
        r.wf(),
        r.settled(),
    ensures
        r.publish(value).settled(),
        r.publish(value).log() == r.log().push(value),
{
    let n = r.publish(value);
    assert forall|k: nat| k < n.next() implies #[trigger] n.done(k) by {
        if k < r.next() {
            assert(r.done(k));
        }
    }
    assert(n.log() =~= r.log().push(value));
}

/// A read gives back what was written: a reader that has received everything
/// finds the next message that is published.
pub proof fn lemma_read_after_publish<T>(r: RingView<T>, value: T)
    requires
        r.wf(),
        r.settled(),
    ensures
        r.outcome(r.next()) is Empty,
        r.publish(value).outcome(r.next()) == Outcome::Got(value),
{
    lemma_settled_outcome(r, r.next());
    lemma_slot_lap(r.next(), r.capacity);
}

/// A message stays readable until a full ring of messages came after it.
pub proof fn lemma_message_kept<T>(r: RingView<T>, seq: nat)
    requires
        r.wf(),
        r.settled(),
        seq < r.next(),
    ensures
        r.readable(seq) <==> r.next() <= seq + r.capacity,
{
    lemma_settled_tips(r, seq);
    assert(r.done(seq));
}

/// Accounting: with each read the reader moves on by exactly what it received
/// and what it lost.
pub proof fn lemma_accounting<T>(s: SubscriberView, outcome: Outcome<T>)
    ensures
        s.after(outcome).cursor - s.cursor == (s.after(outcome).received - s.received) + (s.after(
            outcome,
        ).lagged - s.lagged),
{
}

/// Accounting over any number of receives: everything between the old and the
/// new position was received or is counted as lost.
pub proof fn lemma_accounting_all<T>(s: SubscriberView, r: RingView<T>, limit: nat)
    requires
        s.cursor <= r.next(),
    ensures
        ({
            let t = s.after_up_to(r, limit);
            &&& t.cursor - s.cursor == (t.received - s.received) + (t.lagged - s.lagged)
            &&& t.received - s.received == r.arrivals(s.cursor, limit).len()
        }),
    decreases limit,
{
    if limit > 0 {
        if let Some(seq) = r.arrival(s.cursor) {
            assert(r.done(seq));
            lemma_accounting_all(s.received_at(seq), r, (limit - 1) as nat);
        }
    }
}

/// A subscriber that drained a ring at rest has everything behind it: what it
/// received and what it lost add up to what was published since its start.
pub proof fn lemma_drained<T>(s: SubscriberView, r: RingView<T>)
    requires
        r.wf(),
        r.settled(),
        s.cursor <= r.next(),
    ensures
        ({
            let t = s.after_up_to(r, (r.next() - s.cursor) as nat);
            &&& t.cursor == r.next()
            &&& t.lagged - s.lagged == first_kept(r, s.cursor) - s.cursor
            &&& t.received - s.received == r.next() - first_kept(r, s.cursor)
        }),
{
    lemma_settled_outcome(r, s.cursor);
    if s.cursor < r.next() {
        let first = first_kept(r, s.cursor);
        lemma_drain_from(s.received_at(first), r, (r.next() - s.cursor - 1) as nat);
    }
}

/// Draining from a message that is still there receives all that follows.
proof fn lemma_drain_from<T>(s: SubscriberView, r: RingView<T>, limit: nat)
    requires
        r.wf(),
        r.settled(),
        r.next() <= s.cursor + r.capacity,
        s.cursor <= r.next() <= s.cursor + limit,
    ensures
        ({
            let t = s.after_up_to(r, limit);
            &&& t.cursor == r.next()
            &&& t.lagged == s.lagged
            &&& t.received - s.received == r.next() - s.cursor
        }),
    decreases limit,
{
    lemma_settled_outcome(r, s.cursor);
    if limit > 0 && s.cursor < r.next() {
        lemma_drain_from(s.received_at(s.cursor), r, (limit - 1) as nat);
    }
}

/// A new subscriber of a ring at rest is at the end of what is published: it
/// sees future messages only.
pub proof fn lemma_future_only<T>(r: RingView<T>)
    requires
        r.wf(),
        r.settled(),
    ensures
        r.future() == r.next(),
        r.outcome(r.future()) is Empty,
        r.pending(r.future()) == 0,
{
    lemma_settled_outcome(r, r.next());
}

/// A subscriber from the oldest message on finds everything that is still in
/// the ring, and has lost nothing.
pub proof fn lemma_from_oldest<T>(r: RingView<T>)
    requires
        r.wf(),
        r.settled(),
    ensures
        r.oldest() == first_kept(r, 0),
        r.oldest() < r.next() ==> r.outcome(r.oldest()) == Outcome::Got(
            r.log()[r.oldest() as int],
        ),
        r.pending(r.oldest()) == r.next() - r.oldest(),
{
    lemma_settled_outcome(r, r.oldest());
}

/// Messages that wait for a reader of a ring at rest, at most a full ring.
pub proof fn lemma_settled_pending<T>(r: RingView<T>, seq: nat)
    requires
        r.wf(),
        r.settled(),
        seq <= r.next(),
    ensures
        r.pending(seq) == (if r.next() - seq < r.capacity {
            r.next() - seq
        } else {
            r.capacity as int
        }),
{
}

/// Readers do not disturb each other: what one of them finds does not depend on
/// what another one has read.
pub proof fn lemma_readers_independent<T>(
    s: SubscriberView,
    r: RingView<T>,
    outcome: Outcome<T>,
    seq: nat,
)
    ensures
        s.ring_after(r, outcome).outcome(seq) == r.outcome(seq),
        s.ring_after(r, outcome).log() == r.log(),
        s.tracker is None ==> s.ring_after(r, outcome) == r,
{
    if let Some(cell) = s.tracker {
        lemma_moved_cell(r, cell, s.after(outcome).cursor as u64);
    }
    assert(s.ring_after(r, outcome).log() =~= r.log());
}

} // verus!
