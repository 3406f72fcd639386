//! The loop of a consumer that hands every message to a handler.

use crate::channel::errors::TryRecvError;
use crate::channel::laws::{first_kept, lemma_settled_outcome};
use crate::channel::subscriber::{lemma_shown_twice, Outcome, Subscriber, SubscriberView};
use crate::pod::Pod;
use crate::ring::{RingView, SharedRing};
use crate::topology::pipeline::StageStatus;
use crate::wait::{WaitAction, WaitStrategy};
use vstd::prelude::*;

verus! {

/// What a consumer does with messages that wait when it is asked to stop.
#[derive(Debug, Clone, Copy, PartialEq, Eq, Structural)]
pub enum DrainPolicy {
    /// Process everything published so far before it stops.
    Drain,
    /// Stop at once.
    Immediate,
}

/// What a consumer and its owner share: whether the consumer has to stop, and how
/// it is doing.
pub struct Consumer {
    shutdown: bool,
    status: StageStatus,
}

/// A consumer as contracts see it.
pub struct ConsumerView {
    pub shutdown: bool,
    pub status: StageStatus,
}

impl View for Consumer {
    type V = ConsumerView;

    closed spec fn view(&self) -> ConsumerView {
        ConsumerView { shutdown: self.shutdown, status: self.status }
    }
}

impl Consumer {
    /// A consumer that is running.
    pub fn new() -> (consumer: Self)
        ensures
            consumer@ == (ConsumerView { shutdown: false, status: StageStatus::Running }),
    {
        Consumer { shutdown: false, status: StageStatus::Running }
    }

    /// Ask the consumer to stop.
    pub fn shutdown(&mut self)
        ensures
            final(self)@ == (ConsumerView { shutdown: true, ..old(self)@ }),
    {
        self.shutdown = true;
    }

    /// What the consumer does next.
    pub fn turn(&self, drain: DrainPolicy) -> (turn: Turn)
        ensures
            turn == next_turn(self@.shutdown, drain),
            turn is Process <==> !self@.shutdown,
            turn is ProcessAndStop <==> self@.shutdown && drain is Drain,
            turn is Stop <==> self@.shutdown && drain is Immediate,
    {
        consumer_turn(self.shutdown, drain)
    }

    /// The consumer has ended.
    pub fn end(&mut self, panicked: bool)
        ensures
            final(self)@ == (ConsumerView {
                status: if panicked {
                    StageStatus::Panicked
                } else {
                    StageStatus::Completed
                },
                ..old(self)@
            }),
    {
        self.status = if panicked {
            StageStatus::Panicked
        } else {
            StageStatus::Completed
        };
    }

    /// Whether the handler panicked.
    pub fn panicked(&self) -> (panicked: bool)
        ensures
            panicked == (self@.status is Panicked),
    {
        self.status == StageStatus::Panicked
    }

    /// Whether the consumer is running.
    pub fn is_healthy(&self) -> (healthy: bool)
        ensures
            healthy == (self@.status is Running),
    {
        self.status == StageStatus::Running
    }
}

/// What a consumer does in one turn of its loop.
#[derive(Debug, Clone, Copy, PartialEq, Eq, Structural)]
pub enum Turn {
    /// Process a batch and go on.
    Process,
    /// Process a last batch and stop.
    ProcessAndStop,
    /// Stop.
    Stop,
}

/// What a consumer does next: it goes on until it is asked to stop, and then
/// drains the ring first if its policy says so.
pub open spec fn next_turn(shutdown: bool, drain: DrainPolicy) -> Turn {
    if !shutdown {
        Turn::Process
    } else if drain is Drain {
        Turn::ProcessAndStop
    } else {
        Turn::Stop
    }
}

/// What a consumer does next.
fn consumer_turn(shutdown: bool, drain: DrainPolicy) -> (turn: Turn)
    ensures
        turn == next_turn(shutdown, drain),
{
    if !shutdown {
        return Turn::Process;
    }
    match drain {
        DrainPolicy::Drain => Turn::ProcessAndStop,
        DrainPolicy::Immediate => Turn::Stop,
    }
}

/// How a consumer waits after a batch of `done` messages, when `idle` empty
/// batches came before it, and how many empty batches that makes.
pub fn after_batch(strategy: WaitStrategy, done: u64, idle: u32) -> (r: (WaitAction, u32))
    ensures
        done > 0 ==> r == (WaitAction::Nothing, 0u32),
        done == 0 ==> r.0 == strategy.action(idle as nat) && r.1 == (if idle < u32::MAX {
            idle + 1
        } else {
            idle as int
        }),
{
    if done == 0 {
        (strategy.plan(idle), idle.saturating_add(1))
    } else {
        (WaitAction::Nothing, 0)
    }
}

/// A message with what a handler is told of it.
#[derive(Debug, Clone, Copy, PartialEq, Eq)]
pub struct BatchItem<T> {
    pub value: T,
    pub seq: u64,
    /// The last message of its batch.
    pub end_of_batch: bool,
}

/// A batch: the messages that were waiting when it was started.
pub struct Batch {
    end: u64,
}

/// A batch as contracts see it.
#[verifier::ext_equal]
pub struct BatchView {
    /// The sequence behind the last message of the batch.
    pub end: nat,
}

impl View for Batch {
    type V = BatchView;

    closed spec fn view(&self) -> BatchView {
        BatchView { end: self.end as nat }
    }
}

/// What the next message of a batch comes to.
#[verifier::ext_equal]
pub struct BatchStep<T> {
    pub item: Option<(T, nat, bool)>,
    pub sub: SubscriberView,
    pub batch: BatchView,
}

impl BatchView {
    /// The next message of the batch: value, sequence, and whether it is the last
    /// one. What was overwritten is skipped; where there is nothing to read, the
    /// batch ends.
    pub open spec fn next<T>(self, ring: RingView<T>, sub: SubscriberView) -> BatchStep<T>
        decreases self.room(sub),
    {
        if sub.cursor >= self.end {
            BatchStep { item: None, sub, batch: self }
        } else {
            let outcome = ring.outcome(sub.cursor);
            match outcome {
                Outcome::Got(value) => BatchStep {
                    item: Some((value, sub.cursor, sub.cursor + 1 == self.end)),
                    sub: sub.after(outcome),
                    batch: self,
                },
                Outcome::Lagged(_) => self.next(ring, sub.after(outcome)),
                Outcome::Empty => BatchStep { item: None, sub, batch: BatchView { end: sub.cursor } },
            }
        }
    }

    /// How many messages there can be between the subscriber and the end.
    pub open spec fn room(self, sub: SubscriberView) -> nat {
        if sub.cursor < self.end {
            (self.end - sub.cursor) as nat
        } else {
            0
        }
    }
}

impl Batch {
    /// A batch of the messages that are announced now.
    pub fn start<T: Pod>(ring: &SharedRing<T>) -> (batch: Batch)
        requires
            ring.wf(),
        ensures
            batch@ == (BatchView { end: ring@.future() }),
    {
        match ring.head() {
            None => Batch { end: 0 },
            Some(head) => {
                assert(ring@.done(head as nat));
                Batch { end: head + 1 }
            },
        }
    }

    /// Receive the next message of the batch. `None` at its end.
    pub fn next<T: Pod>(&mut self, sub: &mut Subscriber<T>, ring: &mut SharedRing<T>) -> (item:
        Option<BatchItem<T>>)
        requires
            old(ring).wf(),
            old(sub)@.bound(old(ring)@),
        ensures
            final(ring).wf(),
            final(sub)@.bound(final(ring)@),
            ({
                let step = old(self)@.next(old(ring)@, old(sub)@);
                &&& final(self)@ == step.batch
                &&& final(sub)@ == step.sub
                &&& final(ring)@ == old(sub)@.ring_moved(old(ring)@, final(sub)@)
                &&& match step.item {
                    Some((value, seq, end)) => item matches Some(got) && got.value == value
                        && got.seq == seq && got.end_of_batch == end,
                    None => item is None,
                }
            }),
    {
        let ghost view = ring@;
        let ghost start = sub@;
        let ghost first = self@;
        while sub.cursor() < self.end
            invariant
                ring.wf(),
                sub@.bound(ring@),
                view == old(ring)@,
                start == old(sub)@,
                first == old(self)@,
                self@ == first,
                start.bound(view),
                sub@.tracker == start.tracker,
                sub@ == start || sub@.cursor > start.cursor,
                ring@ == start.ring_moved(view, sub@),
                self@.next(view, sub@) == first.next(view, start),
            decreases self@.room(sub@),
        {
            let ghost now = sub@;
            let seq: u64 = sub.cursor();
            proof {
                lemma_shown_twice(view, now, now.after(view.outcome(now.cursor)));
                assert(ring@.outcome(now.cursor) == view.outcome(now.cursor));
            }
            match sub.try_recv(ring) {
                Ok(value) => {
                    return Some(BatchItem { value, seq, end_of_batch: sub.cursor() == self.end });
                },
                Err(TryRecvError::Lagged { .. }) => {},
                Err(TryRecvError::Empty) => {
                    self.end = seq;
                    return None;
                },
            }
        }
        None
    }
}

impl BatchView {
    /// The messages of the batch that are still to come, at most `limit` of
    /// them: value, sequence, and whether it is the last one.
    pub open spec fn items<T>(self, ring: RingView<T>, sub: SubscriberView, limit: nat) -> Seq<
        (T, nat, bool),
    >
        decreases limit,
    {
        if limit == 0 {
            Seq::empty()
        } else {
            let step = self.next(ring, sub);
            match step.item {
                None => Seq::empty(),
                Some(item) => seq![item] + step.batch.items(ring, step.sub, (limit - 1) as nat),
            }
        }
    }

    /// The subscriber at the end of the batch, which brings at most `limit`
    /// messages.
    pub open spec fn sub_at_end<T>(
        self,
        ring: RingView<T>,
        sub: SubscriberView,
        limit: nat,
    ) -> SubscriberView
        decreases limit,
    {
        let step = self.next(ring, sub);
        if step.item is None || limit == 0 {
            step.sub
        } else {
            step.batch.sub_at_end(ring, step.sub, (limit - 1) as nat)
        }
    }
}

/// A batch moves its subscriber forward, and changes nothing else of it but the
/// counters. With a message the end stays where it is.
proof fn lemma_next_moves<T>(batch: BatchView, ring: RingView<T>, sub: SubscriberView)
    ensures
        ({
            let step = batch.next(ring, sub);
            &&& step.sub.tracker == sub.tracker
            &&& step.sub == sub || step.sub.cursor > sub.cursor
            &&& step.item is Some ==> step.batch == batch && sub.cursor < step.sub.cursor
                <= batch.end
            &&& step.item is None ==> step.batch.room(step.sub) == 0
        }),
    decreases batch.room(sub),
{
    if sub.cursor < batch.end {
        let outcome = ring.outcome(sub.cursor);
        if outcome is Lagged {
            lemma_next_moves(batch, ring, sub.after(outcome));
        }
    }
}

/// What a batch brings depends only on what reads come to.
proof fn lemma_next_same<T>(batch: BatchView, a: RingView<T>, b: RingView<T>, sub: SubscriberView)
    requires
        forall|n: nat| a.outcome(n) == #[trigger] b.outcome(n),
    ensures
        batch.next(a, sub) == batch.next(b, sub),
    decreases batch.room(sub),
{
    if sub.cursor < batch.end {
        let outcome = b.outcome(sub.cursor);
        assert(a.outcome(sub.cursor) == outcome);
        if outcome is Lagged {
            lemma_next_same(batch, a, b, sub.after(outcome));
        }
    }
}

/// The next message of a batch of a ring at rest: the first one that is still
/// there.
proof fn lemma_settled_next<T>(ring: RingView<T>, sub: SubscriberView)
    requires
        ring.wf(),
        ring.settled(),
        sub.cursor < ring.next(),
    ensures
        ({
            let first = first_kept(ring, sub.cursor);
            let step = BatchView { end: ring.next() }.next(ring, sub);
            &&& step.item == Some((ring.log()[first as int], first, first + 1 == ring.next()))
            &&& step.sub == sub.received_at(first)
            &&& step.batch.end == ring.next()
        }),
{
    let batch = BatchView { end: ring.next() };
    lemma_settled_outcome(ring, sub.cursor);
    let outcome = ring.outcome(sub.cursor);
    if outcome is Lagged {
        lemma_settled_outcome(ring, sub.after(outcome).cursor);
        assert(batch.next(ring, sub) == batch.next(ring, sub.after(outcome)));
    }
}

/// A batch of a ring at rest is everything that is there, from the first message
/// that was not overwritten to the last one published: in order, with the last
/// one marked and no other. Nothing is left behind, and what was overwritten is
/// counted as lost.
pub proof fn lemma_settled_batch<T>(ring: RingView<T>, sub: SubscriberView, limit: nat)
    requires
        ring.wf(),
        ring.settled(),
        sub.cursor <= ring.next() <= sub.cursor + limit,
    ensures
        ({
            let first = first_kept(ring, sub.cursor);
            let batch = BatchView { end: ring.future() };
            let items = batch.items(ring, sub, limit);
            let after = batch.sub_at_end(ring, sub, limit);
            &&& items.len() == ring.next() - first
            &&& forall|i: int|
                0 <= i < items.len() ==> #[trigger] items[i] == (
                    ring.log()[first + i],
                    (first + i) as nat,
                    first + i + 1 == ring.next(),
                )
            &&& after.cursor == ring.next()
            &&& after.received == sub.received + items.len()
            &&& after.lagged == sub.lagged + (first - sub.cursor)
        }),
    decreases limit,
{
    let first = first_kept(ring, sub.cursor);
    let batch = BatchView { end: ring.next() };
    assert(ring.future() == ring.next());
    if sub.cursor < ring.next() {
        lemma_settled_next(ring, sub);
        let step = batch.next(ring, sub);
        let rest = step.batch.items(ring, step.sub, (limit - 1) as nat);
        lemma_settled_batch(ring, step.sub, (limit - 1) as nat);
        assert(first_kept(ring, step.sub.cursor) == first + 1 || step.sub.cursor == ring.next());
        assert(batch.items(ring, sub, limit) == seq![step.item->0] + rest);
    }
}

/// A batch is what single receives bring, up to its end: each message with its sequence
/// and whether it is the last one. A loss is skipped, and where there is nothing the batch
/// ends.
pub proof fn lemma_batch_item_by_item<T>(
    batch: BatchView,
    ring: RingView<T>,
    sub: SubscriberView,
    limit: nat,
)
    ensures
        batch.items(ring, sub, 0).len() == 0,
        sub.cursor >= batch.end || ring.outcome(sub.cursor) is Empty ==> batch.items(
            ring,
            sub,
            limit,
        ).len() == 0 && batch.sub_at_end(ring, sub, limit) == sub,
        sub.cursor < batch.end ==> match ring.outcome(sub.cursor) {
            Outcome::Got(value) => {
                let after = sub.after(ring.outcome(sub.cursor));
                &&& batch.items(ring, sub, limit + 1) == seq![
                    (value, sub.cursor, sub.cursor + 1 == batch.end),
                ] + batch.items(ring, after, limit)
                &&& batch.sub_at_end(ring, sub, limit + 1) == batch.sub_at_end(ring, after, limit)
            },
            Outcome::Lagged(_) => {
                let after = sub.after(ring.outcome(sub.cursor));
                &&& batch.items(ring, sub, limit) == batch.items(ring, after, limit)
                &&& batch.sub_at_end(ring, sub, limit) == batch.sub_at_end(ring, after, limit)
            },
            Outcome::Empty => true,
        },
        batch.room(sub) == if sub.cursor < batch.end {
            batch.end - sub.cursor
        } else {
            0
        },
{
}

/// Every message of a batch is one that a read brings, none of them twice, in ascending
/// order, before the end of the batch, and only the one right before the end is marked.
pub proof fn lemma_batch_in_order<T>(
    batch: BatchView,
    ring: RingView<T>,
    sub: SubscriberView,
    limit: nat,
)
    ensures
        ({
            let items = batch.items(ring, sub, limit);
            &&& items.len() <= limit
            &&& forall|i: int|
                0 <= i < items.len() ==> {
                    let (value, seq, last) = #[trigger] items[i];
                    &&& ring.outcome(seq) == Outcome::Got(value)
                    &&& sub.cursor + i <= seq < batch.end
                    &&& last <==> seq + 1 == batch.end
                }
            &&& forall|i: int, j: int|
                0 <= i < j < items.len() ==> (#[trigger] items[i]).1 < (#[trigger] items[j]).1
        }),
    decreases limit,
{
    if limit > 0 {
        lemma_next_message(batch, ring, sub);
        let step = batch.next(ring, sub);
        if let Some(item) = step.item {
            let rest = step.batch.items(ring, step.sub, (limit - 1) as nat);
            let items = batch.items(ring, sub, limit);
            lemma_batch_in_order(step.batch, ring, step.sub, (limit - 1) as nat);
            assert(items == seq![item] + rest);
            assert forall|i: int| 0 <= i < items.len() implies {
                let (value, seq, last) = #[trigger] items[i];
                &&& ring.outcome(seq) == Outcome::Got(value)
                &&& sub.cursor + i <= seq < batch.end
                &&& last <==> seq + 1 == batch.end
            } by {
                if i > 0 {
                    assert(items[i] == rest[i - 1]);
                }
            }
            assert forall|i: int, j: int| 0 <= i < j < items.len() implies (#[trigger] items[i]).1
                < (#[trigger] items[j]).1 by {
                assert(items[j] == rest[j - 1]);
                if i > 0 {
                    assert(items[i] == rest[i - 1]);
                }
            }
        }
    }
}

/// The next message of a batch is one that a read brings at or behind the subscriber.
proof fn lemma_next_message<T>(batch: BatchView, ring: RingView<T>, sub: SubscriberView)
    ensures
        ({
            let step = batch.next(ring, sub);
            step.item matches Some((value, seq, last)) ==> {
                &&& ring.outcome(seq) == Outcome::Got(value)
                &&& sub.cursor <= seq < batch.end
                &&& last <==> seq + 1 == batch.end
                &&& step.batch == batch
                &&& step.sub.cursor == seq + 1
            }
        }),
    decreases batch.room(sub),
{
    if sub.cursor < batch.end {
        let outcome = ring.outcome(sub.cursor);
        if outcome is Lagged {
            lemma_next_message(batch, ring, sub.after(outcome));
        }
    }
}

/// What a consumer hands on in consecutive turns, each a batch of the ring as it is
/// then.
pub open spec fn turns<T>(rings: Seq<RingView<T>>, sub: SubscriberView) -> Seq<(T, nat, bool)>
    decreases rings.len(),
{
    if rings.len() == 0 {
        Seq::empty()
    } else {
        let ring = rings.first();
        let batch = BatchView { end: ring.future() };
        let limit = batch.room(sub);
        batch.items(ring, sub, limit) + turns(
            rings.drop_first(),
            batch.sub_at_end(ring, sub, limit),
        )
    }
}

/// A ring at rest at the start of each turn, to which more and more is published,
/// and which loses nothing that the consumer at `from` has not read.
pub open spec fn turns_lose_nothing<T>(rings: Seq<RingView<T>>, from: nat) -> bool
    decreases rings.len(),
{
    rings.len() > 0 ==> {
        let ring = rings.first();
        &&& ring.wf()
        &&& ring.settled()
        &&& from <= ring.next() <= from + ring.capacity
        &&& rings.len() > 1 ==> ring.log().is_prefix_of(rings[1].log())
        &&& turns_lose_nothing(rings.drop_first(), ring.next())
    }
}

/// A consumer hands on everything once and in order: the batches of consecutive
/// turns, joined, are what was published from its start on, each message with its
/// own sequence.
pub proof fn lemma_turns_hand_on_everything<T>(rings: Seq<RingView<T>>, sub: SubscriberView)
    requires
        rings.len() > 0,
        turns_lose_nothing(rings, sub.cursor),
    ensures
        ({
            let log = rings.last().log();
            let all = turns(rings, sub);
            &&& all.len() == log.len() - sub.cursor
            &&& forall|i: int|
                0 <= i < all.len() ==> (#[trigger] all[i]).0 == log[sub.cursor + i] && all[i].1
                    == sub.cursor + i
        }),
    decreases rings.len(),
{
    let ring = rings.first();
    let batch = BatchView { end: ring.future() };
    let limit = batch.room(sub);
    lemma_settled_batch(ring, sub, limit);
    let after = batch.sub_at_end(ring, sub, limit);
    let items = batch.items(ring, sub, limit);
    let rest = rings.drop_first();
    if rest.len() > 0 {
        lemma_turns_hand_on_everything(rest, after);
        lemma_turns_grow(rest, after.cursor);
        assert(rest.last() == rings.last());
        assert(rest.first() == rings[1]);
        let log = rings.last().log();
        let all = turns(rings, sub);
        assert(all == items + turns(rest, after));
        assert forall|i: int| 0 <= i < all.len() implies (#[trigger] all[i]).0 == log[sub.cursor + i]
            && all[i].1 == sub.cursor + i by {
            if i < items.len() {
                assert(all[i] == items[i]);
                assert(ring.log()[sub.cursor + i] == rings[1].log()[sub.cursor + i]);
                assert(rest.first().log()[sub.cursor + i] == log[sub.cursor + i]);
            } else {
                assert(all[i] == turns(rest, after)[i - items.len()]);
            }
        }
    } else {
        assert(turns(rest, after) =~= Seq::empty());
        assert(turns(rings, sub) =~= items);
    }
}

/// What is published in the first turn is still so in the last one.
proof fn lemma_turns_grow<T>(rings: Seq<RingView<T>>, from: nat)
    requires
        rings.len() > 0,
        turns_lose_nothing(rings, from),
    ensures
        rings.first().log().is_prefix_of(rings.last().log()),
    decreases rings.len(),
{
    let rest = rings.drop_first();
    if rest.len() > 0 {
        lemma_turns_grow(rest, rings.first().next());
        assert(rest.first() == rings[1]);
        assert(rest.last() == rings.last());
        let a = rings.first().log();
        let b = rings[1].log();
        let c = rings.last().log();
        assert(a =~= c.subrange(0, a.len() as int)) by {
            assert(b == c.subrange(0, b.len() as int));
            assert(a == b.subrange(0, a.len() as int));
        }
    }
}

/// Somebody who is handed messages one after the other. What a handler may be handed
/// and how it changes with that is its own affair; whoever hands messages on can rely
/// on no more than it is told of the handler at hand.
pub trait Handler<T>: Sized {
    /// The handler may be handed this message now: value, sequence, and whether it is
    /// the last one of its batch.
    spec fn ready_for(&self, item: (T, nat, bool)) -> bool;

    /// Being handed the message makes the handler `after`.
    spec fn becomes(&self, item: (T, nat, bool), after: &Self) -> bool;

    /// Hand one message over.
    fn handle(&mut self, value: T, seq: u64, end_of_batch: bool)
        requires
            old(self).ready_for((value, seq as nat, end_of_batch)),
        ensures
            old(self).becomes((value, seq as nat, end_of_batch), final(self)),
    ;
}

impl<T, F: FnMut(T, u64, bool)> Handler<T> for F {
    open spec fn ready_for(&self, item: (T, nat, bool)) -> bool {
        self.requires((item.0, item.1 as u64, item.2))
    }

    open spec fn becomes(&self, item: (T, nat, bool), after: &Self) -> bool {
        handled(*self, item) && *after == *self
    }

    fn handle(&mut self, value: T, seq: u64, end_of_batch: bool) {
        self(value, seq, end_of_batch);
    }
}

/// A handler that keeps what it is handed.
pub struct Collector<T> {
    pub items: Vec<(T, u64, bool)>,
}

impl<T> View for Collector<T> {
    type V = Seq<(T, nat, bool)>;

    open spec fn view(&self) -> Seq<(T, nat, bool)> {
        self.items@.map_values(|item: (T, u64, bool)| (item.0, item.1 as nat, item.2))
    }
}

impl<T> Handler<T> for Collector<T> {
    open spec fn ready_for(&self, item: (T, nat, bool)) -> bool {
        true
    }

    open spec fn becomes(&self, item: (T, nat, bool), after: &Self) -> bool {
        after@ == self@.push(item)
    }

    fn handle(&mut self, value: T, seq: u64, end_of_batch: bool) {
        let ghost had = self@;
        self.items.push((value, seq, end_of_batch));
        assert(self@ =~= had.push((value, seq as nat, end_of_batch)));
    }
}

/// A handler may be handed these messages, one after the other, and nothing else.
pub open spec fn ready_for_all<T, H: Handler<T>>(handler: H, items: Seq<(T, nat, bool)>) -> bool
    decreases items.len(),
{
    items.len() > 0 ==> {
        &&& handler.ready_for(items.first())
        &&& forall|after: H| #[trigger]
            handler.becomes(items.first(), &after) ==> ready_for_all(after, items.drop_first())
    }
}

/// Being handed these messages, one after the other, makes a handler `after`.
pub open spec fn becomes_all<T, H: Handler<T>>(
    handler: H,
    items: Seq<(T, nat, bool)>,
    after: H,
) -> bool
    decreases items.len(),
{
    if items.len() == 0 {
        after == handler
    } else {
        exists|mid: H|
            becomes_all(handler, items.drop_last(), mid) && #[trigger] mid.becomes(
                items.last(),
                &after,
            )
    }
}

/// The handler was called on a message.
pub open spec fn handled<T, F: FnMut(T, u64, bool)>(f: F, item: (T, nat, bool)) -> bool {
    f.ensures((item.0, item.1 as u64, item.2), ())
}

/// Once and in order: a handler that keeps what it is handed holds, after a series of
/// messages, what it held before and these messages behind it, each once and in this
/// order.
pub proof fn lemma_collected<T>(
    before: Collector<T>,
    items: Seq<(T, nat, bool)>,
    after: Collector<T>,
)
    requires
        becomes_all(before, items, after),
    ensures
        after@ == before@ + items,
    decreases items.len(),
{
    if items.len() == 0 {
        assert(before@ + items =~= before@);
    } else {
        let mid = choose|mid: Collector<T>|
            becomes_all(before, items.drop_last(), mid) && #[trigger] mid.becomes(
                items.last(),
                &after,
            );
        lemma_collected(before, items.drop_last(), mid);
        assert(before@ + items =~= (before@ + items.drop_last()).push(items.last()));
    }
}

/// A handler that keeps what it is handed shows it as it is, in order.
pub proof fn lemma_collector_view<T>(collector: Collector<T>, i: int)
    requires
        0 <= i < collector.items@.len(),
    ensures
        collector@.len() == collector.items@.len(),
        collector@[i].0 == collector.items@[i].0,
        collector@[i].1 == collector.items@[i].1,
        collector@[i].2 == collector.items@[i].2,
{
}

/// A handler that keeps what it is handed may be handed anything.
pub proof fn lemma_collector_ready<T>(collector: Collector<T>, items: Seq<(T, nat, bool)>)
    ensures
        ready_for_all(collector, items),
    decreases items.len(),
{
    if items.len() > 0 {
        assert forall|after: Collector<T>| #[trigger]
            collector.becomes(items.first(), &after) implies ready_for_all(
            after,
            items.drop_first(),
        ) by {
            lemma_collector_ready(after, items.drop_first());
        }
    }
}

/// A function that may be called on anything may be handed anything, and is called on
/// each message.
pub proof fn lemma_function_handler<T, F: FnMut(T, u64, bool)>(
    f: F,
    items: Seq<(T, nat, bool)>,
    after: F,
)
    requires
        forall|value: T, seq: u64, end: bool| #[trigger] f.requires((value, seq, end)),
    ensures
        ready_for_all(f, items),
        becomes_all(f, items, after) ==> after == f && forall|k: int|
            0 <= k < items.len() ==> handled(f, #[trigger] items[k]),
    decreases items.len(),
{
    if items.len() > 0 {
        lemma_function_handler(f, items.drop_first(), after);
        if becomes_all(f, items, after) {
            let mid = choose|mid: F|
                becomes_all(f, items.drop_last(), mid) && #[trigger] mid.becomes(
                    items.last(),
                    &after,
                );
            lemma_function_handler(f, items.drop_last(), mid);
            assert forall|k: int| 0 <= k < items.len() implies handled(f, #[trigger] items[k]) by {
                if k < items.len() - 1 {
                    assert(items.drop_last()[k] == items[k]);
                }
            }
        }
    }
}

/// What may be handed over after a first message.
proof fn lemma_handed_on<T, H: Handler<T>>(
    first: H,
    done: Seq<(T, nat, bool)>,
    now: H,
    item: (T, nat, bool),
    after: H,
)
    requires
        becomes_all(first, done, now),
        now.becomes(item, &after),
    ensures
        becomes_all(first, done.push(item), after),
{
    assert(done.push(item).drop_last() =~= done);
    assert(done.push(item).last() == item);
}

/// Hand everything that is announced now to `handler`, one message after the other:
/// the message, its sequence, and whether it is the last one. The handler is handed
/// these messages, each once and in order, and nothing else. Returns how many there
/// were. What this comes to for a function is said in [`lemma_function_handler`], and for
/// a handler that keeps what it is handed in [`lemma_collected`].
pub fn drain_batch<T: Pod, H: Handler<T>>(
    sub: &mut Subscriber<T>,
    ring: &mut SharedRing<T>,
    handler: H,
) -> (done: u64)
    requires
        old(ring).wf(),
        old(sub)@.bound(old(ring)@),
        ({
            let batch = BatchView { end: old(ring)@.future() };
            ready_for_all(
                handler,
                batch.items(old(ring)@, old(sub)@, batch.room(old(sub)@)),
            )
        }),
    ensures
        final(ring).wf(),
        final(sub)@.bound(final(ring)@),
        ({
            let batch = BatchView { end: old(ring)@.future() };
            let limit = batch.room(old(sub)@);
            let items = batch.items(old(ring)@, old(sub)@, limit);
            &&& done == items.len()
            &&& exists|after: H| becomes_all(handler, items, after)
            &&& final(sub)@ == batch.sub_at_end(old(ring)@, old(sub)@, limit)
        }),
        final(ring)@ == old(sub)@.ring_moved(old(ring)@, final(sub)@),
{
    let ghost first = handler;
    let mut handler = handler;
    let ghost view = ring@;
    let ghost start = sub@;
    let mut batch = Batch::start(ring);
    let ghost limit = batch@.room(start);
    let ghost all = batch@.items(view, start, limit);
    let ghost end = batch@.sub_at_end(view, start, limit);
    let ghost mut left = limit;
    let mut done: u64 = 0;
    let mut more = true;
    assert(all.skip(0) =~= all);
    assert(all.take(0) =~= Seq::empty());
    while more
        invariant
            ring.wf(),
            sub@.bound(ring@),
            start.bound(view),
            sub@.tracker == start.tracker,
            sub@ == start || sub@.cursor > start.cursor,
            ring@ == start.ring_moved(view, sub@),
            batch@.end <= u64::MAX,
            done <= sub@.cursor,
            left >= batch@.room(sub@),
            done <= all.len(),
            more ==> all.skip(done as int) == batch@.items(view, sub@, left),
            ready_for_all(handler, all.skip(done as int)),
            becomes_all(first, all.take(done as int), handler),
            more ==> batch@.sub_at_end(view, sub@, left) == end,
            !more ==> done == all.len() && sub@ == end,
        decreases (if more { batch@.room(sub@) + 1 } else { 0 }),
    {
        let ghost now = sub@;
        let ghost was = batch@;
        let ghost held = handler;
        proof {
            lemma_shown_twice(view, now, start);
            assert(forall|n: nat| ring@.outcome(n) == #[trigger] view.outcome(n));
            lemma_next_same(was, ring@, view, now);
            lemma_next_moves(was, view, now);
            lemma_shown_twice(view, now, was.next(view, now).sub);
        }
        match batch.next(sub, ring) {
            Some(item) => {
                let ghost handed = was.next(view, now).item->0;
                proof {
                    let rest = batch@.items(view, sub@, (left - 1) as nat);
                    assert(was.items(view, now, left) == seq![handed] + rest);
                    assert(all.skip(done as int).len() > 0);
                    assert(all.skip(done as int).first() == handed);
                    assert(all[done as int] == all.skip(done as int)[0]);
                    assert(all.skip(done as int + 1) =~= all.skip(done as int).drop_first());
                    assert((seq![handed] + rest).skip(1) =~= rest);
                    assert(all.skip(done as int).skip(1) =~= all.skip(done as int + 1));
                    assert((item.value, item.seq as nat, item.end_of_batch) == handed);
                }
                handler.handle(item.value, item.seq, item.end_of_batch);
                proof {
                    lemma_handed_on(first, all.take(done as int), held, handed, handler);
                    assert(all.take(done as int + 1) =~= all.take(done as int).push(handed));
                    left = (left - 1) as nat;
                }
                done = done + 1;
            },
            None => {
                more = false;
            },
        }
    }
    assert(all.take(done as int) =~= all);
    done
}

} // verus!
