//! A stage that turns messages of one ring into messages of another, one step at
//! a time.

use crate::channel::errors::TryRecvError;
use crate::channel::publisher::{Publisher, PublisherView};
use crate::channel::subscriber::{Outcome, Subscriber, SubscriberView};
use crate::pod::Pod;
use crate::ring::{Phase, RingView, SharedRing};
use crate::slot::SEQ_LIMIT;
use vstd::prelude::*;

verus! {

/// What a stage did in one step.
#[derive(Debug, Clone, Copy, PartialEq, Eq, Structural)]
pub enum StageStep {
    /// It was asked to stop.
    Stop,
    /// It passed on a message.
    Passed,
    /// There was no message to pass on, or some were lost: try again after a
    /// pause.
    Pause,
}

/// What a stage has to work on.
#[derive(Debug, Clone, Copy, PartialEq, Eq)]
pub enum StageInput<T> {
    /// It is asked to stop.
    Stop,
    /// A message to pass on.
    Got(T),
    /// There is no message, or some were lost: try again after a pause.
    Pause,
}

/// The first half of a step: unless the stage is asked to stop, it tries to
/// receive a message.
pub fn stage_take<T: Pod>(
    input: &mut Subscriber<T>,
    source: &mut SharedRing<T>,
    shutdown: bool,
) -> (r: StageInput<T>)
    requires
        old(source).wf(),
        old(input)@.bound(old(source)@),
    ensures
        final(source).wf(),
        final(input)@.bound(final(source)@),
        shutdown ==> {
            &&& r is Stop
            &&& final(input)@ == old(input)@
            &&& final(source)@ == old(source)@
        },
        !shutdown ==> {
            let outcome = old(source)@.outcome(old(input)@.cursor);
            &&& final(input)@ == old(input)@.after(outcome)
            &&& final(source)@ == old(input)@.ring_after(old(source)@, outcome)
            &&& r == (match outcome {
                Outcome::Got(value) => StageInput::Got(value),
                _ => StageInput::Pause,
            })
        },
{
    if shutdown {
        return StageInput::Stop;
    }
    match input.try_recv(source) {
        Ok(value) => StageInput::Got(value),
        Err(TryRecvError::Empty) => StageInput::Pause,
        Err(TryRecvError::Lagged { .. }) => StageInput::Pause,
    }
}

/// A stage with the rings that it reads and writes, as contracts see them.
pub struct StageView<T, U> {
    pub input: SubscriberView,
    pub source: RingView<T>,
    pub output: PublisherView,
    pub target: RingView<U>,
}

impl<T, U> StageView<T, U> {
    /// What the stage finds when it tries to receive.
    pub open spec fn outcome(self) -> Outcome<T> {
        self.source.outcome(self.input.cursor)
    }

    /// One step of a stage that is not asked to stop leads to `after`: what is
    /// received is passed on through `f`.
    pub open spec fn steps_to<F: FnOnce(T) -> U>(self, f: F, after: Self) -> bool {
        &&& after.input == self.input.after(self.outcome())
        &&& after.source == self.input.ring_after(self.source, self.outcome())
        &&& match self.outcome() {
            Outcome::Got(value) => after.output == self.output.published(self.target)
                && exists|out: U|
                #[trigger] f.ensures((value,), out) && after.target == self.output.ring_published(
                    self.target,
                    out,
                ),
            _ => after.output == self.output && after.target == self.target,
        }
    }

    /// What others may do until the next step: publish to the source, and read the
    /// target. The two handles are the stage's own.
    pub open spec fn rests_until(self, next: Self) -> bool {
        &&& next.input == self.input
        &&& next.output == self.output
        &&& next.target.history == self.target.history
        &&& forall|n: nat| #[trigger]
            self.source.done(n) ==> next.source.done(n) && next.source.message(n)
                == self.source.message(n)
    }
}

/// One step of a stage: unless it is asked to stop, it receives a message,
/// applies `f` to it, once, and publishes the result.
pub fn stage_step<T: Pod, U: Pod, F: FnOnce(T) -> U>(
    input: &mut Subscriber<T>,
    source: &mut SharedRing<T>,
    output: &mut Publisher<U>,
    target: &mut SharedRing<U>,
    shutdown: bool,
    f: F,
) -> (step: StageStep)
    requires
        old(source).wf(),
        old(input)@.bound(old(source)@),
        old(target).wf(),
        old(output).bound(old(target)@),
        old(output)@.seq + 1 < SEQ_LIMIT,
        old(output)@.has_room(old(target)@),
        old(source)@.outcome(old(input)@.cursor) matches Outcome::Got(value) ==> f.requires(
            (value,),
        ),
    ensures
        final(source).wf(),
        final(input)@.bound(final(source)@),
        final(target).wf(),
        final(output).bound(final(target)@),
        shutdown ==> {
            &&& step is Stop
            &&& final(input)@ == old(input)@
            &&& final(source)@ == old(source)@
        },
        !shutdown ==> {
            let before = StageView {
                input: old(input)@,
                source: old(source)@,
                output: old(output)@,
                target: old(target)@,
            };
            let after = StageView {
                input: final(input)@,
                source: final(source)@,
                output: final(output)@,
                target: final(target)@,
            };
            &&& before.steps_to(f, after)
            &&& step == (if before.outcome() is Got {
                StageStep::Passed
            } else {
                StageStep::Pause
            })
        },
        shutdown ==> final(output)@ == old(output)@ && final(target)@ == old(target)@,
{
    match stage_take(input, source, shutdown) {
        StageInput::Stop => StageStep::Stop,
        StageInput::Got(value) => {
            let out = f(value);
            output.publish(target, out);
            StageStep::Passed
        },
        StageInput::Pause => StageStep::Pause,
    }
}

/// A step that finds a message passes it on: the reader moves past it, and what `f` made
/// of it is the newest message of the target. A step that finds none changes nothing but
/// the reader's own position.
pub proof fn lemma_stage_step_passes<T, U, F: FnOnce(T) -> U>(
    f: F,
    before: StageView<T, U>,
    after: StageView<T, U>,
)
    requires
        before.steps_to(f, after),
    ensures
        before.outcome() matches Outcome::Got(value) ==> {
            &&& after.input.cursor == before.input.cursor + 1
            &&& after.input.received == before.input.received + 1
            &&& after.input.lagged == before.input.lagged
            &&& after.output.seq == before.output.seq + 1
            &&& after.target.next() == before.target.next() + 1
            &&& after.target.cursor == Some(before.target.next())
            &&& after.target.done(before.target.next())
            &&& f.ensures((value,), after.target.message(before.target.next()))
        },
        !(before.outcome() is Got) ==> after.output == before.output && after.target
            == before.target,
        before.outcome() is Empty ==> after.input == before.input && after.source == before.source,
        before.outcome() matches Outcome::Lagged(skipped) ==> after.input.cursor
            == before.input.cursor + skipped && after.input.lagged == before.input.lagged + skipped
            && after.input.received == before.input.received,
        after.source.history == before.source.history,
        after.source.cursor == before.source.cursor,
{
}

/// Steps of one stage, each with where it starts and where it leads, none of which
/// finds that messages were lost.
pub open spec fn stage_run<T, U, F: FnOnce(T) -> U>(
    f: F,
    run: Seq<(StageView<T, U>, StageView<T, U>)>,
) -> bool {
    &&& forall|i: int|
        0 <= i < run.len() ==> (#[trigger] run[i]).0.steps_to(f, run[i].1) && run[i].0.outcome()
            !is Lagged
    &&& forall|i: int|
        #![trigger run[i]]
        0 < i < run.len() ==> run[i - 1].1.rests_until(run[i].0)
}

/// Message `k` that the target got is what `f` makes of message `k` that the stage
/// received, both counted from `start`.
pub open spec fn passed_on<T, U, F: FnOnce(T) -> U>(
    f: F,
    start: StageView<T, U>,
    end: StageView<T, U>,
    k: nat,
) -> bool {
    let received = start.input.cursor + k;
    let published = start.target.next() + k;
    &&& end.source.done(received)
    &&& end.target.done(published)
    &&& f.ensures((end.source.message(received),), end.target.message(published))
}

/// A stage that loses nothing passes on what it receives: the `k`-th message that
/// it published is an `f` result of the `k`-th message that it received, each once
/// and in order, after any number of steps, whatever others do to the rings in
/// between. What the target held before stays.
pub proof fn lemma_stage_run<T, U, F: FnOnce(T) -> U>(
    f: F,
    run: Seq<(StageView<T, U>, StageView<T, U>)>,
)
    requires
        run.len() > 0,
        stage_run(f, run),
    ensures
        ({
            let start = run.first().0;
            let end = run.last().1;
            let count = end.input.cursor - start.input.cursor;
            &&& count >= 0
            &&& end.input.received == start.input.received + count
            &&& end.input.lagged == start.input.lagged
            &&& end.target.next() == start.target.next() + count
            &&& end.target.history.take(start.target.next() as int) == start.target.history
            &&& forall|k: nat| k < count ==> #[trigger] passed_on(f, start, end, k)
        }),
    decreases run.len(),
{
    let start = run.first().0;
    let (before, end) = run.last();
    assert(run[run.len() - 1] == run.last());
    assert(run[0] == run.first());
    if run.len() > 1 {
        let rest = run.drop_last();
        assert forall|i: int| 0 <= i < rest.len() implies (#[trigger] rest[i]).0.steps_to(
            f,
            rest[i].1,
        ) && rest[i].0.outcome() !is Lagged by {
            assert(rest[i] == run[i]);
        }
        assert forall|i: int| #![trigger rest[i]] 0 < i < rest.len() implies rest[i - 1].1.rests_until(
            rest[i].0,
        ) by {
            assert(rest[i] == run[i]);
        }
        lemma_stage_run(f, rest);
        let held = rest.last().1;
        assert(held.rests_until(before)) by {
            assert(rest.last() == run[run.len() - 2]);
        }
        assert(before.target.history.take(start.target.next() as int)
            =~= start.target.history);
        assert forall|k: nat| k < before.input.cursor - start.input.cursor implies #[trigger] passed_on(
            f,
            start,
            before,
            k,
        ) by {
            assert(passed_on(f, start, held, k));
        }
    } else {
        assert(before == start);
        assert(start.target.history.take(start.target.next() as int) =~= start.target.history);
    }
    lemma_stage_step(f, start, before, end);
}

/// One more step of a stage that has passed on everything so far.
proof fn lemma_stage_step<T, U, F: FnOnce(T) -> U>(
    f: F,
    start: StageView<T, U>,
    before: StageView<T, U>,
    end: StageView<T, U>,
)
    requires
        before.steps_to(f, end),
        before.outcome() !is Lagged,
        before.input.cursor >= start.input.cursor,
        before.target.next() == start.target.next() + (before.input.cursor - start.input.cursor),
        before.target.history.take(start.target.next() as int) == start.target.history,
        forall|k: nat|
            k < before.input.cursor - start.input.cursor ==> #[trigger] passed_on(
                f,
                start,
                before,
                k,
            ),
    ensures
        ({
            let count = end.input.cursor - start.input.cursor;
            &&& end.target.next() == start.target.next() + count
            &&& end.target.history.take(start.target.next() as int) == start.target.history
            &&& forall|k: nat| k < count ==> #[trigger] passed_on(f, start, end, k)
        }),
{
    if let Outcome::Got(value) = before.outcome() {
        let out = choose|out: U|
            #[trigger] f.ensures((value,), out) && end.target == before.output.ring_published(
                before.target,
                out,
            );
        assert(end.target.history == before.target.history.push(Phase::Done(out)));
        assert(end.target.history.take(start.target.next() as int) =~= start.target.history);
        assert forall|k: nat| k < end.input.cursor - start.input.cursor implies #[trigger] passed_on(
            f,
            start,
            end,
            k,
        ) by {
            if k < before.input.cursor - start.input.cursor {
                assert(passed_on(f, start, before, k));
            }
        }
    }
}

} // verus!
