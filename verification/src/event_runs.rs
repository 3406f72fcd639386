//! Whole runs of an event ring: subscribers that come, process and go in any
//! order.

use crate::backpressure::{lemma_slowest, lemma_slowest_of_live};
use crate::event::{
    lemma_event_prune, lemma_event_publish_wf, lemma_event_release, lemma_same_log,
    EventPublisherView, EventSubscriberView, EventView,
};
use crate::slot::SEQ_LIMIT;
use vstd::prelude::*;

verus! {

/// Something that happens on an event ring.
pub enum EventAction<T> {
    /// The publisher tries to publish. If there is room, the slot holds this
    /// value afterwards.
    TryPublish(T),
    /// The publisher looks for room.
    Look,
    Subscribe,
    /// A subscriber processes its next message, if there is one.
    Process(int),
    /// A subscriber goes away.
    Unsubscribe(int),
}

/// A subscriber, with what it has processed.
pub struct EventReader<T> {
    pub view: EventSubscriberView,
    /// Where it started.
    pub start: nat,
    /// What it was shown.
    pub seen: Seq<T>,
}

/// An event ring with all who work on it.
pub struct EventState<T> {
    pub publisher: EventPublisherView,
    pub ring: EventView<T>,
    /// The subscribers in the order in which they came. Those who are gone leave
    /// their place empty.
    pub readers: Seq<Option<EventReader<T>>>,
}

impl<T> EventState<T> {
    /// There is a subscriber at place `i`.
    pub open spec fn present(self, i: int) -> bool {
        0 <= i < self.readers.len() && self.readers[i] is Some
    }

    /// The subscriber at place `i`.
    pub open spec fn reader(self, i: int) -> EventReader<T> {
        self.readers[i]->0
    }

    /// The ring after the publisher has looked for room.
    pub open spec fn step_look(self) -> Self {
        EventState {
            publisher: self.publisher.looked(self.ring),
            ring: self.publisher.ring_looked(self.ring),
            ..self
        }
    }

    /// The ring after an action. An action of a subscriber that is not there
    /// changes nothing, nor does a publication that no sequence is left for.
    pub open spec fn step(self, action: EventAction<T>) -> Self {
        let ring = self.ring;
        match action {
            EventAction::TryPublish(value) => if ring.log.len() + 1 >= SEQ_LIMIT {
                self
            } else if self.publisher.has_room(ring) {
                EventState {
                    publisher: self.publisher.published(ring),
                    ring: self.publisher.ring_looked(ring).publish(value),
                    ..self
                }
            } else {
                self.step_look()
            },
            EventAction::Look => self.step_look(),
            EventAction::Subscribe => EventState {
                ring: ring.register(),
                readers: self.readers.push(
                    Some(
                        EventReader {
                            view: EventSubscriberView {
                                cursor: ring.log.len(),
                                cell: ring.cells.len() as int,
                            },
                            start: ring.log.len(),
                            seen: Seq::empty(),
                        },
                    ),
                ),
                ..self
            },
            EventAction::Process(i) => if self.present(i) && self.reader(i).view.cursor
                < ring.log.len() {
                let r = self.reader(i);
                EventState {
                    ring: ring.move_cell(r.view.cell, (r.view.cursor + 1) as u64),
                    readers: self.readers.update(
                        i,
                        Some(
                            EventReader {
                                view: EventSubscriberView { cursor: r.view.cursor + 1, ..r.view },
                                start: r.start,
                                seen: r.seen.push(ring.slot_value(r.view.cursor)),
                            },
                        ),
                    ),
                    ..self
                }
            } else {
                self
            },
            EventAction::Unsubscribe(i) => if self.present(i) {
                EventState {
                    ring: ring.release(self.reader(i).view.cell),
                    readers: self.readers.update(i, None),
                    ..self
                }
            } else {
                self
            },
        }
    }

    /// The ring after a series of actions.
    pub open spec fn run(self, actions: Seq<EventAction<T>>) -> Self
        decreases actions.len(),
    {
        if actions.len() == 0 {
            self
        } else {
            self.run(actions.drop_last()).step(actions.last())
        }
    }

    /// What holds of a subscriber: it was shown every message since its start,
    /// as it was published, and the publisher waits for it.
    pub open spec fn reader_ok(self, r: EventReader<T>) -> bool {
        &&& r.start <= r.view.cursor <= self.ring.log.len()
        &&& r.seen == self.ring.log.subrange(r.start as int, r.view.cursor as int)
        &&& 0 <= r.view.cell < self.ring.cells.len()
        &&& self.ring.cells[r.view.cell] == r.view.cursor
        &&& self.ring.gated_by(r.view.cell)
        &&& self.publisher.cached_slowest <= r.view.cursor
        &&& self.ring.log.len() <= r.view.cursor + self.ring.capacity
    }

    /// What holds in every state of an event ring.
    pub open spec fn inv(self) -> bool {
        &&& self.ring.wf()
        &&& self.publisher.bound(self.ring)
        &&& self.publisher.cached_slowest <= self.publisher.seq
        &&& forall|c: int|
            0 <= c < self.ring.cells.len() ==> #[trigger] self.ring.cells[c] <= self.ring.log.len()
        &&& forall|i: int| #[trigger] self.present(i) ==> self.reader_ok(self.reader(i))
        &&& forall|i: int, j: int|
            #![trigger self.present(i), self.present(j)]
            self.present(i) && self.present(j) && i != j ==> self.reader(i).view.cell
                != self.reader(j).view.cell
    }
}

/// A subscriber has room in front of it where the publisher sees room, and the
/// publisher still waits for it after a look.
proof fn lemma_reader_has_room<T>(s: EventState<T>, i: int)
    requires
        s.inv(),
        s.present(i),
    ensures
        ({
            let v = s.reader(i).view;
            &&& s.step_look().ring.gated_by(v.cell)
            &&& s.publisher.looked(s.ring).cached_slowest <= v.cursor
            &&& s.publisher.has_room(s.ring) ==> s.ring.log.len() < v.cursor + s.ring.capacity
        }),
{
    let v = s.reader(i).view;
    assert(s.reader_ok(s.reader(i)));
    lemma_event_prune(s.ring, v.cell);
    lemma_slowest(s.ring.gates, s.ring.cells);
    let k = choose|k: int|
        0 <= k < s.ring.gates.len() && (#[trigger] s.ring.gates[k]).live && s.ring.gates[k].cell
            == v.cell;
    assert(s.ring.gates[k].live);
}

/// Looking for room leaves the ring in order.
proof fn lemma_event_look<T>(s: EventState<T>)
    requires
        s.inv(),
    ensures
        s.step_look().inv(),
{
    let n = s.step_look();
    lemma_slowest_of_live(s.ring.gates, s.ring.cells);
    lemma_same_log(s.ring, n.ring);
    lemma_slowest(s.ring.gates, s.ring.cells);
    assert forall|i: int| #[trigger] n.present(i) implies n.reader_ok(n.reader(i)) by {
        assert(s.present(i));
        lemma_reader_has_room(s, i);
    }
    assert forall|i: int, j: int|
        #![trigger n.present(i), n.present(j)]
        n.present(i) && n.present(j) && i != j implies n.reader(i).view.cell != n.reader(
        j,
    ).view.cell by {
        assert(s.present(i) && s.present(j));
    }
}

/// A publication leaves the ring in order.
proof fn lemma_event_publication<T>(s: EventState<T>, value: T)
    requires
        s.inv(),
        s.ring.log.len() + 1 < SEQ_LIMIT,
        s.publisher.has_room(s.ring),
    ensures
        s.step(EventAction::TryPublish(value)).inv(),
{
    let looked = s.step_look();
    let n = s.step(EventAction::TryPublish(value));
    lemma_event_look(s);
    lemma_event_publish_wf(looked.ring, value);
    assert forall|i: int| #[trigger] n.present(i) implies n.reader_ok(n.reader(i)) by {
        assert(s.present(i));
        let r = s.reader(i);
        assert(s.reader_ok(r));
        lemma_reader_has_room(s, i);
        let k = choose|k: int|
            0 <= k < looked.ring.gates.len() && (#[trigger] looked.ring.gates[k]).live
                && looked.ring.gates[k].cell == r.view.cell;
        assert(n.ring.gates[k].live);
        assert(n.ring.log.subrange(r.start as int, r.view.cursor as int) =~= r.seen);
    }
    assert forall|i: int, j: int|
        #![trigger n.present(i), n.present(j)]
        n.present(i) && n.present(j) && i != j implies n.reader(i).view.cell != n.reader(
        j,
    ).view.cell by {
        assert(s.present(i) && s.present(j));
    }
}

/// A subscriber that joins leaves the ring in order.
proof fn lemma_event_join<T>(s: EventState<T>)
    requires
        s.inv(),
    ensures
        s.step(EventAction::Subscribe).inv(),
{
    let n = s.step(EventAction::Subscribe);
    let last = s.readers.len() as int;
    lemma_same_log(s.ring, n.ring);
    assert(n.ring.gates.last().live);
    assert(n.ring.gated_by(s.ring.cells.len() as int));
    assert forall|i: int| #[trigger] n.present(i) implies n.reader_ok(n.reader(i)) by {
        if i < last {
            assert(s.present(i));
            let r = s.reader(i);
            assert(s.reader_ok(r));
            let k = choose|k: int|
                0 <= k < s.ring.gates.len() && (#[trigger] s.ring.gates[k]).live
                    && s.ring.gates[k].cell == r.view.cell;
            assert(n.ring.gates[k].live);
        } else {
            let r = n.reader(i);
            assert(n.ring.log.subrange(r.start as int, r.view.cursor as int) =~= r.seen);
        }
    }
    assert forall|i: int, j: int|
        #![trigger n.present(i), n.present(j)]
        n.present(i) && n.present(j) && i != j implies n.reader(i).view.cell != n.reader(
        j,
    ).view.cell by {
        if i < last {
            assert(s.present(i));
            assert(s.reader_ok(s.reader(i)));
        }
        if j < last {
            assert(s.present(j));
            assert(s.reader_ok(s.reader(j)));
        }
    }
}

/// A message that is processed leaves the ring in order.
proof fn lemma_event_process<T>(s: EventState<T>, at: int)
    requires
        s.inv(),
        s.present(at),
        s.reader(at).view.cursor < s.ring.log.len(),
    ensures
        s.step(EventAction::Process(at)).inv(),
        s.ring.slot_value(s.reader(at).view.cursor) == s.ring.log[s.reader(at).view.cursor as int],
{
    let v = s.reader(at).view;
    let n = s.step(EventAction::Process(at));
    assert(s.reader_ok(s.reader(at)));
    assert(s.ring.kept(v.cursor));
    lemma_same_log(s.ring, n.ring);
    assert forall|i: int| #[trigger] n.present(i) implies n.reader_ok(n.reader(i)) by {
        assert(s.present(i));
        let r = s.reader(i);
        assert(s.reader_ok(r));
        let k = choose|k: int|
            0 <= k < s.ring.gates.len() && (#[trigger] s.ring.gates[k]).live
                && s.ring.gates[k].cell == r.view.cell;
        assert(n.ring.gates[k].live);
        if i == at {
            assert(n.reader(i).seen =~= n.ring.log.subrange(r.start as int, v.cursor as int + 1));
        }
    }
    assert forall|i: int, j: int|
        #![trigger n.present(i), n.present(j)]
        n.present(i) && n.present(j) && i != j implies n.reader(i).view.cell != n.reader(
        j,
    ).view.cell by {
        assert(s.present(i) && s.present(j));
    }
}

/// A subscriber that goes leaves the ring in order.
proof fn lemma_event_leave<T>(s: EventState<T>, at: int)
    requires
        s.inv(),
        s.present(at),
    ensures
        s.step(EventAction::Unsubscribe(at)).inv(),
{
    let cell = s.reader(at).view.cell;
    let n = s.step(EventAction::Unsubscribe(at));
    assert forall|k: int| 0 <= k < n.ring.gates.len() implies 0 <= (#[trigger] n.ring.gates[k]).cell
        < n.ring.cells.len() by {
        assert(n.ring.gates[k].cell == s.ring.gates[k].cell);
    }
    lemma_same_log(s.ring, n.ring);
    assert forall|i: int| #[trigger] n.present(i) implies n.reader_ok(n.reader(i)) by {
        assert(s.present(i) && i != at);
        assert(s.reader_ok(s.reader(i)));
        lemma_event_release(s.ring, cell, s.reader(i).view.cell);
    }
    assert forall|i: int, j: int|
        #![trigger n.present(i), n.present(j)]
        n.present(i) && n.present(j) && i != j implies n.reader(i).view.cell != n.reader(
        j,
    ).view.cell by {
        assert(s.present(i) && s.present(j));
    }
}

/// Whatever happens on an event ring leaves it in order.
pub proof fn lemma_event_step<T>(s: EventState<T>, action: EventAction<T>)
    requires
        s.inv(),
    ensures
        s.step(action).inv(),
{
    match action {
        EventAction::TryPublish(value) => {
            if s.ring.log.len() + 1 < SEQ_LIMIT && s.publisher.has_room(s.ring) {
                lemma_event_publication(s, value);
            }
            lemma_event_look(s);
        },
        EventAction::Look => {
            lemma_event_look(s);
        },
        EventAction::Subscribe => {
            lemma_event_join(s);
        },
        EventAction::Process(i) => {
            if s.present(i) && s.reader(i).view.cursor < s.ring.log.len() {
                lemma_event_process(s, i);
            }
        },
        EventAction::Unsubscribe(i) => {
            if s.present(i) {
                lemma_event_leave(s, i);
            }
        },
    }
}

/// Every state that an event ring gets into is in order.
pub proof fn lemma_event_run<T>(s: EventState<T>, actions: Seq<EventAction<T>>)
    requires
        s.inv(),
    ensures
        s.run(actions).inv(),
    decreases actions.len(),
{
    if actions.len() > 0 {
        lemma_event_run(s, actions.drop_last());
        lemma_event_step(s.run(actions.drop_last()), actions.last());
    }
}

/// No event is lost or spoiled: from a ring that was just made on, whatever the
/// publisher and other subscribers did, and whoever came or went, a subscriber
/// was shown every event since its start, once, in order and as it was
/// published, and finds all that is left to process.
pub proof fn lemma_event_nothing_lost<T>(
    ring: EventView<T>,
    actions: Seq<EventAction<T>>,
    i: int,
)
    requires
        ring.wf(),
        ring.log.len() == 0,
        ring.cells.len() == 0,
        ring.gates.len() == 0,
        ({
            let publisher = EventPublisherView { seq: 0, cached_slowest: 0 };
            EventState { publisher, ring, readers: Seq::empty() }.run(actions).present(i)
        }),
    ensures
        ({
            let publisher = EventPublisherView { seq: 0, cached_slowest: 0 };
            let s = EventState { publisher, ring, readers: Seq::empty() }.run(actions);
            let r = s.reader(i);
            &&& r.seen == s.ring.log.subrange(r.start as int, r.view.cursor as int)
            &&& forall|n: nat|
                r.view.cursor <= n < s.ring.log.len() ==> #[trigger] s.ring.slot_value(n)
                    == s.ring.log[n as int]
        }),
{
    let publisher = EventPublisherView { seq: 0, cached_slowest: 0 };
    let fresh = EventState { publisher, ring, readers: Seq::empty() };
    let s = fresh.run(actions);
    lemma_event_run(fresh, actions);
    let r = s.reader(i);
    assert(s.reader_ok(r));
    assert forall|n: nat| r.view.cursor <= n < s.ring.log.len() implies #[trigger] s.ring.slot_value(
        n,
    ) == s.ring.log[n as int] by {
        assert(s.ring.kept(n));
    }
}

} // verus!
