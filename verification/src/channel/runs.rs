//! Whole runs of a channel with one publisher: any number of subscribers that
//! come, read and go in any order.

use crate::backpressure::{lemma_slowest, BackpressureView};
use crate::channel::bounded_laws::{lemma_looked_keeps, lemma_prune_gates, lemma_release};
use crate::channel::laws::{lemma_publish_appends, lemma_settled_outcome};
use crate::channel::publisher::{lemma_publish_wf, PublisherView};
use crate::channel::subscriber::{lemma_moved_cell, Outcome, SubscriberView};
use crate::ring::{fresh_ring, RingView};
use crate::slot::SEQ_LIMIT;
use crate::steps::lemma_same_history;
use vstd::prelude::*;

verus! {

/// Something that happens on a channel.
pub enum Action<T> {
    /// The publisher tries to publish.
    TryPublish(T),
    /// The publisher looks for room.
    Look,
    Subscribe,
    SubscribeLossy,
    SubscribeTracked,
    SubscribeFromOldest,
    /// A subscriber tries to receive, and shows where it is.
    Read(int),
    /// A subscriber goes away.
    Unsubscribe(int),
}

/// A subscriber, with what it has received.
#[verifier::ext_equal]
pub struct Reader {
    pub view: SubscriberView,
    /// Where it started.
    pub start: nat,
    /// The sequences that it received.
    pub got: Seq<nat>,
    /// The publisher waits for it, and did from its start on.
    pub kept: bool,
}

/// A channel with all who work on it.
pub struct ChannelState<T> {
    pub publisher: PublisherView,
    pub ring: RingView<T>,
    /// The subscribers in the order in which they came. Those who are gone leave
    /// their place empty.
    pub readers: Seq<Option<Reader>>,
}

impl Reader {
    /// A subscriber that has received nothing yet.
    pub open spec fn fresh(start: nat, tracker: Option<int>, kept: bool) -> Self {
        Reader {
            view: SubscriberView::fresh(start, tracker),
            start,
            got: Seq::empty(),
            kept,
        }
    }

    /// The subscriber after a read.
    pub open spec fn after<T>(self, outcome: Outcome<T>) -> Self {
        Reader {
            view: self.view.after(outcome),
            got: if outcome is Got {
                self.got.push(self.view.cursor)
            } else {
                self.got
            },
            ..self
        }
    }
}

impl<T> ChannelState<T> {
    /// A channel that was just made.
    pub open spec fn fresh(capacity: nat, backpressure: Option<BackpressureView>) -> Self {
        ChannelState {
            publisher: PublisherView { seq: 0, cached_slowest: 0 },
            ring: fresh_ring::<T>(capacity, backpressure, false),
            readers: Seq::empty(),
        }
    }

    /// There is a subscriber at place `i`.
    pub open spec fn present(self, i: int) -> bool {
        0 <= i < self.readers.len() && self.readers[i] is Some
    }

    /// The subscriber at place `i`.
    pub open spec fn reader(self, i: int) -> Reader {
        self.readers[i]->0
    }

    /// A new subscriber at the end.
    pub open spec fn join(self, ring: RingView<T>, reader: Reader) -> Self {
        ChannelState { ring, readers: self.readers.push(Some(reader)), ..self }
    }

    /// The channel after an action. An action of a subscriber that is not there
    /// changes nothing, nor does a publication that no sequence is left for.
    pub open spec fn step(self, action: Action<T>) -> Self {
        let ring = self.ring;
        let gate = Some(ring.cells.len() as int);
        let bounded = ring.backpressure is Some;
        match action {
            Action::TryPublish(value) => if ring.next() + 1 >= SEQ_LIMIT {
                self
            } else if self.publisher.has_room(ring) {
                ChannelState {
                    publisher: self.publisher.published(ring),
                    ring: self.publisher.ring_published(ring, value),
                    ..self
                }
            } else {
                self.step_look()
            },
            Action::Look => self.step_look(),
            Action::Subscribe => self.join(
                ring.registered(ring.future()),
                Reader::fresh(
                    ring.future(),
                    if bounded {
                        gate
                    } else {
                        None
                    },
                    bounded,
                ),
            ),
            Action::SubscribeLossy => self.join(ring, Reader::fresh(ring.future(), None, false)),
            Action::SubscribeTracked => self.join(
                ring.watched(ring.future()),
                Reader::fresh(ring.future(), gate, bounded),
            ),
            Action::SubscribeFromOldest => self.join(
                ring.registered(ring.oldest()),
                Reader::fresh(
                    ring.oldest(),
                    if bounded {
                        gate
                    } else {
                        None
                    },
                    false,
                ),
            ),
            Action::Read(i) => if self.present(i) {
                let outcome = ring.outcome(self.reader(i).view.cursor);
                ChannelState {
                    ring: self.reader(i).view.ring_after(ring, outcome),
                    readers: self.readers.update(i, Some(self.reader(i).after(outcome))),
                    ..self
                }
            } else {
                self
            },
            Action::Unsubscribe(i) => if self.present(i) {
                ChannelState {
                    ring: match self.reader(i).view.tracker {
                        Some(cell) => ring.release(cell),
                        None => ring,
                    },
                    readers: self.readers.update(i, None),
                    ..self
                }
            } else {
                self
            },
        }
    }

    /// The channel after the publisher has looked for room.
    pub open spec fn step_look(self) -> Self {
        ChannelState {
            publisher: self.publisher.looked(self.ring),
            ring: self.publisher.ring_looked(self.ring),
            ..self
        }
    }

    /// The channel after a series of actions.
    pub open spec fn run(self, actions: Seq<Action<T>>) -> Self
        decreases actions.len(),
    {
        if actions.len() == 0 {
            self
        } else {
            self.run(actions.drop_last()).step(actions.last())
        }
    }

    /// What holds of a subscriber: all that went by since its start was received
    /// or is counted as lost; what was received came in order; and if the
    /// publisher waits for it, everything was received.
    pub open spec fn reader_ok(self, r: Reader) -> bool {
        let v = r.view;
        &&& r.start <= v.cursor <= self.ring.next()
        &&& v.received + v.lagged == v.cursor - r.start
        &&& r.got.len() == v.received
        &&& forall|k: int|
            0 <= k < r.got.len() ==> r.start <= #[trigger] r.got[k] < v.cursor
        &&& forall|j: int, k: int|
            0 <= j < k < r.got.len() ==> #[trigger] r.got[j] < #[trigger] r.got[k]
        &&& v.tracker matches Some(cell) ==> 0 <= cell < self.ring.cells.len()
            && self.ring.cells[cell] == v.cursor
        &&& r.kept ==> {
            &&& v.tracker matches Some(cell) && self.ring.gated_by(cell)
            &&& self.publisher.cached_slowest <= v.cursor
            &&& self.ring.next() + self.ring.backpressure->0.watermark <= v.cursor
                + self.ring.capacity
            &&& v.lagged == 0
            &&& forall|k: int| 0 <= k < r.got.len() ==> #[trigger] r.got[k] == r.start + k
        }
    }

    /// Two subscribers do not share a position.
    pub open spec fn apart(self, i: int, j: int) -> bool {
        self.reader(i).view.tracker is Some && self.reader(j).view.tracker is Some
            ==> self.reader(i).view.tracker != self.reader(j).view.tracker
    }

    /// What holds in every state of a channel.
    pub open spec fn inv(self) -> bool {
        &&& self.ring.wf()
        &&& self.ring.settled()
        &&& self.publisher.seq == self.ring.next()
        &&& self.publisher.cached_slowest <= self.publisher.seq
        &&& forall|c: int|
            0 <= c < self.ring.cells.len() ==> #[trigger] self.ring.cells[c] <= self.ring.next()
        &&& forall|i: int| #[trigger] self.present(i) ==> self.reader_ok(self.reader(i))
        &&& forall|i: int, j: int|
            #![trigger self.present(i), self.present(j)]
            self.present(i) && self.present(j) && i != j ==> self.apart(i, j)
    }
}

/// A channel that was just made is in order.
pub proof fn lemma_fresh_channel<T>(capacity: nat, backpressure: Option<BackpressureView>)
    requires
        2 <= capacity <= SEQ_LIMIT,
        backpressure matches Some(bp) ==> bp.watermark < capacity && bp.gates.len() == 0,
    ensures
        ChannelState::<T>::fresh(capacity, backpressure).inv(),
{
}

/// A subscriber that is kept has room in front of it where the publisher sees
/// room, and the publisher still waits for it after a look.
proof fn lemma_kept_has_room<T>(s: ChannelState<T>, i: int)
    requires
        s.inv(),
        s.present(i),
        s.reader(i).kept,
    ensures
        ({
            let v = s.reader(i).view;
            &&& s.step_look().ring.gated_by(v.tracker->0)
            &&& s.publisher.looked(s.ring).cached_slowest <= v.cursor
            &&& s.publisher.has_room(s.ring) ==> s.ring.next() < v.cursor + s.ring.window()
        }),
{
    let cell = s.reader(i).view.tracker->0;
    let bp = s.ring.backpressure->0;
    assert(s.reader_ok(s.reader(i)));
    assert(s.ring.gated_by(cell));
    lemma_prune_gates(s.ring);
    lemma_slowest(bp.gates, s.ring.cells);
    let k = choose|k: int|
        0 <= k < bp.gates.len() && (#[trigger] bp.gates[k]).live && bp.gates[k].cell == cell;
    assert(bp.gates[k].live);
}

/// Looking for room leaves the channel in order.
proof fn lemma_look<T>(s: ChannelState<T>)
    requires
        s.inv(),
    ensures
        s.step_look().inv(),
{
    let n = s.step_look();
    lemma_looked_keeps(s.publisher, s.ring);
    if s.publisher.must_scan(s.ring) && s.ring.slowest() is Some {
        let bp = s.ring.backpressure->0;
        lemma_slowest(bp.gates, s.ring.cells);
        let k = choose|k: int|
            0 <= k < bp.gates.len() && (#[trigger] bp.gates[k]).live
                && s.ring.cells[bp.gates[k].cell] == s.ring.slowest()->0;
        assert(0 <= bp.gates[k].cell < s.ring.cells.len());
    }
    assert forall|i: int| #[trigger] n.present(i) implies n.reader_ok(n.reader(i)) by {
        assert(s.present(i));
        if s.reader(i).kept {
            lemma_kept_has_room(s, i);
        }
    }
    assert forall|i: int, j: int|
        #![trigger n.present(i), n.present(j)]
        n.present(i) && n.present(j) && i != j implies n.apart(i, j) by {
        assert(s.present(i) && s.present(j));
    }
}

/// A publication leaves the channel in order.
proof fn lemma_publication<T>(s: ChannelState<T>, value: T)
    requires
        s.inv(),
        s.ring.next() + 1 < SEQ_LIMIT,
        s.publisher.has_room(s.ring),
    ensures
        s.step(Action::TryPublish(value)).inv(),
{
    let looked = s.step_look();
    let n = s.step(Action::TryPublish(value));
    lemma_look(s);
    lemma_publish_wf(looked.ring, value);
    lemma_publish_appends(looked.ring, value);
    assert forall|i: int| #[trigger] n.present(i) implies n.reader_ok(n.reader(i)) by {
        assert(s.present(i));
        assert(s.reader_ok(s.reader(i)));
        if s.reader(i).kept {
            lemma_kept_has_room(s, i);
            let cell = s.reader(i).view.tracker->0;
            let bp = looked.ring.backpressure->0;
            let k = choose|k: int|
                0 <= k < bp.gates.len() && (#[trigger] bp.gates[k]).live && bp.gates[k].cell
                    == cell;
            assert(n.ring.backpressure->0.gates[k].live);
            assert(n.ring.gated_by(cell));
        }
    }
    assert forall|i: int, j: int|
        #![trigger n.present(i), n.present(j)]
        n.present(i) && n.present(j) && i != j implies n.apart(i, j) by {
        assert(s.present(i) && s.present(j));
    }
}

/// A subscriber that joins leaves the channel in order.
proof fn lemma_join<T>(s: ChannelState<T>, start: nat, tracker: bool, gate: bool, kept: bool)
    requires
        s.inv(),
        start <= s.ring.next(),
        gate ==> tracker && s.ring.backpressure is Some,
        kept ==> gate && start == s.ring.next(),
    ensures
        ({
            let ring = if gate {
                s.ring.add_gate(start as u64)
            } else if tracker {
                s.ring.add_cell(start as u64)
            } else {
                s.ring
            };
            let cell = if tracker {
                Some(s.ring.cells.len() as int)
            } else {
                None
            };
            s.join(ring, Reader::fresh(start, cell, kept)).inv()
        }),
{
    let ring = if gate {
        s.ring.add_gate(start as u64)
    } else if tracker {
        s.ring.add_cell(start as u64)
    } else {
        s.ring
    };
    let cell = if tracker {
        Some(s.ring.cells.len() as int)
    } else {
        None
    };
    let n = s.join(ring, Reader::fresh(start, cell, kept));
    let last = s.readers.len() as int;
    lemma_same_history(s.ring, ring);
    assert forall|k: nat| k < ring.next() implies #[trigger] ring.done(k) by {
        assert(s.ring.done(k));
    }
    if gate {
        let gates = ring.backpressure->0.gates;
        assert(gates.last().live);
        assert(ring.gated_by(s.ring.cells.len() as int));
        assert forall|c: int| #[trigger] s.ring.gated_by(c) implies ring.gated_by(c) by {
            let bp = s.ring.backpressure->0;
            let k = choose|k: int|
                0 <= k < bp.gates.len() && (#[trigger] bp.gates[k]).live && bp.gates[k].cell == c;
            assert(gates[k].live);
        }
    }
    assert forall|i: int| #[trigger] n.present(i) implies n.reader_ok(n.reader(i)) by {
        if i < last {
            assert(s.present(i));
            assert(s.reader_ok(s.reader(i)));
            if s.reader(i).kept {
                assert(s.ring.gated_by(s.reader(i).view.tracker->0));
            }
        }
    }
    assert forall|i: int, j: int|
        #![trigger n.present(i), n.present(j)]
        n.present(i) && n.present(j) && i != j implies n.apart(i, j) by {
        if i < last {
            assert(s.present(i));
            assert(s.reader_ok(s.reader(i)));
        }
        if j < last {
            assert(s.present(j));
            assert(s.reader_ok(s.reader(j)));
        }
    }
}

/// A read leaves the channel in order.
proof fn lemma_read<T>(s: ChannelState<T>, at: int)
    requires
        s.inv(),
        s.present(at),
    ensures
        s.step(Action::Read(at)).inv(),
{
    let r = s.reader(at);
    let v = r.view;
    let outcome = s.ring.outcome(v.cursor);
    let n = s.step(Action::Read(at));
    assert(s.reader_ok(r));
    lemma_settled_outcome(s.ring, v.cursor);
    if let Some(cell) = v.tracker {
        lemma_moved_cell(s.ring, cell, v.after(outcome).cursor as u64);
    }
    lemma_same_history(s.ring, n.ring);
    assert forall|c: int| #[trigger] s.ring.gated_by(c) implies n.ring.gated_by(c) by {
        assert(n.ring.backpressure == s.ring.backpressure);
    }
    assert forall|i: int| #[trigger] n.present(i) implies n.reader_ok(n.reader(i)) by {
        assert(s.present(i));
        assert(s.reader_ok(s.reader(i)));
        if s.reader(i).kept {
            assert(s.ring.gated_by(s.reader(i).view.tracker->0));
        }
        if i != at {
            assert(s.apart(i, at));
        }
    }
    assert forall|i: int, j: int|
        #![trigger n.present(i), n.present(j)]
        n.present(i) && n.present(j) && i != j implies n.apart(i, j) by {
        assert(s.present(i) && s.present(j));
        assert(s.apart(i, j));
    }
}

/// A subscriber that goes leaves the channel in order.
proof fn lemma_leave<T>(s: ChannelState<T>, at: int)
    requires
        s.inv(),
        s.present(at),
    ensures
        s.step(Action::Unsubscribe(at)).inv(),
{
    let v = s.reader(at).view;
    let n = s.step(Action::Unsubscribe(at));
    if let Some(bp) = s.ring.backpressure {
        if let Some(cell) = v.tracker {
            let gates = n.ring.backpressure->0.gates;
            assert forall|k: int| 0 <= k < gates.len() implies 0 <= (#[trigger] gates[k]).cell
                < n.ring.cells.len() by {
                assert(gates[k].cell == bp.gates[k].cell);
            }
        }
    }
    lemma_same_history(s.ring, n.ring);
    assert forall|k: nat| k < n.ring.next() implies #[trigger] n.ring.done(k) by {
        assert(s.ring.done(k));
    }
    assert forall|i: int| #[trigger] n.present(i) implies n.reader_ok(n.reader(i)) by {
        assert(s.present(i) && i != at);
        assert(s.reader_ok(s.reader(i)));
        assert(s.apart(i, at));
        if s.reader(i).kept && v.tracker is Some {
            lemma_release(s.ring, v.tracker->0, s.reader(i).view.tracker->0);
        }
    }
    assert forall|i: int, j: int|
        #![trigger n.present(i), n.present(j)]
        n.present(i) && n.present(j) && i != j implies n.apart(i, j) by {
        assert(s.present(i) && s.present(j));
        assert(s.apart(i, j));
    }
}

/// Whatever happens on a channel leaves it in order.
pub proof fn lemma_step<T>(s: ChannelState<T>, action: Action<T>)
    requires
        s.inv(),
    ensures
        s.step(action).inv(),
{
    let bounded = s.ring.backpressure is Some;
    match action {
        Action::TryPublish(value) => {
            if s.ring.next() + 1 < SEQ_LIMIT && s.publisher.has_room(s.ring) {
                lemma_publication(s, value);
            }
            lemma_look(s);
        },
        Action::Look => {
            lemma_look(s);
        },
        Action::Subscribe => {
            lemma_join(s, s.ring.future(), bounded, bounded, bounded);
        },
        Action::SubscribeLossy => {
            lemma_join(s, s.ring.future(), false, false, false);
        },
        Action::SubscribeTracked => {
            lemma_join(s, s.ring.future(), true, bounded, bounded);
        },
        Action::SubscribeFromOldest => {
            lemma_join(s, s.ring.oldest(), bounded, bounded, false);
        },
        Action::Read(i) => {
            if s.present(i) {
                lemma_read(s, i);
            }
        },
        Action::Unsubscribe(i) => {
            if s.present(i) {
                lemma_leave(s, i);
            }
        },
    }
}

/// Every state that a channel gets into is in order.
pub proof fn lemma_run<T>(s: ChannelState<T>, actions: Seq<Action<T>>)
    requires
        s.inv(),
    ensures
        s.run(actions).inv(),
    decreases actions.len(),
{
    if actions.len() > 0 {
        lemma_run(s, actions.drop_last());
        lemma_step(s.run(actions.drop_last()), actions.last());
    }
}

/// A channel keeps the number of slots and the headroom that it was made with.
pub proof fn lemma_make_kept<T>(s: ChannelState<T>, actions: Seq<Action<T>>)
    ensures
        s.run(actions).ring.capacity == s.ring.capacity,
        s.run(actions).ring.multi_producer == s.ring.multi_producer,
        s.run(actions).ring.backpressure is Some == s.ring.backpressure is Some,
        s.run(actions).ring.backpressure matches Some(bp) ==> bp.watermark
            == s.ring.backpressure->0.watermark,
    decreases actions.len(),
{
    if actions.len() > 0 {
        lemma_make_kept(s, actions.drop_last());
    }
}

/// Headroom: whatever happens on a bounded channel, of the slots that it was made with
/// as many stay free as were asked for. What a subscriber that the publisher waits
/// for has not read never exceeds the rest.
pub proof fn lemma_headroom_kept<T>(
    capacity: nat,
    watermark: nat,
    actions: Seq<Action<T>>,
    i: int,
)
    requires
        2 <= capacity <= SEQ_LIMIT,
        watermark < capacity,
        ({
            let bp = BackpressureView { watermark, gates: Seq::empty() };
            let s = ChannelState::fresh(capacity, Some(bp)).run(actions);
            s.present(i) && s.reader(i).kept
        }),
    ensures
        ({
            let bp = BackpressureView { watermark, gates: Seq::empty() };
            let s = ChannelState::fresh(capacity, Some(bp)).run(actions);
            s.ring.next() - s.reader(i).view.cursor <= capacity - watermark
        }),
{
    let bp = BackpressureView { watermark, gates: Seq::empty() };
    let fresh = ChannelState::<T>::fresh(capacity, Some(bp));
    lemma_fresh_channel::<T>(capacity, Some(bp));
    lemma_run(fresh, actions);
    lemma_make_kept(fresh, actions);
    let s = fresh.run(actions);
    assert(s.reader_ok(s.reader(i)));
}

/// No loss: whatever the publisher and other subscribers did, and whoever came
/// or went, a subscriber of a bounded channel has received every message since
/// its start, each one once and in order, and finds all that is left to read.
pub proof fn lemma_nothing_lost<T>(
    capacity: nat,
    backpressure: BackpressureView,
    actions: Seq<Action<T>>,
    i: int,
)
    requires
        2 <= capacity <= SEQ_LIMIT,
        backpressure.watermark < capacity,
        backpressure.gates.len() == 0,
        ({
            let s = ChannelState::fresh(capacity, Some(backpressure)).run(actions);
            s.present(i) && s.reader(i).kept
        }),
    ensures
        ({
            let s = ChannelState::fresh(capacity, Some(backpressure)).run(actions);
            let r = s.reader(i);
            &&& r.view.lagged == 0
            &&& r.got == Seq::new((r.view.cursor - r.start) as nat, |k: int| r.start + k as nat)
            &&& r.view.cursor < s.ring.next() ==> s.ring.outcome(r.view.cursor) == Outcome::Got(
                s.ring.log()[r.view.cursor as int],
            )
        }),
{
    let fresh = ChannelState::<T>::fresh(capacity, Some(backpressure));
    let s = fresh.run(actions);
    lemma_fresh_channel::<T>(capacity, Some(backpressure));
    lemma_run(fresh, actions);
    let r = s.reader(i);
    assert(s.reader_ok(r));
    lemma_settled_outcome(s.ring, r.view.cursor);
    assert(r.got =~= Seq::new((r.view.cursor - r.start) as nat, |k: int| r.start + k as nat));
}

/// Exact accounting: on any channel, bounded or not, what a subscriber received
/// and what it is told to have lost add up to what went by since its start, and
/// what it received came in the order of publication, nothing twice.
pub proof fn lemma_all_accounted<T>(
    capacity: nat,
    backpressure: Option<BackpressureView>,
    actions: Seq<Action<T>>,
    i: int,
)
    requires
        2 <= capacity <= SEQ_LIMIT,
        backpressure matches Some(bp) ==> bp.watermark < capacity && bp.gates.len() == 0,
        ChannelState::fresh(capacity, backpressure).run(actions).present(i),
    ensures
        ({
            let s = ChannelState::fresh(capacity, backpressure).run(actions);
            let r = s.reader(i);
            &&& r.view.received + r.view.lagged == r.view.cursor - r.start
            &&& r.view.received == r.got.len()
            &&& r.view.cursor <= s.ring.next()
            &&& forall|j: int, k: int|
                0 <= j < k < r.got.len() ==> r.start <= #[trigger] r.got[j] < #[trigger] r.got[k]
                    < r.view.cursor
        }),
{
    let fresh = ChannelState::<T>::fresh(capacity, backpressure);
    let s = fresh.run(actions);
    lemma_fresh_channel::<T>(capacity, backpressure);
    lemma_run(fresh, actions);
    assert(s.reader_ok(s.reader(i)));
}

} // verus!
