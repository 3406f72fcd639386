//! A ring whose slots own their values and are changed in place.
//!
//! Nothing is copied into or out of the ring, so a payload may own heap data.
//! In exchange every subscriber gates the publisher: a slot is not touched
//! while a subscriber has not read it.

use crate::backpressure::{
    gates_within, lemma_filter_gates, lemma_slowest, lemma_slowest_of_live, live_gates, release_gates, slowest,
    BackpressureState, GateView, Tracker, TrackerTable,
};
use crate::index::{lemma_slot_apart, lemma_slot_lap, slot_of, RingIndex};
use crate::ring::Padded;
use crate::slot::SEQ_LIMIT;
use core::marker::PhantomData;
use vstd::arithmetic::div_mod::lemma_small_mod;
use vstd::prelude::*;

verus! {

/// An event ring as contracts see it.
#[verifier::ext_equal]
pub struct EventView<T> {
    pub capacity: nat,
    /// Every message published so far, as it was when it was published.
    pub log: Seq<T>,
    /// What the slots were filled with at the start.
    pub made: Seq<T>,
    /// What the slots hold now.
    pub slots: Seq<T>,
    /// The positions of subscribers.
    pub cells: Seq<u64>,
    /// The subscribers that the publisher waits for.
    pub gates: Seq<GateView>,
}

impl<T> EventView<T> {
    /// The value in the slot of `seq`.
    pub open spec fn slot_value(self, seq: nat) -> T {
        self.slots[slot_of(seq, self.capacity) as int]
    }

    /// Message `seq` is still in its slot.
    pub open spec fn kept(self, seq: nat) -> bool {
        seq < self.log.len() <= seq + self.capacity
    }

    /// What the next publication finds in its slot: what the slot was filled with
    /// on the first lap, and what the publication one lap before left later on.
    pub open spec fn before_publish(self) -> T {
        if self.log.len() < self.capacity {
            self.made[self.log.len() as int]
        } else {
            self.log[self.log.len() - self.capacity]
        }
    }

    /// The publisher has to wait for the subscriber on `cell`.
    pub open spec fn gated_by(self, cell: int) -> bool {
        exists|i: int|
            0 <= i < self.gates.len() && (#[trigger] self.gates[i]).live && self.gates[i].cell
                == cell
    }

    /// What holds of every event ring.
    pub open spec fn wf(self) -> bool {
        &&& 2 <= self.capacity <= SEQ_LIMIT
        &&& self.slots.len() == self.capacity
        &&& self.made.len() == self.capacity
        &&& forall|n: int|
            self.log.len() <= n < self.capacity ==> #[trigger] self.slots[n] == self.made[n]
        &&& self.log.len() < SEQ_LIMIT
        &&& forall|n: nat| #[trigger]
            self.kept(n) ==> self.slot_value(n) == self.log[n as int]
        &&& forall|i: int| 0 <= i < self.cells.len() ==> #[trigger] self.cells[i] <= SEQ_LIMIT
        &&& gates_within(self.gates, self.cells)
    }

    /// The next message is published: its slot now holds `value`.
    pub open spec fn publish(self, value: T) -> Self {
        EventView {
            log: self.log.push(value),
            slots: self.slots.update(slot_of(self.log.len(), self.capacity) as int, value),
            ..self
        }
    }

    /// Dead gates are dropped.
    pub open spec fn prune(self) -> Self {
        EventView { gates: live_gates(self.gates), ..self }
    }

    /// A subscriber of future messages registers.
    pub open spec fn register(self) -> Self {
        EventView {
            cells: self.cells.push(self.log.len() as u64),
            gates: self.gates.push(GateView { cell: self.cells.len() as int, live: true }),
            ..self
        }
    }

    /// The subscriber on `cell` moves to `position`.
    pub open spec fn move_cell(self, cell: int, position: u64) -> Self {
        EventView { cells: self.cells.update(cell, position), ..self }
    }

    /// The subscriber on `cell` is gone.
    pub open spec fn release(self, cell: int) -> Self {
        EventView { gates: release_gates(self.gates, cell), ..self }
    }
}

/// Slots that own their values, with the cursor and the subscribers that the
/// publisher is gated by.
pub struct EventRing<T> {
    pub(crate) slots: Vec<T>,
    pub(crate) index: RingIndex,
    /// Sequence of the last message, `u64::MAX` before the first.
    pub(crate) cursor: Padded<u64>,
    pub(crate) gates: BackpressureState,
    pub(crate) trackers: TrackerTable,
    pub(crate) log: Ghost<Seq<T>>,
    pub(crate) made: Ghost<Seq<T>>,
}

impl<T> View for EventRing<T> {
    type V = EventView<T>;

    open(crate) spec fn view(&self) -> EventView<T> {
        EventView {
            capacity: self.index.slots(),
            log: self.log@,
            made: self.made@,
            slots: self.slots@,
            cells: self.trackers@,
            gates: self.gates@.gates,
        }
    }
}

impl<T> EventRing<T> {
    /// What holds of every event ring.
    pub open(crate) spec fn wf(&self) -> bool {
        &&& self@.wf()
        &&& self.index.wf()
        &&& self.gates@.watermark == 0
        &&& self.cursor.0 == (if self.log@.len() == 0 {
            u64::MAX as int
        } else {
            self.log@.len() - 1
        })
    }

    /// Number of slots.
    pub fn capacity(&self) -> (capacity: u64)
        ensures
            capacity == self@.capacity,
    {
        self.index.capacity
    }

    /// The lowest position among the subscribers, if there are any. Gates of
    /// subscribers that are gone are dropped on the way.
    pub fn slowest(&mut self) -> (position: Option<u64>)
        requires
            old(self).wf(),
        ensures
            final(self).wf(),
            position == slowest(old(self)@.gates, old(self)@.cells),
            final(self)@ == old(self)@.prune(),
    {
        proof {
            lemma_slowest_of_live(self@.gates, self@.cells);
        }
        let position = self.gates.scan(&self.trackers);
        proof {
            lemma_same_log(old(self)@, self@);
        }
        position
    }

    /// Number of messages published so far.
    fn published(&self) -> (count: u64)
        requires
            self.wf(),
        ensures
            count == self@.log.len(),
    {
        if self.cursor.0 == u64::MAX {
            0
        } else {
            self.cursor.0 + 1
        }
    }
}

/// What [`EventView::wf`] says of the messages depends on log, slots and what they
/// were filled with only.
pub(crate) proof fn lemma_same_log<T>(a: EventView<T>, b: EventView<T>)
    requires
        a.wf(),
        a.capacity == b.capacity,
        a.log == b.log,
        a.made == b.made,
        a.slots == b.slots,
        forall|i: int| 0 <= i < b.cells.len() ==> #[trigger] b.cells[i] <= SEQ_LIMIT,
        gates_within(b.gates, b.cells),
    ensures
        b.wf(),
{
    assert forall|n: nat| #[trigger] b.kept(n) implies b.slot_value(n) == b.log[n as int] by {
        assert(a.kept(n));
    }
}

/// Publishing keeps the ring well formed.
pub proof fn lemma_event_publish_wf<T>(r: EventView<T>, value: T)
    requires
        r.wf(),
        r.log.len() + 1 < SEQ_LIMIT,
    ensures
        r.publish(value).wf(),
{
    let n = r.publish(value);
    let seq = r.log.len();
    lemma_slot_lap(seq, r.capacity);
    if seq < r.capacity {
        lemma_small_mod(seq, r.capacity);
    }
    assert forall|k: nat| #[trigger] n.kept(k) implies n.slot_value(k) == n.log[k as int] by {
        lemma_slot_lap(k, r.capacity);
        if k < seq {
            assert(r.kept(k));
            if slot_of(k, r.capacity) == slot_of(seq, r.capacity) {
                lemma_slot_apart(k, seq, r.capacity);
            }
        }
    }
}

/// Values are made once and reused: publication `k` finds the `k`-th value that
/// was made if `k` is below the capacity, and otherwise the value as publication
/// `k - capacity` left it.
pub proof fn lemma_event_slot_reused<T>(r: EventView<T>)
    requires
        r.wf(),
    ensures
        r.slot_value(r.log.len()) == r.before_publish(),
{
    let k = r.log.len();
    lemma_slot_lap(k, r.capacity);
    if k < r.capacity {
        lemma_small_mod(k, r.capacity);
    } else {
        let last = (k - r.capacity) as nat;
        lemma_slot_lap(last, r.capacity);
        assert(r.kept(last));
    }
}

/// The write side of an event ring.
pub struct EventPublisher<T> {
    pub(crate) seq: u64,
    pub(crate) cached_slowest: u64,
    pub(crate) marker: PhantomData<T>,
}

/// An event publisher as contracts see it.
pub struct EventPublisherView {
    /// The sequence of the next message.
    pub seq: nat,
    pub cached_slowest: nat,
}

impl<T> View for EventPublisher<T> {
    type V = EventPublisherView;

    open(crate) spec fn view(&self) -> EventPublisherView {
        EventPublisherView { seq: self.seq as nat, cached_slowest: self.cached_slowest as nat }
    }
}

impl EventPublisherView {
    /// The publisher belongs to the ring.
    pub open spec fn bound<T>(self, ring: EventView<T>) -> bool {
        self.seq == ring.log.len() && self.cached_slowest <= SEQ_LIMIT
    }

    /// The cached position no longer tells that there is room.
    pub open spec fn must_scan<T>(self, ring: EventView<T>) -> bool {
        self.seq >= self.cached_slowest + ring.capacity
    }

    /// The next slot can be written without overtaking a subscriber, as far as
    /// the publisher knows.
    pub open spec fn has_room<T>(self, ring: EventView<T>) -> bool {
        self.must_scan(ring) ==> match slowest(ring.gates, ring.cells) {
            Some(position) => self.seq < position + ring.capacity,
            None => true,
        }
    }

    /// The publisher after it has looked for room.
    pub open spec fn looked<T>(self, ring: EventView<T>) -> Self {
        if self.must_scan(ring) {
            match slowest(ring.gates, ring.cells) {
                Some(position) => EventPublisherView { cached_slowest: position as nat, ..self },
                None => self,
            }
        } else {
            self
        }
    }

    /// The ring after the publisher has looked for room.
    pub open spec fn ring_looked<T>(self, ring: EventView<T>) -> EventView<T> {
        if self.must_scan(ring) {
            ring.prune()
        } else {
            ring
        }
    }

    /// The publisher after it has published a message.
    pub open spec fn published<T>(self, ring: EventView<T>) -> Self {
        EventPublisherView { seq: self.seq + 1, ..self.looked(ring) }
    }
}

/// `f` may be called on a reference to `value`.
pub open spec fn accepts<T, F: FnOnce(&mut T)>(f: F, value: T) -> bool {
    forall|p: &mut T| *p == value ==> #[trigger] f.requires((p,))
}

impl<T> EventPublisher<T> {
    /// Whether the next slot can be written without overtaking a subscriber.
    pub fn has_room(&mut self, ring: &mut EventRing<T>) -> (room: bool)
        requires
            old(ring).wf(),
            old(self)@.bound(old(ring)@),
        ensures
            final(ring).wf(),
            final(self)@.bound(final(ring)@),
            room == old(self)@.has_room(old(ring)@),
            final(self)@ == old(self)@.looked(old(ring)@),
            final(ring)@ == old(self)@.ring_looked(old(ring)@),
    {
        let capacity: u64 = ring.capacity();
        if self.seq >= self.cached_slowest + capacity {
            proof {
                lemma_slowest(ring@.gates, ring@.cells);
            }
            match ring.slowest() {
                Some(slowest) => {
                    self.cached_slowest = slowest;
                    if self.seq >= slowest + capacity {
                        return false;
                    }
                },
                None => {},
            }
        }
        true
    }

    /// Let `f` change the next slot and publish it. There must be room.
    pub fn publish(&mut self, ring: &mut EventRing<T>, f: impl FnOnce(&mut T))
        requires
            old(ring).wf(),
            old(self)@.bound(old(ring)@),
            old(self)@.seq + 1 < SEQ_LIMIT,
            old(self)@.has_room(old(ring)@),
            accepts(f, old(ring)@.slot_value(old(self)@.seq)),
        ensures
            final(ring).wf(),
            final(self)@.bound(final(ring)@),
            final(self)@ == old(self)@.published(old(ring)@),
            exists|p: &mut T|
                *p == old(ring)@.slot_value(old(self)@.seq) && #[trigger] f.ensures((p,), ())
                    && final(ring)@ == old(self)@.ring_looked(old(ring)@).publish(*final(p)),
    {
        let _ = self.has_room(ring);
        self.write(ring, f);
    }

    /// Let `f` change the next slot and publish it, or return `false` if that
    /// would overtake a subscriber.
    pub fn try_publish(&mut self, ring: &mut EventRing<T>, f: impl FnOnce(&mut T)) -> (done: bool)
        requires
            old(ring).wf(),
            old(self)@.bound(old(ring)@),
            old(self)@.seq + 1 < SEQ_LIMIT,
            accepts(f, old(ring)@.slot_value(old(self)@.seq)),
        ensures
            final(ring).wf(),
            final(self)@.bound(final(ring)@),
            done == old(self)@.has_room(old(ring)@),
            done ==> final(self)@ == old(self)@.published(old(ring)@) && exists|p: &mut T|
                *p == old(ring)@.slot_value(old(self)@.seq) && #[trigger] f.ensures((p,), ())
                    && final(ring)@ == old(self)@.ring_looked(old(ring)@).publish(*final(p)),
            !done ==> final(self)@ == old(self)@.looked(old(ring)@) && final(ring)@ == old(
                self,
            )@.ring_looked(old(ring)@),
    {
        if !self.has_room(ring) {
            return false;
        }
        self.write(ring, f);
        true
    }

    /// Let `f` change the next slot and announce it.
    fn write(&mut self, ring: &mut EventRing<T>, f: impl FnOnce(&mut T))
        requires
            old(ring).wf(),
            old(self)@.bound(old(ring)@),
            old(self)@.seq + 1 < SEQ_LIMIT,
            accepts(f, old(ring)@.slot_value(old(self)@.seq)),
        ensures
            final(ring).wf(),
            final(self)@.bound(final(ring)@),
            final(self)@ == (EventPublisherView { seq: old(self)@.seq + 1, ..old(self)@ }),
            exists|p: &mut T|
                *p == old(ring)@.slot_value(old(self)@.seq) && #[trigger] f.ensures((p,), ())
                    && final(ring)@ == old(ring)@.publish(*final(p)),
    {
        let ghost before = ring@;
        let slot: usize = ring.index.slot(self.seq);
        let place: &mut T = &mut ring.slots[slot];
        f(place);
        let ghost value = ring.slots@[slot as int];
        ring.cursor = Padded(self.seq);
        ring.log = Ghost(before.log.push(value));
        proof {
            lemma_event_publish_wf(before, value);
            assert(ring@ =~= before.publish(value));
        }
        self.seq = self.seq + 1;
    }

    /// Number of messages published so far.
    pub fn published(&self) -> (count: u64)
        ensures
            count == self@.seq,
    {
        self.seq
    }

    /// Number of slots of the ring.
    pub fn capacity(&self, ring: &EventRing<T>) -> (capacity: u64)
        ensures
            capacity == ring@.capacity,
    {
        ring.capacity()
    }
}

/// A handle from which any number of event subscribers are made.
pub struct EventSubscribable<T> {
    pub(crate) marker: PhantomData<T>,
}

impl<T> Clone for EventSubscribable<T> {
    fn clone(&self) -> (handle: Self)
        ensures
            handle == *self,
    {
        EventSubscribable { marker: PhantomData }
    }
}

/// The read side of an event ring. A message is read in place.
pub struct EventSubscriber<T> {
    pub(crate) cursor: u64,
    pub(crate) tracker: Tracker,
    pub(crate) marker: PhantomData<T>,
}

/// An event subscriber as contracts see it.
pub struct EventSubscriberView {
    /// The sequence that will be read next.
    pub cursor: nat,
    pub cell: int,
}

impl<T> View for EventSubscriber<T> {
    type V = EventSubscriberView;

    open(crate) spec fn view(&self) -> EventSubscriberView {
        EventSubscriberView { cursor: self.cursor as nat, cell: self.tracker@ }
    }
}

impl EventSubscriberView {
    /// The subscriber belongs to the ring.
    pub open spec fn bound<T>(self, ring: EventView<T>) -> bool {
        self.cursor <= ring.log.len() && 0 <= self.cell < ring.cells.len()
    }

    /// The publisher has to wait for this subscriber, which shows where it is.
    pub open spec fn gates<T>(self, ring: EventView<T>) -> bool {
        &&& self.bound(ring)
        &&& ring.gated_by(self.cell)
        &&& ring.cells[self.cell] == self.cursor
    }
}

impl<T> EventSubscribable<T> {
    /// A subscriber of future messages. The publisher waits for it.
    pub fn subscribe(&self, ring: &mut EventRing<T>) -> (sub: EventSubscriber<T>)
        requires
            old(ring).wf(),
        ensures
            final(ring).wf(),
            sub@.bound(final(ring)@),
            final(ring)@ == old(ring)@.register(),
            sub@ == (EventSubscriberView {
                cursor: old(ring)@.log.len(),
                cell: old(ring)@.cells.len() as int,
            }),
    {
        let start: u64 = ring.published();
        let tracker = ring.trackers.register(start);
        ring.gates.add(tracker);
        proof {
            lemma_same_log(old(ring)@, ring@);
        }
        EventSubscriber { cursor: start, tracker, marker: PhantomData }
    }
}

impl<T> EventSubscriber<T> {
    /// Run `f` on the next message, if there is one, and release its slot.
    pub fn process<R>(&mut self, ring: &mut EventRing<T>, f: impl FnOnce(&T) -> R) -> (r: Option<R>)
        requires
            old(ring).wf(),
            old(self)@.bound(old(ring)@),
            old(self)@.cursor < old(ring)@.log.len() ==> f.requires(
                (&old(ring)@.slot_value(old(self)@.cursor),),
            ),
        ensures
            final(ring).wf(),
            final(self)@.bound(final(ring)@),
            r is Some == (old(self)@.cursor < old(ring)@.log.len()),
            r matches Some(out) ==> {
                &&& f.ensures((&old(ring)@.slot_value(old(self)@.cursor),), out)
                &&& final(self)@ == (EventSubscriberView {
                    cursor: old(self)@.cursor + 1,
                    ..old(self)@
                })
                &&& final(ring)@ == old(ring)@.move_cell(
                    old(self)@.cell,
                    (old(self)@.cursor + 1) as u64,
                )
            },
            r is None ==> final(self)@ == old(self)@ && final(ring)@ == old(ring)@,
    {
        if self.cursor >= ring.published() {
            return None;
        }
        let slot: usize = ring.index.slot(self.cursor);
        let out = f(&ring.slots[slot]);
        self.cursor = self.cursor + 1;
        ring.trackers.store(self.tracker, self.cursor);
        proof {
            lemma_same_log(old(ring)@, ring@);
        }
        Some(out)
    }

    /// The sequence that will be read next.
    pub fn cursor(&self) -> (cursor: u64)
        ensures
            cursor == self@.cursor,
    {
        self.cursor
    }

    /// Messages published but not processed yet.
    pub fn pending(&self, ring: &EventRing<T>) -> (count: u64)
        requires
            ring.wf(),
            self@.bound(ring@),
        ensures
            count == ring@.log.len() - self@.cursor,
    {
        ring.published() - self.cursor
    }

    /// The subscriber goes away, and no longer gates the publisher.
    pub fn unsubscribe(self, ring: &mut EventRing<T>)
        requires
            old(ring).wf(),
        ensures
            final(ring).wf(),
            final(ring)@ == old(ring)@.release(self@.cell),
    {
        let ghost before = ring@.gates;
        ring.gates.release(self.tracker);
        proof {
            assert forall|i: int| 0 <= i < ring@.gates.len() implies 0 <= (
            #[trigger] ring@.gates[i]).cell < ring@.cells.len() by {
                assert(ring@.gates[i].cell == before[i].cell);
            }
            lemma_same_log(old(ring)@, ring@);
        }
    }
}

/// Somebody who makes values one after the other. Whether another one can be made and
/// how the maker changes with that is its own affair.
pub trait Maker<T>: Sized {
    /// Another value can be made.
    spec fn ready(&self) -> bool;

    /// Making the value makes the maker `after`.
    spec fn makes(&self, value: T, after: &Self) -> bool;

    /// Make one value.
    fn make(&mut self) -> (value: T)
        requires
            old(self).ready(),
        ensures
            old(self).makes(value, final(self)),
    ;
}

impl<T, F: FnMut() -> T> Maker<T> for F {
    open spec fn ready(&self) -> bool {
        self.requires(())
    }

    open spec fn makes(&self, value: T, after: &Self) -> bool {
        self.ensures((), value) && *after == *self
    }

    fn make(&mut self) -> (value: T) {
        self()
    }
}

/// So many values can be made, and no more are promised.
pub open spec fn ready_times<T, M: Maker<T>>(maker: M, count: nat) -> bool
    decreases count,
{
    count > 0 ==> {
        &&& maker.ready()
        &&& forall|value: T, after: M| #[trigger]
            maker.makes(value, &after) ==> ready_times::<T, M>(after, (count - 1) as nat)
    }
}

/// Making these values, one after the other, makes a maker `after`.
pub open spec fn makes_all<T, M: Maker<T>>(maker: M, values: Seq<T>, after: M) -> bool
    decreases values.len(),
{
    if values.len() == 0 {
        after == maker
    } else {
        exists|mid: M|
            makes_all(maker, values.drop_last(), mid) && #[trigger] mid.makes(
                values.last(),
                &after,
            )
    }
}

/// A function that may be called can make any number of values, and each of them is
/// one that it returned.
pub proof fn lemma_function_maker<T, F: FnMut() -> T>(f: F, values: Seq<T>, after: F)
    requires
        f.requires(()),
    ensures
        ready_times::<T, F>(f, values.len()),
        makes_all(f, values, after) ==> after == f && forall|k: int|
            0 <= k < values.len() ==> f.ensures((), #[trigger] values[k]),
    decreases values.len(),
{
    if values.len() > 0 {
        lemma_function_maker(f, values.drop_first(), after);
        if makes_all(f, values, after) {
            let mid = choose|mid: F|
                makes_all(f, values.drop_last(), mid) && #[trigger] mid.makes(
                    values.last(),
                    &after,
                );
            lemma_function_maker(f, values.drop_last(), mid);
            assert forall|k: int| 0 <= k < values.len() implies f.ensures(
                (),
                #[trigger] values[k],
            ) by {
                if k < values.len() - 1 {
                    assert(values.drop_last()[k] == values[k]);
                }
            }
        }
    }
}

/// An event ring of `capacity` values, each made by `factory`: as many values as there
/// are slots, one after the other in the order of the slots. What this comes to for a
/// function is said in [`lemma_function_maker`].
pub fn event_channel<T: Send + Sync + 'static, M: Maker<T>>(capacity: usize, factory: M) -> (r: (
    EventPublisher<T>,
    EventSubscribable<T>,
    EventRing<T>,
))
    requires
        2 <= capacity <= SEQ_LIMIT,
        ready_times::<T, M>(factory, capacity as nat),
    ensures
        r.2.wf(),
        r.2@.capacity == capacity,
        r.2@.log.len() == 0,
        r.2@.made == r.2@.slots,
        r.2@.made.len() == capacity,
        r.2@.cells.len() == 0,
        r.2@.gates.len() == 0,
        exists|after: M| makes_all(factory, r.2@.made, after),
        r.0@ == (EventPublisherView { seq: 0, cached_slowest: 0 }),
        r.0@.behind_gates(r.2@),
{
    let ghost first = factory;
    let mut factory = factory;
    let index = RingIndex::new(capacity);
    let mut slots: Vec<T> = Vec::new();
    let mut i: usize = 0;
    while i < capacity
        invariant
            i <= capacity,
            slots.len() == i,
            ready_times::<T, M>(factory, (capacity - i) as nat),
            makes_all(first, slots@, factory),
        decreases capacity - i,
    {
        let ghost had = slots@;
        let ghost maker = factory;
        let value = factory.make();
        slots.push(value);
        proof {
            assert(slots@.drop_last() =~= had);
            assert(maker.makes(slots@.last(), &factory));
        }
        i += 1;
    }
    let ghost made = slots@;
    let ring = EventRing {
        slots,
        index,
        cursor: Padded(u64::MAX),
        gates: BackpressureState::new(0),
        trackers: TrackerTable::new(),
        log: Ghost(Seq::empty()),
        made: Ghost(made),
    };
    (
        EventPublisher { seq: 0, cached_slowest: 0, marker: PhantomData },
        EventSubscribable { marker: PhantomData },
        ring,
    )
}

impl EventPublisherView {
    /// The publisher's cached position is not ahead of any subscriber.
    pub open spec fn behind_gates<T>(self, ring: EventView<T>) -> bool {
        &&& self.bound(ring)
        &&& self.cached_slowest <= self.seq
        &&& forall|cell: int| #[trigger]
            ring.gated_by(cell) ==> self.cached_slowest <= ring.cells[cell]
    }
}

/// A message that a subscriber has not read yet is still in its slot, and the
/// slot holds what was published.
pub open spec fn unread_kept<T>(s: EventSubscriberView, r: EventView<T>) -> bool {
    forall|n: nat| s.cursor <= n < r.log.len() ==> #[trigger] r.slot_value(n) == r.log[n as int]
}

/// Dropping dead gates keeps the live ones.
pub(crate) proof fn lemma_event_prune<T>(r: EventView<T>, cell: int)
    ensures
        r.prune().gated_by(cell) <==> r.gated_by(cell),
{
    lemma_filter_gates(r.gates);
    let live = live_gates(r.gates);
    if r.gated_by(cell) {
        let i = choose|i: int|
            0 <= i < r.gates.len() && (#[trigger] r.gates[i]).live && r.gates[i].cell == cell;
        assert(r.gates.contains(r.gates[i]));
        assert(live.contains(r.gates[i]));
        let j = choose|j: int| 0 <= j < live.len() && live[j] == r.gates[i];
        assert(r.prune().gates[j].live);
    }
    if r.prune().gated_by(cell) {
        let j = choose|j: int|
            0 <= j < live.len() && (#[trigger] live[j]).live && live[j].cell == cell;
        assert(live.contains(live[j]));
        let i = choose|i: int| 0 <= i < r.gates.len() && r.gates[i] == live[j];
        assert(r.gates[i].live);
    }
}

/// No unread slot is touched: when the publisher finds room and publishes, every
/// message that a subscriber has still to read stays in its slot. The promise
/// carries over to the next publication.
pub proof fn lemma_event_no_loss<T>(
    p: EventPublisherView,
    r: EventView<T>,
    s: EventSubscriberView,
    value: T,
)
    requires
        r.wf(),
        r.log.len() + 1 < SEQ_LIMIT,
        p.behind_gates(r),
        p.has_room(r),
        s.gates(r),
    ensures
        ({
            let n = p.ring_looked(r).publish(value);
            &&& n.wf()
            &&& unread_kept(s, n)
            &&& n.log == r.log.push(value)
            &&& p.published(r).behind_gates(n)
            &&& s.gates(n)
        }),
{
    let looked = p.ring_looked(r);
    let n = looked.publish(value);
    lemma_slowest(r.gates, r.cells);
    lemma_slowest_of_live(r.gates, r.cells);
    lemma_same_log(r, looked);
    lemma_event_publish_wf(looked, value);
    assert forall|cell: int| #[trigger] n.gated_by(cell) implies r.gated_by(cell) by {
        assert(looked.gated_by(cell)) by {
            let i = choose|i: int|
                0 <= i < n.gates.len() && (#[trigger] n.gates[i]).live && n.gates[i].cell == cell;
            assert(looked.gates[i].live);
        }
        lemma_event_prune(r, cell);
    }
    lemma_event_prune(r, s.cell);
    assert(looked.gated_by(s.cell));
    assert(n.gated_by(s.cell)) by {
        let i = choose|i: int|
            0 <= i < looked.gates.len() && (#[trigger] looked.gates[i]).live && looked.gates[i].cell
                == s.cell;
        assert(n.gates[i].live);
    }
    let i = choose|i: int|
        0 <= i < r.gates.len() && (#[trigger] r.gates[i]).live && r.gates[i].cell == s.cell;
    assert(r.gates[i].live);
    assert(p.seq < s.cursor + r.capacity);
    assert forall|k: nat| s.cursor <= k < n.log.len() implies #[trigger] n.slot_value(k)
        == n.log[k as int] by {
        assert(n.kept(k));
    }
    assert forall|cell: int| #[trigger] n.gated_by(cell) implies p.published(r).cached_slowest
        <= n.cells[cell] by {
        assert(r.gated_by(cell));
        let j = choose|j: int|
            0 <= j < r.gates.len() && (#[trigger] r.gates[j]).live && r.gates[j].cell == cell;
        assert(r.gates[j].live);
    }
}

/// Where the publisher sees no room, some subscriber is a full ring behind.
pub proof fn lemma_event_full_is_real<T>(p: EventPublisherView, r: EventView<T>)
    requires
        !p.has_room(r),
    ensures
        exists|cell: int| #[trigger] r.gated_by(cell) && p.seq >= r.cells[cell] + r.capacity,
{
    lemma_slowest(r.gates, r.cells);
    let i = choose|i: int|
        0 <= i < r.gates.len() && (#[trigger] r.gates[i]).live && r.cells[r.gates[i].cell]
            == slowest(r.gates, r.cells)->0;
    assert(r.gated_by(r.gates[i].cell));
}

/// A publication is refused exactly if some subscriber has a full ring of messages
/// unread.
pub proof fn lemma_event_full_exactly<T>(p: EventPublisherView, r: EventView<T>)
    requires
        p.behind_gates(r),
    ensures
        !p.has_room(r) <==> exists|cell: int| #[trigger]
            r.gated_by(cell) && r.log.len() - r.cells[cell] >= r.capacity,
{
    lemma_slowest(r.gates, r.cells);
    if !p.has_room(r) {
        lemma_event_full_is_real(p, r);
    } else {
        assert forall|cell: int| #[trigger] r.gated_by(cell) implies r.log.len() - r.cells[cell]
            < r.capacity by {
            let i = choose|i: int|
                0 <= i < r.gates.len() && (#[trigger] r.gates[i]).live && r.gates[i].cell == cell;
            assert(r.gates[i].live);
        }
    }
}

/// What a publication changes: the log has one more message, and the slot of that
/// message holds it.
pub proof fn lemma_event_publish_changes<T>(r: EventView<T>, value: T)
    requires
        r.capacity > 0,
        r.slots.len() == r.capacity,
    ensures
        ({
            let n = r.publish(value);
            &&& n.log == r.log.push(value)
            &&& n.slots.len() == r.slots.len()
            &&& n.slots[(r.log.len() % r.capacity) as int] == value
            &&& forall|i: int|
                0 <= i < r.slots.len() && i != r.log.len() % r.capacity ==> #[trigger] n.slots[i]
                    == r.slots[i]
            &&& n.slot_value(r.log.len()) == value
            &&& n.capacity == r.capacity && n.made == r.made && n.cells == r.cells && n.gates
                == r.gates
        }),
{
    lemma_slot_lap(r.log.len(), r.capacity);
}

/// What a slot holds is found by the remainder of its sequence.
pub proof fn lemma_event_slot_value<T>(r: EventView<T>, seq: nat)
    ensures
        r.slot_value(seq) == r.slots[(seq % r.capacity) as int],
        r.before_publish() == (if r.log.len() < r.capacity {
            r.made[r.log.len() as int]
        } else {
            r.log[r.log.len() - r.capacity]
        }),
        r.kept(seq) <==> seq < r.log.len() && r.log.len() - seq <= r.capacity,
{
}

/// Subscribers come, move and go without touching what is published: a new one has a cell
/// of its own at the end of the log and a live gate on it, one that moves changes its own
/// cell, one that goes leaves its own gate dead.
pub proof fn lemma_event_subscribers_change<T>(r: EventView<T>, cell: int, position: u64)
    requires
        0 <= cell < r.cells.len(),
        r.log.len() <= u64::MAX,
    ensures
        ({
            let n = r.register();
            &&& n.cells.len() == r.cells.len() + 1 && n.cells.last() == r.log.len()
            &&& forall|i: int| 0 <= i < r.cells.len() ==> #[trigger] n.cells[i] == r.cells[i]
            &&& n.gates.len() == r.gates.len() + 1 && n.gates.last().live && n.gates.last().cell
                == r.cells.len()
            &&& forall|i: int| 0 <= i < r.gates.len() ==> #[trigger] n.gates[i] == r.gates[i]
            &&& n.capacity == r.capacity && n.log == r.log && n.made == r.made && n.slots
                == r.slots
        }),
        ({
            let n = r.move_cell(cell, position);
            &&& n.cells == r.cells.update(cell, position)
            &&& n.gates == r.gates
            &&& n.capacity == r.capacity && n.log == r.log && n.made == r.made && n.slots
                == r.slots
        }),
        ({
            let n = r.release(cell);
            &&& n.cells == r.cells
            &&& n.gates.len() == r.gates.len()
            &&& forall|i: int|
                0 <= i < r.gates.len() ==> (#[trigger] n.gates[i]).cell == r.gates[i].cell && (
                n.gates[i].live <==> r.gates[i].live && r.gates[i].cell != cell)
            &&& n.capacity == r.capacity && n.log == r.log && n.made == r.made && n.slots
                == r.slots
        }),
        ({
            let n = r.prune();
            &&& n.cells == r.cells
            &&& forall|g: GateView| #[trigger]
                n.gates.contains(g) <==> r.gates.contains(g) && g.live
            &&& n.capacity == r.capacity && n.log == r.log && n.made == r.made && n.slots
                == r.slots
        }),
{
    lemma_filter_gates(r.gates);
}

/// Looking for room changes nothing of a publisher but the position that it remembers,
/// and nothing of a ring but that dead gates are dropped.
pub proof fn lemma_event_looked<T>(p: EventPublisherView, r: EventView<T>)
    ensures
        p.looked(r).seq == p.seq,
        p.looked(r).cached_slowest == p.cached_slowest || (slowest(
            r.gates,
            r.cells,
        ) matches Some(position) && p.looked(r).cached_slowest == position),
        p.ring_looked(r) == r || p.ring_looked(r) == r.prune(),
        p.published(r).seq == p.seq + 1,
        p.published(r).cached_slowest == p.looked(r).cached_slowest,
{
}

/// Every subscriber gates the publisher from the moment on that it is made.
pub proof fn lemma_event_subscribe_gates<T>(p: EventPublisherView, r: EventView<T>)
    requires
        r.wf(),
        p.behind_gates(r),
    ensures
        p.behind_gates(r.register()),
        (EventSubscriberView { cursor: r.log.len(), cell: r.cells.len() as int }).gates(
            r.register(),
        ),
{
    let n = r.register();
    assert forall|cell: int| #[trigger] n.gated_by(cell) implies p.cached_slowest
        <= n.cells[cell] by {
        let i = choose|i: int|
            0 <= i < n.gates.len() && (#[trigger] n.gates[i]).live && n.gates[i].cell == cell;
        if i < r.gates.len() {
            assert(r.gates[i] == n.gates[i]);
            assert(r.gated_by(cell));
            assert(n.cells[cell] == r.cells[cell]);
        }
    }
    assert(n.gates[r.gates.len() as int].live);
}

/// A subscriber that processed a message still gates the publisher, and the
/// publisher's cached position stays behind all subscribers.
pub proof fn lemma_event_process_gates<T>(
    p: EventPublisherView,
    r: EventView<T>,
    s: EventSubscriberView,
)
    requires
        r.wf(),
        p.behind_gates(r),
        s.gates(r),
        s.cursor < r.log.len(),
    ensures
        ({
            let n = r.move_cell(s.cell, (s.cursor + 1) as u64);
            &&& p.behind_gates(n)
            &&& (EventSubscriberView { cursor: s.cursor + 1, ..s }).gates(n)
        }),
{
    let n = r.move_cell(s.cell, (s.cursor + 1) as u64);
    assert forall|cell: int| #[trigger] n.gated_by(cell) implies p.cached_slowest
        <= n.cells[cell] by {
        let i = choose|i: int|
            0 <= i < n.gates.len() && (#[trigger] n.gates[i]).live && n.gates[i].cell == cell;
        assert(r.gates[i].live);
        assert(r.gated_by(cell));
        assert(r.gated_by(s.cell));
    }
    let i = choose|i: int|
        0 <= i < r.gates.len() && (#[trigger] r.gates[i]).live && r.gates[i].cell == s.cell;
    assert(n.gates[i].live);
}

/// A subscriber that is gone holds the publisher back no longer, and the others
/// still do.
pub proof fn lemma_event_release<T>(r: EventView<T>, cell: int, other: int)
    ensures
        !r.release(cell).gated_by(cell),
        other != cell ==> (r.release(cell).gated_by(other) <==> r.gated_by(other)),
{
    let gates = r.release(cell).gates;
    if r.gated_by(other) && other != cell {
        let i = choose|i: int|
            0 <= i < r.gates.len() && (#[trigger] r.gates[i]).live && r.gates[i].cell == other;
        assert(gates[i].live && gates[i].cell == other);
    }
    if r.release(cell).gated_by(other) {
        let i = choose|i: int|
            0 <= i < gates.len() && (#[trigger] gates[i]).live && gates[i].cell == other;
        assert(r.gates[i].live && r.gates[i].cell == other);
    }
}

/// Without subscribers the publisher always has room.
pub proof fn lemma_event_no_gate_no_wait<T>(p: EventPublisherView, r: EventView<T>)
    requires
        forall|cell: int| !(#[trigger] r.gated_by(cell)),
    ensures
        p.has_room(r),
{
    if !p.has_room(r) {
        lemma_event_full_is_real(p, r);
    }
}

} // verus!
