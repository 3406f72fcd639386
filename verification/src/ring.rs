//! The ring that publishers write and subscribers read.

use crate::backpressure::{
    gates_within, lemma_slowest_of_live, live_gates, release_gates, slowest, BackpressureState, BackpressureView,
    GateView, Tracker, TrackerTable,
};
use crate::index::{lemma_slot_lap, slot_of, RingIndex};
use crate::pod::Pod;
use crate::slot::{Slot, SEQ_LIMIT};
use crate::steps::lemma_same_history;
use vstd::prelude::*;

verus! {

/// A value kept apart from its neighbours.
pub struct Padded<T>(pub T);

/// What has become of one sequence number.
pub enum Phase<T> {
    /// Handed out to a producer that has not touched the slot yet.
    Claimed,
    /// The slot is marked as being written.
    Writing,
    /// The payload is stored, the slot is still marked as being written.
    Written(T),
    /// The write is complete.
    Done(T),
}

/// A ring as contracts see it.
#[verifier::ext_equal]
pub struct RingView<T> {
    /// Number of slots.
    pub capacity: nat,
    /// Every sequence handed out so far, in order.
    pub history: Seq<Phase<T>>,
    /// For each slot the last sequence whose write has begun there.
    pub tips: Seq<Option<nat>>,
    /// The last sequence that was announced to subscribers.
    pub cursor: Option<nat>,
    /// The positions of tracked subscribers.
    pub cells: Seq<u64>,
    /// Present on rings whose publisher waits for its subscribers.
    pub backpressure: Option<BackpressureView>,
    /// Whether producers claim sequences from a shared counter.
    pub multi_producer: bool,
}

impl<T> RingView<T> {
    /// The next sequence to be handed out.
    pub open spec fn next(self) -> nat {
        self.history.len()
    }

    /// The write of `seq` has begun.
    pub open spec fn begun(self, seq: nat) -> bool {
        seq < self.history.len() && self.history[seq as int] !is Claimed
    }

    /// The write of `seq` is complete.
    pub open spec fn done(self, seq: nat) -> bool {
        seq < self.history.len() && self.history[seq as int] is Done
    }

    /// The message published as `seq`.
    pub open spec fn message(self, seq: nat) -> T
        recommends
            self.done(seq),
    {
        self.history[seq as int]->Done_0
    }

    /// The last sequence whose write has begun in the slot of `seq`.
    pub open spec fn tip(self, seq: nat) -> Option<nat> {
        self.tips[slot_of(seq, self.capacity) as int]
    }

    /// The slot of `seq` still holds its message.
    pub open spec fn readable(self, seq: nat) -> bool {
        self.done(seq) && self.tip(seq) == Some(seq)
    }

    /// Every sequence handed out is complete, and the last one is announced.
    pub open spec fn settled(self) -> bool {
        &&& forall|n: nat| n < self.next() ==> #[trigger] self.done(n)
        &&& self.cursor == (if self.next() == 0 {
            None
        } else {
            Some((self.next() - 1) as nat)
        })
    }

    /// All messages of a settled ring, oldest first.
    pub open spec fn log(self) -> Seq<T> {
        Seq::new(self.next(), |n: int| self.message(n as nat))
    }

    /// What holds of every ring.
    pub open spec fn wf(self) -> bool {
        &&& 2 <= self.capacity <= SEQ_LIMIT
        &&& self.tips.len() == self.capacity
        &&& self.next() < SEQ_LIMIT
        // Writes begin in order within a slot.
        &&& forall|n: nat|
            n < self.next() ==> (#[trigger] self.begun(n) <==> (self.tip(n) matches Some(m) && n
                <= m))
        &&& forall|i: int|
            0 <= i < self.tips.len() ==> (#[trigger] self.tips[i] matches Some(m) ==> slot_of(
                m,
                self.capacity,
            ) == i && self.begun(m))
        // A slot is reused only after its previous write is complete.
        &&& forall|n: nat|
            n < self.next() && (self.tip(n) matches Some(m) && n < m) ==> #[trigger] self.done(n)
        // The cursor never passes an incomplete write.
        &&& self.cursor matches Some(head) ==> forall|n: nat| n <= head ==> #[trigger] self.done(n)
        &&& forall|i: int| 0 <= i < self.cells.len() ==> #[trigger] self.cells[i] <= SEQ_LIMIT
        &&& self.backpressure matches Some(bp) ==> bp.watermark < self.capacity && gates_within(
            bp.gates,
            self.cells,
        )
    }
}

/// A pre-allocated array of stamped slots with the producer cursor.
pub struct SharedRing<T> {
    pub(crate) slots: Vec<Slot<T>>,
    pub(crate) index: RingIndex,
    /// Sequence of the last announced message, `u64::MAX` before the first.
    pub(crate) cursor: Padded<u64>,
    /// Present only on bounded rings.
    pub(crate) backpressure: Option<BackpressureState>,
    /// Shared sequence counter, present only on multi-producer rings.
    pub(crate) next_seq: Option<Padded<u64>>,
    pub(crate) trackers: TrackerTable,
    pub(crate) history: Ghost<Seq<Phase<T>>>,
    pub(crate) tips: Ghost<Seq<Option<nat>>>,
}

impl<T> View for SharedRing<T> {
    type V = RingView<T>;

    open(crate) spec fn view(&self) -> RingView<T> {
        RingView {
            capacity: self.index.slots(),
            history: self.history@,
            tips: self.tips@,
            cursor: if self.cursor.0 == u64::MAX {
                None
            } else {
                Some(self.cursor.0 as nat)
            },
            cells: self.trackers@,
            backpressure: match self.backpressure {
                Some(bp) => Some(bp@),
                None => None,
            },
            multi_producer: self.next_seq is Some,
        }
    }
}

/// The slot shows what became of the last write that began in it.
pub open(crate) spec fn slot_shows<T>(
    slot: Slot<T>,
    tip: Option<nat>,
    history: Seq<Phase<T>>,
) -> bool {
    match tip {
        None => slot.stamp == 0 && slot.value is None,
        Some(m) => match history[m as int] {
            Phase::Claimed => false,
            Phase::Writing => slot.stamp == m * 2 + 1,
            Phase::Written(v) => slot.stamp == m * 2 + 1 && slot.value == Some(v),
            Phase::Done(v) => slot.stamp == m * 2 + 2 && slot.value == Some(v),
        },
    }
}

impl<T> SharedRing<T> {
    /// What holds of every ring.
    pub open(crate) spec fn wf(&self) -> bool {
        &&& self@.wf()
        &&& self.index.wf()
        &&& self.slots.len() == self.index.slots()
        &&& self.next_seq matches Some(n) ==> n.0 == self.history@.len()
        &&& forall|i: int|
            0 <= i < self.slots.len() ==> slot_shows(
                #[trigger] self.slots[i],
                self.tips@[i],
                self.history@,
            )
    }
}

/// The view of a ring on which nothing has happened yet.
pub open spec fn fresh_ring<T>(
    capacity: nat,
    backpressure: Option<BackpressureView>,
    multi_producer: bool,
) -> RingView<T> {
    RingView {
        capacity,
        history: Seq::empty(),
        tips: Seq::new(capacity, |i: int| None),
        cursor: None,
        cells: Seq::empty(),
        backpressure,
        multi_producer,
    }
}

/// A ring on which nothing has happened yet has as many slots as were asked for, all
/// of them empty, and is of the make that was asked for, whatever it is.
pub proof fn lemma_fresh_ring<T>(
    capacity: nat,
    backpressure: Option<BackpressureView>,
    multi_producer: bool,
)
    ensures
        ({
            let r = fresh_ring::<T>(capacity, backpressure, multi_producer);
            &&& r.capacity == capacity
            &&& r.tips.len() == capacity
            &&& r.next() == 0
            &&& r.cursor is None
            &&& r.cells.len() == 0
            &&& r.backpressure == backpressure
            &&& r.multi_producer == multi_producer
            &&& forall|seq: nat| capacity > 0 ==> #[trigger] r.tip(seq) is None
        }),
{
    assert forall|seq: nat| capacity > 0 implies #[trigger] fresh_ring::<T>(
        capacity,
        backpressure,
        multi_producer,
    ).tip(seq) is None by {
        lemma_slot_lap(seq, capacity);
    }
}

impl<T: Pod> SharedRing<T> {
    fn with(capacity: usize, backpressure: Option<BackpressureState>, multi_producer: bool) -> (ring:
        Self)
        requires
            2 <= capacity <= SEQ_LIMIT,
            backpressure matches Some(bp) ==> bp@.watermark < capacity && bp@.gates.len() == 0,
        ensures
            ring.wf(),
            ring@ == fresh_ring::<T>(
                capacity as nat,
                match backpressure {
                    Some(bp) => Some(bp@),
                    None => None,
                },
                multi_producer,
            ),
    {
        let index = RingIndex::new(capacity);
        let mut slots: Vec<Slot<T>> = Vec::new();
        let mut i: usize = 0;
        while i < capacity
            invariant
                i <= capacity,
                slots.len() == i,
                forall|j: int|
                    0 <= j < i ==> (#[trigger] slots[j]).stamp == 0 && slots[j].value is None,
            decreases capacity - i,
        {
            slots.push(Slot::new());
            i += 1;
        }
        let next_seq = if multi_producer {
            Some(Padded(0u64))
        } else {
            None
        };
        SharedRing {
            slots,
            index,
            cursor: Padded(u64::MAX),
            backpressure,
            next_seq,
            trackers: TrackerTable::new(),
            history: Ghost(Seq::empty()),
            tips: Ghost(Seq::new(capacity as nat, |i: int| None)),
        }
    }

    /// A lossy ring with a single producer.
    pub fn new(capacity: usize) -> (ring: Self)
        requires
            2 <= capacity <= SEQ_LIMIT,
        ensures
            ring.wf(),
            ring@ == fresh_ring::<T>(capacity as nat, None, false),
            ring@.capacity == capacity,
    {
        Self::with(capacity, None, false)
    }

    /// A ring whose publisher waits for its tracked subscribers, keeping
    /// `watermark` slots of headroom.
    pub fn new_bounded(capacity: usize, watermark: usize) -> (ring: Self)
        requires
            2 <= capacity <= SEQ_LIMIT,
            watermark < capacity,
        ensures
            ring.wf(),
            ring@ == fresh_ring::<T>(
                capacity as nat,
                Some(BackpressureView { watermark: watermark as nat, gates: Seq::empty() }),
                false,
            ),
            ring@.capacity == capacity,
            ring@.backpressure matches Some(bp) && bp.watermark == watermark,
    {
        Self::with(capacity, Some(BackpressureState::new(watermark as u64)), false)
    }

    /// A lossy ring with many producers.
    pub fn new_mpmc(capacity: usize) -> (ring: Self)
        requires
            2 <= capacity <= SEQ_LIMIT,
        ensures
            ring.wf(),
            ring@ == fresh_ring::<T>(capacity as nat, None, true),
            ring@.capacity == capacity,
    {
        Self::with(capacity, None, true)
    }

    /// Number of slots.
    pub fn capacity(&self) -> (capacity: u64)
        ensures
            capacity == self@.capacity,
    {
        self.index.capacity
    }

    /// Whether the ring was made for a publisher that waits for subscribers.
    pub fn is_bounded(&self) -> (bounded: bool)
        ensures
            bounded == self@.backpressure is Some,
    {
        self.backpressure.is_some()
    }

    /// The last announced sequence.
    pub fn head(&self) -> (head: Option<u64>)
        ensures
            match self@.cursor {
                Some(h) => head matches Some(x) && x == h,
                None => head is None,
            },
    {
        if self.cursor.0 == u64::MAX {
            None
        } else {
            Some(self.cursor.0)
        }
    }
}

impl<T> RingView<T> {
    /// A cursor cell is added.
    pub open spec fn add_cell(self, position: u64) -> Self {
        RingView { cells: self.cells.push(position), ..self }
    }

    /// A cursor cell is added that gates the publisher.
    pub open spec fn add_gate(self, position: u64) -> Self {
        let bp = self.backpressure->0;
        RingView {
            backpressure: Some(
                BackpressureView {
                    watermark: bp.watermark,
                    gates: bp.gates.push(
                        GateView { cell: self.cells.len() as int, live: true },
                    ),
                },
            ),
            ..self.add_cell(position)
        }
    }

    /// The subscriber on `cell` no longer gates the publisher.
    pub open spec fn release(self, cell: int) -> Self {
        RingView {
            backpressure: match self.backpressure {
                Some(bp) => Some(
                    BackpressureView {
                        watermark: bp.watermark,
                        gates: release_gates(bp.gates, cell),
                    },
                ),
                None => None,
            },
            ..self
        }
    }

    /// Dead gates are dropped.
    pub open spec fn prune(self) -> Self {
        RingView {
            backpressure: match self.backpressure {
                Some(bp) => Some(
                    BackpressureView { watermark: bp.watermark, gates: live_gates(bp.gates) },
                ),
                None => None,
            },
            ..self
        }
    }

    /// The lowest position among the subscribers that gate the publisher.
    pub open spec fn slowest(self) -> Option<u64> {
        match self.backpressure {
            Some(bp) => slowest(bp.gates, self.cells),
            None => None,
        }
    }
}

impl<T: Pod> SharedRing<T> {
    /// Register a subscriber that gates the publisher from `initial` on. Only
    /// bounded rings have such subscribers.
    pub fn register_tracker(&mut self, initial: u64) -> (tracker: Option<Tracker>)
        requires
            old(self).wf(),
            initial <= SEQ_LIMIT,
        ensures
            final(self).wf(),
            match old(self)@.backpressure {
                Some(_) => {
                    &&& tracker matches Some(t) && t@ == old(self)@.cells.len()
                    &&& final(self)@ == old(self)@.add_gate(initial)
                },
                None => tracker is None && final(self)@ == old(self)@,
            },
    {
        match self.backpressure.take() {
            Some(mut bp) => {
                let tracker = self.trackers.register(initial);
                bp.add(tracker);
                self.backpressure = Some(bp);
                proof {
                    lemma_same_history(old(self)@, self@);
                }
                Some(tracker)
            },
            None => None,
        }
    }

    /// Add a cursor cell that gates nobody.
    pub fn register_standalone(&mut self, initial: u64) -> (tracker: Tracker)
        requires
            old(self).wf(),
            initial <= SEQ_LIMIT,
        ensures
            final(self).wf(),
            tracker@ == old(self)@.cells.len(),
            final(self)@ == old(self)@.add_cell(initial),
    {
        let tracker = self.trackers.register(initial);
        proof {
            lemma_same_history(old(self)@, self@);
        }
        tracker
    }

    /// The subscriber on `tracker` is gone.
    pub fn release_tracker(&mut self, tracker: Tracker)
        requires
            old(self).wf(),
        ensures
            final(self).wf(),
            final(self)@ == old(self)@.release(tracker@),
    {
        if let Some(mut bp) = self.backpressure.take() {
            let ghost before = bp@;
            bp.release(tracker);
            self.backpressure = Some(bp);
            proof {
                assert forall|i: int| 0 <= i < bp@.gates.len() implies 0 <= (
                #[trigger] bp@.gates[i]).cell < self@.cells.len() by {
                    assert(bp@.gates[i].cell == before.gates[i].cell);
                }
                lemma_same_history(old(self)@, self@);
            }
        }
    }

    /// The lowest position among the subscribers that gate the publisher.
    /// Gates of subscribers that are gone are dropped on the way.
    pub fn slowest_cursor(&mut self) -> (position: Option<u64>)
        requires
            old(self).wf(),
        ensures
            final(self).wf(),
            position == old(self)@.slowest(),
            final(self)@ == old(self)@.prune(),
    {
        match self.backpressure.take() {
            Some(mut bp) => {
                proof {
                    lemma_slowest_of_live(bp@.gates, self@.cells);
                }
                let position = bp.scan(&self.trackers);
                self.backpressure = Some(bp);
                proof {
                    lemma_same_history(old(self)@, self@);
                }
                position
            },
            None => None,
        }
    }

    /// Move a tracker to `position`.
    pub fn move_tracker(&mut self, tracker: Tracker, position: u64)
        requires
            old(self).wf(),
            0 <= tracker@ < old(self)@.cells.len(),
            position <= SEQ_LIMIT,
        ensures
            final(self).wf(),
            final(self)@ == old(self)@.move_cell(tracker@, position),
    {
        self.trackers.store(tracker, position);
        proof {
            lemma_same_history(old(self)@, self@);
        }
    }

    /// Which slot the message `seq` is written to.
    pub fn slot_index(&self, seq: u64) -> (slot: usize)
        requires
            self.wf(),
            seq < SEQ_LIMIT,
        ensures
            slot == slot_of(seq as nat, self@.capacity),
            slot < self@.capacity,
    {
        proof {
            lemma_slot_lap(seq as nat, self@.capacity);
        }
        self.index.slot(seq)
    }

    /// The slots, for whoever has to know where they lie in memory.
    pub fn slots(&self) -> (slots: &Vec<Slot<T>>)
        requires
            self.wf(),
        ensures
            slots@.len() == self@.capacity,
            forall|i: int|
                0 <= i < slots@.len() ==> slot_shows(
                    #[trigger] slots@[i],
                    self@.tips[i],
                    self@.history,
                ),
    {
        &self.slots
    }

    /// The cursor cells, for barriers that watch upstream subscribers.
    pub fn trackers(&self) -> (table: &TrackerTable)
        ensures
            table@ == self@.cells,
    {
        &self.trackers
    }
}

} // verus!
