//! The single accesses that a write to a ring is made of.
//!
//! Each function here is one access to the ring. A write of several accesses
//! can be interleaved with those of other producers and with readers, and
//! every access keeps the ring well formed.

use crate::backpressure::gates_within;
use crate::index::{lemma_slot_apart, lemma_slot_lap, slot_of};
use crate::pod::Pod;
use crate::ring::{slot_shows, Padded, Phase, RingView, SharedRing};
use crate::slot::SEQ_LIMIT;
use vstd::prelude::*;

verus! {

impl<T> RingView<T> {
    /// The next sequence is handed out.
    pub open spec fn claim(self) -> Self {
        RingView { history: self.history.push(Phase::Claimed), ..self }
    }

    /// The write of `seq` may begin: it was handed out, and the write that
    /// used the slot one lap earlier is complete.
    pub open spec fn can_begin(self, seq: nat) -> bool {
        &&& seq < self.next()
        &&& self.history[seq as int] is Claimed
        &&& match self.tip(seq) {
            Some(m) => m + self.capacity == seq && self.done(m),
            None => seq < self.capacity,
        }
    }

    /// The slot of `seq` is marked as being written.
    pub open spec fn begin(self, seq: nat) -> Self {
        RingView {
            history: self.history.update(seq as int, Phase::Writing),
            tips: self.tips.update(slot_of(seq, self.capacity) as int, Some(seq)),
            ..self
        }
    }

    /// The payload of `seq` is stored.
    pub open spec fn put(self, seq: nat, value: T) -> Self {
        RingView { history: self.history.update(seq as int, Phase::Written(value)), ..self }
    }

    /// The write of `seq` is complete.
    pub open spec fn finish(self, seq: nat) -> Self {
        RingView {
            history: self.history.update(
                seq as int,
                Phase::Done(self.history[seq as int]->Written_0),
            ),
            ..self
        }
    }

    /// `seq` is announced as the newest message.
    pub open spec fn announce(self, seq: nat) -> Self {
        RingView { cursor: Some(seq), ..self }
    }

    /// A tracked subscriber moves to `position`.
    pub open spec fn move_cell(self, cell: int, position: u64) -> Self {
        RingView { cells: self.cells.update(cell, position), ..self }
    }
}

pub(crate) proof fn lemma_claim_wf<T>(r: RingView<T>)
    requires
        r.wf(),
        r.next() + 1 < SEQ_LIMIT,
    ensures
        r.claim().wf(),
{
    let n = r.claim();
    assert forall|k: nat| k < n.next() implies (#[trigger] n.begun(k) <==> (n.tip(k) matches Some(
        m,
    ) && k <= m)) by {
        if k < r.next() {
            assert(r.begun(k) == n.begun(k));
        } else {
            lemma_slot_lap(k, r.capacity);
            if let Some(m) = n.tip(k) {
                assert(r.tips[slot_of(k, r.capacity) as int] == Some(m));
                assert(r.begun(m));
            }
        }
    }
    assert forall|i: int| 0 <= i < n.tips.len() implies (#[trigger] n.tips[i] matches Some(m)
        ==> slot_of(m, n.capacity) == i && n.begun(m)) by {
        if let Some(m) = r.tips[i] {
            assert(r.begun(m));
        }
    }
    assert forall|k: nat|
        k < n.next() && (n.tip(k) matches Some(m) && k < m) implies #[trigger] n.done(k) by {
        let m = n.tip(k)->0;
        lemma_slot_lap(k, r.capacity);
        assert(r.tips[slot_of(k, r.capacity) as int] == Some(m));
        assert(r.begun(m));
        assert(r.done(k));
    }
    if let Some(head) = n.cursor {
        assert forall|k: nat| k <= head implies #[trigger] n.done(k) by {
            assert(r.done(k));
        }
    }
}

pub(crate) proof fn lemma_begin_wf<T>(r: RingView<T>, seq: nat)
    requires
        r.wf(),
        r.can_begin(seq),
    ensures
        r.begin(seq).wf(),
{
    let n = r.begin(seq);
    let s = slot_of(seq, r.capacity);
    lemma_slot_lap(seq, r.capacity);
    assert forall|k: nat| k < n.next() implies (#[trigger] n.begun(k) <==> (n.tip(k) matches Some(
        m,
    ) && k <= m)) by {
        lemma_slot_lap(k, r.capacity);
        assert(r.begun(k) == (k != seq && n.begun(k)));
        if slot_of(k, r.capacity) == s && k != seq {
            assert(r.tip(k) == r.tip(seq));
            if k < seq {
                lemma_slot_apart(k, seq, r.capacity);
            } else {
                lemma_slot_apart(seq, k, r.capacity);
            }
        }
    }
    assert forall|i: int| 0 <= i < n.tips.len() implies (#[trigger] n.tips[i] matches Some(m)
        ==> slot_of(m, n.capacity) == i && n.begun(m)) by {
        if i != s {
            if let Some(m) = r.tips[i] {
                assert(r.begun(m));
            }
        }
    }
    assert forall|k: nat|
        k < n.next() && (n.tip(k) matches Some(m) && k < m) implies #[trigger] n.done(k) by {
        let m = n.tip(k)->0;
        lemma_slot_lap(k, r.capacity);
        if slot_of(k, r.capacity) == s {
            lemma_slot_apart(k, seq, r.capacity);
            assert(r.tip(k) == r.tip(seq));
            assert(r.done(k));
        } else {
            assert(r.done(k));
        }
    }
    if let Some(head) = n.cursor {
        assert forall|k: nat| k <= head implies #[trigger] n.done(k) by {
            assert(r.done(k));
        }
    }
}

/// Moving a begun write forward keeps the ring well formed.
pub(crate) proof fn lemma_progress_wf<T>(r: RingView<T>, seq: nat, phase: Phase<T>)
    requires
        r.wf(),
        r.begun(seq),
        phase !is Claimed,
        r.history[seq as int] !is Done,
    ensures
        (RingView { history: r.history.update(seq as int, phase), ..r }).wf(),
{
    let n = RingView { history: r.history.update(seq as int, phase), ..r };
    assert forall|k: nat| k < n.next() implies (#[trigger] n.begun(k) <==> (n.tip(k) matches Some(
        m,
    ) && k <= m)) by {
        assert(r.begun(k) == n.begun(k));
    }
    assert forall|i: int| 0 <= i < n.tips.len() implies (#[trigger] n.tips[i] matches Some(m)
        ==> slot_of(m, n.capacity) == i && n.begun(m)) by {
        if let Some(m) = r.tips[i] {
            assert(r.begun(m));
        }
    }
    assert forall|k: nat|
        k < n.next() && (n.tip(k) matches Some(m) && k < m) implies #[trigger] n.done(k) by {
        assert(r.done(k));
    }
    if let Some(head) = n.cursor {
        assert forall|k: nat| k <= head implies #[trigger] n.done(k) by {
            assert(r.done(k));
        }
    }
}

/// The slot of an incomplete write belongs to that write.
pub proof fn lemma_open_write_owns_slot<T>(r: RingView<T>, seq: nat)
    requires
        r.wf(),
        r.begun(seq),
        !r.done(seq),
    ensures
        r.tip(seq) == Some(seq),
        slot_of(seq, r.capacity) < r.capacity,
{
    lemma_slot_lap(seq, r.capacity);
}

/// A slot whose tip is another sequence than `seq` is another slot.
proof fn lemma_other_slots<T>(r: RingView<T>, seq: nat)
    requires
        r.wf(),
        r.tip(seq) == Some(seq),
    ensures
        forall|i: int|
            0 <= i < r.tips.len() && i != slot_of(seq, r.capacity) ==> #[trigger] r.tips[i] != Some(
                seq,
            ),
{
    assert forall|i: int|
        0 <= i < r.tips.len() && i != slot_of(
            seq,
            r.capacity,
        ) implies #[trigger] r.tips[i] != Some(seq) by {
        if r.tips[i] == Some(seq) {
            assert(slot_of(seq, r.capacity) == i);
        }
    }
}

impl<T: Pod> SharedRing<T> {
    /// Hand out the next sequence from the shared counter.
    pub fn claim(&mut self) -> (seq: u64)
        requires
            old(self).wf(),
            old(self)@.multi_producer,
            old(self)@.next() + 1 < SEQ_LIMIT,
        ensures
            final(self).wf(),
            seq == old(self)@.next(),
            final(self)@ == old(self)@.claim(),
    {
        proof {
            lemma_claim_wf(self@);
        }
        let seq: u64 = match &self.next_seq {
            Some(counter) => counter.0,
            None => 0,
        };
        self.next_seq = Some(Padded(seq + 1));
        self.history = Ghost(self.history@.push(Phase::Claimed));
        proof {
            assert forall|i: int| 0 <= i < self.slots.len() implies slot_shows(
                #[trigger] self.slots[i],
                self.tips@[i],
                self.history@,
            ) by {
                if let Some(m) = self.tips@[i] {
                    assert(old(self)@.tips[i] == Some(m));
                    assert(old(self)@.begun(m));
                }
                assert(slot_shows(old(self).slots[i], old(self).tips@[i], old(self).history@));
            }
        }
        seq
    }

    /// Number of sequences handed out so far from the shared counter.
    pub fn claimed(&self) -> (count: u64)
        requires
            self.wf(),
            self@.multi_producer,
        ensures
            count == self@.next(),
    {
        match &self.next_seq {
            Some(counter) => counter.0,
            None => 0,
        }
    }

    /// Hand out the next sequence to the single producer.
    pub(crate) fn append(&mut self)
        requires
            old(self).wf(),
            !old(self)@.multi_producer,
            old(self)@.next() + 1 < SEQ_LIMIT,
        ensures
            final(self).wf(),
            final(self)@ == old(self)@.claim(),
    {
        proof {
            lemma_claim_wf(self@);
        }
        self.history = Ghost(self.history@.push(Phase::Claimed));
        proof {
            assert forall|i: int| 0 <= i < self.slots.len() implies slot_shows(
                #[trigger] self.slots[i],
                self.tips@[i],
                self.history@,
            ) by {
                if let Some(m) = self.tips@[i] {
                    assert(old(self)@.tips[i] == Some(m));
                    assert(old(self)@.begun(m));
                }
                assert(slot_shows(old(self).slots[i], old(self).tips@[i], old(self).history@));
            }
        }
    }

    /// Mark the slot of `seq` as being written.
    pub fn begin_write(&mut self, seq: u64)
        requires
            old(self).wf(),
            old(self)@.can_begin(seq as nat),
        ensures
            final(self).wf(),
            final(self)@ == old(self)@.begin(seq as nat),
    {
        let slot: usize = self.index.slot(seq);
        proof {
            lemma_begin_wf(self@, seq as nat);
        }
        self.slots[slot].begin_write(seq);
        self.history = Ghost(self.history@.update(seq as int, Phase::Writing));
        self.tips = Ghost(self.tips@.update(slot as int, Some(seq as nat)));
        proof {
            assert forall|i: int| 0 <= i < self.slots.len() implies slot_shows(
                #[trigger] self.slots[i],
                self.tips@[i],
                self.history@,
            ) by {
                if i != slot {
                    assert(slot_shows(old(self).slots[i], old(self).tips@[i], old(self).history@));
                    if let Some(m) = old(self).tips@[i] {
                        assert(old(self)@.tips[i] == Some(m));
                        assert(old(self)@.begun(m));
                    }
                }
            }
        }
    }

    /// Store the payload of `seq`.
    pub fn write_value(&mut self, seq: u64, value: T)
        requires
            old(self).wf(),
            seq < old(self)@.next(),
            old(self)@.history[seq as int] is Writing,
        ensures
            final(self).wf(),
            final(self)@ == old(self)@.put(seq as nat, value),
    {
        let slot: usize = self.index.slot(seq);
        proof {
            assert(self@.begun(seq as nat));
            lemma_open_write_owns_slot(self@, seq as nat);
            lemma_other_slots(self@, seq as nat);
            lemma_progress_wf(self@, seq as nat, Phase::Written(value));
            assert(slot_shows(self.slots[slot as int], self.tips@[slot as int], self.history@));
        }
        self.slots[slot].write_value(value);
        self.history = Ghost(self.history@.update(seq as int, Phase::Written(value)));
        proof {
            assert forall|i: int| 0 <= i < self.slots.len() implies slot_shows(
                #[trigger] self.slots[i],
                self.tips@[i],
                self.history@,
            ) by {
                assert(slot_shows(old(self).slots[i], old(self).tips@[i], old(self).history@));
                assert(i != slot ==> old(self)@.tips[i] != Some(seq as nat));
            }
        }
    }

    /// Mark the write of `seq` as complete.
    pub fn finish_write(&mut self, seq: u64)
        requires
            old(self).wf(),
            seq < old(self)@.next(),
            old(self)@.history[seq as int] is Written,
        ensures
            final(self).wf(),
            final(self)@ == old(self)@.finish(seq as nat),
    {
        let slot: usize = self.index.slot(seq);
        let ghost value = self.history@[seq as int]->Written_0;
        proof {
            assert(self@.begun(seq as nat));
            lemma_open_write_owns_slot(self@, seq as nat);
            lemma_other_slots(self@, seq as nat);
            lemma_progress_wf(self@, seq as nat, Phase::Done(value));
            assert(slot_shows(self.slots[slot as int], self.tips@[slot as int], self.history@));
        }
        self.slots[slot].finish_write(seq);
        self.history = Ghost(self.history@.update(seq as int, Phase::Done(value)));
        proof {
            assert forall|i: int| 0 <= i < self.slots.len() implies slot_shows(
                #[trigger] self.slots[i],
                self.tips@[i],
                self.history@,
            ) by {
                assert(slot_shows(old(self).slots[i], old(self).tips@[i], old(self).history@));
                assert(i != slot ==> old(self)@.tips[i] != Some(seq as nat));
            }
        }
    }

    /// Announce `seq` as the newest message.
    pub fn store_cursor(&mut self, seq: u64)
        requires
            old(self).wf(),
            forall|n: nat| n <= seq ==> #[trigger] old(self)@.done(n),
        ensures
            final(self).wf(),
            final(self)@ == old(self)@.announce(seq as nat),
    {
        proof {
            assert(self@.done(seq as nat));
        }
        self.cursor = Padded(seq);
        proof {
            lemma_same_history(old(self)@, self@);
        }
    }

    /// Move the cursor from `expected` to `seq`, if it still is at `expected`.
    pub fn exchange_cursor(&mut self, expected: Option<u64>, seq: u64) -> (moved: bool)
        requires
            old(self).wf(),
            expected matches Some(e) ==> e < SEQ_LIMIT,
            (old(self)@.cursor == (match expected {
                Some(e) => Some(e as nat),
                None => None,
            })) ==> forall|n: nat| n <= seq ==> #[trigger] old(self)@.done(n),
        ensures
            final(self).wf(),
            moved == (old(self)@.cursor == (match expected {
                Some(e) => Some(e as nat),
                None => None,
            })),
            final(self)@ == (if moved {
                old(self)@.announce(seq as nat)
            } else {
                old(self)@
            }),
    {
        let raw: u64 = match expected {
            Some(e) => e,
            None => u64::MAX,
        };
        if self.cursor.0 == raw {
            self.store_cursor(seq);
            true
        } else {
            false
        }
    }

    /// The stamp of the slot of `seq`.
    pub fn stamp_load(&self, seq: u64) -> (stamp: u64)
        requires
            self.wf(),
        ensures
            stamp == self@.stamp(seq as nat),
    {
        let slot: usize = self.index.slot(seq);
        proof {
            lemma_slot_lap(seq as nat, self@.capacity);
            assert(slot_shows(self.slots[slot as int], self.tips@[slot as int], self.history@));
            if let Some(m) = self@.tips[slot as int] {
                assert(self@.begun(m));
            }
        }
        self.slots[slot].stamp_load()
    }
}

impl<T> RingView<T> {
    /// The stamp of the slot of `seq`.
    pub open spec fn stamp(self, seq: nat) -> nat {
        match self.tip(seq) {
            None => 0,
            Some(m) => if self.done(m) {
                m * 2 + 2
            } else {
                m * 2 + 1
            },
        }
    }
}

/// Rings that differ only in cursor, cells and gates share what [`RingView::wf`]
/// says of their writes.
pub(crate) proof fn lemma_same_history<T>(a: RingView<T>, b: RingView<T>)
    requires
        a.wf(),
        a.capacity == b.capacity,
        a.history == b.history,
        a.tips == b.tips,
        b.cursor == a.cursor || (b.cursor matches Some(head) && forall|n: nat|
            n <= head ==> #[trigger] a.done(n)),
        forall|i: int| 0 <= i < b.cells.len() ==> #[trigger] b.cells[i] <= SEQ_LIMIT,
        b.backpressure matches Some(bp) ==> bp.watermark < b.capacity && gates_within(
            bp.gates,
            b.cells,
        ),
    ensures
        b.wf(),
{
    assert forall|k: nat| k < b.next() implies (#[trigger] b.begun(k) <==> (b.tip(k) matches Some(
        m,
    ) && k <= m)) by {
        assert(a.begun(k) == b.begun(k));
    }
    assert forall|i: int| 0 <= i < b.tips.len() implies (#[trigger] b.tips[i] matches Some(m)
        ==> slot_of(m, b.capacity) == i && b.begun(m)) by {
        if let Some(m) = a.tips[i] {
            assert(a.begun(m));
        }
    }
    assert forall|k: nat|
        k < b.next() && (b.tip(k) matches Some(m) && k < m) implies #[trigger] b.done(k) by {
        assert(a.done(k));
    }
    if let Some(head) = b.cursor {
        assert forall|k: nat| k <= head implies #[trigger] b.done(k) by {
            assert(a.done(k));
        }
    }
}

} // verus!
