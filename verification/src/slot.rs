//! A ring slot: a stamp and a payload.

use crate::pod::Pod;
use vstd::prelude::*;

verus! {

/// Sequence numbers stay below this bound, so that every stamp fits in 64 bits.
pub const SEQ_LIMIT: u64 = 0x7fff_ffff_ffff_ffff;

/// Stamp of a slot in which the write of `seq` is in progress.
pub open spec fn writing_stamp(seq: nat) -> nat {
    seq * 2 + 1
}

/// Stamp of a slot in which the write of `seq` is complete.
pub open spec fn done_stamp(seq: nat) -> nat {
    seq * 2 + 2
}

/// A slot holding a stamp and a payload. The stamp reads
///
/// - 0 while the slot has never been written,
/// - `seq * 2 + 1` while the write of `seq` is in progress,
/// - `seq * 2 + 2` once the write of `seq` is complete.
pub struct Slot<T> {
    pub(crate) stamp: u64,
    pub(crate) value: Option<T>,
}

/// What a slot holds.
pub struct SlotView<T> {
    pub stamp: nat,
    pub value: Option<T>,
}

impl<T> View for Slot<T> {
    type V = SlotView<T>;

    open(crate) spec fn view(&self) -> SlotView<T> {
        SlotView { stamp: self.stamp as nat, value: self.value }
    }
}

impl<T> SlotView<T> {
    /// A slot that shows a completed write holds a payload.
    pub open spec fn wf(self) -> bool {
        self.stamp != 0 && self.stamp % 2 == 0 ==> self.value is Some
    }

    /// What a reader of `seq` finds: the payload, an unfinished write, or the
    /// stamp of another sequence.
    pub open spec fn read(self, seq: nat) -> Result<Option<T>, nat> {
        if self.stamp == done_stamp(seq) {
            Ok(self.value)
        } else if self.stamp % 2 == 1 {
            Ok(None)
        } else {
            Err(self.stamp)
        }
    }
}

/// A read finds the payload exactly if the write of its own sequence is complete. An odd
/// stamp is that of a write in progress, and the stamp of any other write is handed on.
pub proof fn lemma_slot_read<T>(slot: SlotView<T>, seq: nat)
    ensures
        slot.stamp == seq * 2 + 2 ==> slot.read(seq) == Ok::<Option<T>, nat>(slot.value),
        slot.stamp % 2 == 1 ==> slot.read(seq) == Ok::<Option<T>, nat>(None),
        slot.stamp % 2 == 0 && slot.stamp != seq * 2 + 2 ==> slot.read(seq) == Err::<
            Option<T>,
            nat,
        >(slot.stamp),
{
}

/// The stamps of one write and those of the writes after it never meet: they only grow.
pub proof fn lemma_stamps_grow(seq: nat, later: nat)
    ensures
        0 < writing_stamp(seq) < done_stamp(seq),
        seq < later ==> done_stamp(seq) < writing_stamp(later),
        writing_stamp(seq) == seq * 2 + 1,
        done_stamp(seq) == seq * 2 + 2,
{
}

impl<T> Slot<T> {
    /// A slot that has never been written.
    pub fn new() -> (slot: Self)
        ensures
            slot@ == (SlotView::<T> { stamp: 0, value: None }),
    {
        Slot { stamp: 0, value: None }
    }

    /// The current stamp.
    pub fn stamp_load(&self) -> (stamp: u64)
        ensures
            stamp == self@.stamp,
    {
        self.stamp
    }

    /// First step of a write: mark the slot as being written.
    pub fn begin_write(&mut self, seq: u64)
        requires
            seq < SEQ_LIMIT,
        ensures
            final(self)@ == (SlotView { stamp: writing_stamp(seq as nat), value: old(self)@.value }),
            final(self)@.stamp == seq * 2 + 1,
    {
        self.stamp = seq * 2 + 1;
    }

    /// Second step of a write: store the payload.
    pub fn write_value(&mut self, value: T)
        ensures
            final(self)@ == (SlotView { stamp: old(self)@.stamp, value: Some(value) }),
    {
        self.value = Some(value);
    }

    /// Last step of a write: mark the slot as complete.
    pub fn finish_write(&mut self, seq: u64)
        requires
            seq < SEQ_LIMIT,
        ensures
            final(self)@ == (SlotView { stamp: done_stamp(seq as nat), value: old(self)@.value }),
            final(self)@.stamp == seq * 2 + 2,
    {
        self.stamp = seq * 2 + 2;
    }

    /// The whole write of `seq`.
    pub fn write(&mut self, seq: u64, value: T)
        requires
            seq < SEQ_LIMIT,
        ensures
            final(self)@ == (SlotView { stamp: done_stamp(seq as nat), value: Some(value) }),
            final(self)@.stamp == seq * 2 + 2,
    {
        self.begin_write(seq);
        self.write_value(value);
        self.finish_write(seq);
    }

    /// The whole write of `seq`, with the payload built by `f` before the slot
    /// is touched.
    pub fn write_with(&mut self, seq: u64, f: impl FnOnce() -> T)
        requires
            seq < SEQ_LIMIT,
            f.requires(()),
        ensures
            exists|value: T|
                {
                    &&& #[trigger] f.ensures((), value)
                    &&& final(self)@ == (SlotView {
                        stamp: done_stamp(seq as nat),
                        value: Some(value),
                    })
                },
    {
        let value = f();
        self.write(seq, value);
    }
}

impl<T: Pod> Slot<T> {
    /// Read the payload of `seq`.
    ///
    /// `Ok(None)` means that a write is in progress or overtook the read, and
    /// `Err` carries the stamp of the other sequence that the slot holds.
    pub fn try_read(&self, seq: u64) -> (r: Result<Option<T>, u64>)
        requires
            seq < SEQ_LIMIT,
        ensures
            match self@.read(seq as nat) {
                Ok(value) => r == Ok::<Option<T>, u64>(value),
                Err(stamp) => r matches Err(s) && s == stamp,
            },
    {
        let expected: u64 = seq * 2 + 2;
        let s1: u64 = self.stamp_load();
        if s1 == expected {
            let value = self.value;
            let s2: u64 = self.stamp_load();
            if s1 == s2 {
                return Ok(value);
            }
            return Ok(None);
        }
        if s1 % 2 != 0 {
            return Ok(None);
        }
        Err(s1)
    }
}

} // verus!
