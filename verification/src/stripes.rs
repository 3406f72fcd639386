//! Slots whose payload is stored word by word.
//!
//! A reader that copies a payload while it is being replaced can get words of
//! two messages. The stamp of the slot tells: such a copy is never accepted.

use crate::slot::SEQ_LIMIT;
use vstd::bytes::{
    lemma_auto_spec_u64_to_from_le_bytes, spec_u64_from_le_bytes, spec_u64_to_le_bytes,
    u64_from_le_bytes, u64_to_le_bytes,
};
use vstd::prelude::*;

verus! {

/// Words that a payload of `size` bytes takes.
pub open spec fn stripes_for(size: nat) -> nat {
    (size + 7) / 8
}

/// Words that a payload of `size` bytes takes.
pub fn stripe_count(size: usize) -> (count: usize)
    ensures
        count == stripes_for(size as nat),
        8 * (count - 1) < size <= 8 * count,
{
    if size % 8 == 0 {
        size / 8
    } else {
        size / 8 + 1
    }
}

/// Byte `at` of a payload, zero behind its end.
pub open spec fn padded_byte(bytes: Seq<u8>, at: int) -> u8 {
    if at < bytes.len() {
        bytes[at]
    } else {
        0
    }
}

/// The eight bytes of word `i`.
pub open spec fn stripe_bytes(bytes: Seq<u8>, i: int) -> Seq<u8> {
    Seq::new(8, |k: int| padded_byte(bytes, i * 8 + k))
}

/// Word `i` of a payload, lowest byte first.
pub open spec fn stripe_of(bytes: Seq<u8>, i: int) -> u64 {
    spec_u64_from_le_bytes(stripe_bytes(bytes, i))
}

/// All words of a payload.
pub open spec fn stripes_of(bytes: Seq<u8>) -> Seq<u64> {
    Seq::new(stripes_for(bytes.len()), |i: int| stripe_of(bytes, i))
}

/// The first `size` bytes of a sequence of words.
pub open spec fn bytes_of(stripes: Seq<u64>, size: nat) -> Seq<u8> {
    Seq::new(size, |at: int| spec_u64_to_le_bytes(stripes[at / 8])[at % 8])
}

/// A payload comes back from its words as it was.
pub proof fn lemma_stripes_round_trip(bytes: Seq<u8>)
    ensures
        bytes_of(stripes_of(bytes), bytes.len()) == bytes,
{
    lemma_auto_spec_u64_to_from_le_bytes();
    assert forall|at: int| 0 <= at < bytes.len() implies bytes_of(
        stripes_of(bytes),
        bytes.len(),
    )[at] == #[trigger] bytes[at] by {
        let i = at / 8;
        assert(spec_u64_to_le_bytes(spec_u64_from_le_bytes(stripe_bytes(bytes, i)))
            == stripe_bytes(bytes, i));
        assert(stripe_bytes(bytes, i)[at % 8] == bytes[at]);
    }
    assert(bytes_of(stripes_of(bytes), bytes.len()) =~= bytes);
}

/// A payload takes as few words as hold all of its bytes. Word `i` holds the bytes from
/// `8 * i` on, lowest first, with zeros behind the end.
pub proof fn lemma_stripe_layout(bytes: Seq<u8>, i: int, k: int)
    requires
        0 <= i < stripes_of(bytes).len(),
        0 <= k < 8,
    ensures
        8 * (stripes_of(bytes).len() - 1) < bytes.len() <= 8 * stripes_of(bytes).len(),
        spec_u64_to_le_bytes(stripes_of(bytes)[i])[k] == (if 8 * i + k < bytes.len() {
            bytes[8 * i + k]
        } else {
            0
        }),
{
    lemma_auto_spec_u64_to_from_le_bytes();
    assert(spec_u64_to_le_bytes(spec_u64_from_le_bytes(stripe_bytes(bytes, i))) == stripe_bytes(
        bytes,
        i,
    ));
}

/// Byte `at` of a payload is in word `at / 8`.
pub proof fn lemma_bytes_layout(stripes: Seq<u64>, size: nat, at: int)
    requires
        0 <= at < size,
    ensures
        bytes_of(stripes, size).len() == size,
        bytes_of(stripes, size)[at] == spec_u64_to_le_bytes(stripes[at / 8])[at % 8],
{
}

/// Read word `i` of a payload. The last word is filled up with zeros.
pub fn read_stripe(bytes: &[u8], i: usize) -> (word: u64)
    requires
        i < stripes_for(bytes@.len()),
    ensures
        word == stripe_of(bytes@, i as int),
{
    let mut part: Vec<u8> = Vec::new();
    let size: usize = bytes.len();
    let mut k: usize = 0;
    while k < 8
        invariant
            k <= 8,
            i < stripes_for(bytes@.len()),
            part@.len() == k,
            size == bytes@.len(),
            forall|j: int| 0 <= j < k ==> #[trigger] part@[j] == padded_byte(bytes@, i * 8 + j),
        decreases 8 - k,
    {
        if k < size - i * 8 {
            part.push(bytes[i * 8 + k]);
        } else {
            part.push(0);
        }
        k += 1;
    }
    assert(part@ =~= stripe_bytes(bytes@, i as int));
    u64_from_le_bytes(part.as_slice())
}

/// Write word `i` of a payload. Bytes behind its end are dropped.
pub fn write_stripe(bytes: &mut Vec<u8>, i: usize, word: u64)
    requires
        i < stripes_for(old(bytes)@.len()),
    ensures
        final(bytes)@.len() == old(bytes)@.len(),
        forall|at: int|
            0 <= at < old(bytes)@.len() ==> #[trigger] final(bytes)@[at] == (if at / 8 == i {
                spec_u64_to_le_bytes(word)[at % 8]
            } else {
                old(bytes)@[at]
            }),
{
    let part: Vec<u8> = u64_to_le_bytes(word);
    let ghost before = bytes@;
    let size: usize = bytes.len();
    let mut k: usize = 0;
    while k < 8
        invariant
            k <= 8,
            i < stripes_for(size as nat),
            size == bytes@.len(),
            size == before.len(),
            part@ == spec_u64_to_le_bytes(word),
            part@.len() == 8,
            forall|at: int|
                0 <= at < size ==> #[trigger] bytes@[at] == (if i * 8 <= at < i * 8 + k {
                    part@[at - i * 8]
                } else {
                    before[at]
                }),
        decreases 8 - k,
    {
        if k < size - i * 8 {
            bytes[i * 8 + k] = part[k];
        }
        k += 1;
    }
}

/// A slot that holds its payload as words.
pub struct StripedSlot {
    stamp: u64,
    stripes: Vec<u64>,
}

/// A striped slot as contracts see it.
#[verifier::ext_equal]
pub struct StripedView {
    pub stamp: nat,
    pub stripes: Seq<u64>,
}

impl View for StripedSlot {
    type V = StripedView;

    closed spec fn view(&self) -> StripedView {
        StripedView { stamp: self.stamp as nat, stripes: self.stripes@ }
    }
}

impl StripedView {
    /// A later state of the same slot: the stamp only grows, and while it is the
    /// even stamp of a complete write the words stay as they are.
    pub open spec fn evolves(self, later: Self) -> bool {
        &&& later.stripes.len() == self.stripes.len()
        &&& self.stamp <= later.stamp
        &&& self.stamp == later.stamp && self.stamp % 2 == 0 ==> later.stripes == self.stripes
    }
}

impl StripedSlot {
    /// A slot of `count` words that was never written.
    pub fn new(count: usize) -> (slot: Self)
        ensures
            slot@.stamp == 0,
            slot@.stripes == Seq::new(count as nat, |i: int| 0u64),
    {
        let mut stripes: Vec<u64> = Vec::new();
        let mut i: usize = 0;
        while i < count
            invariant
                i <= count,
                stripes@ == Seq::new(i as nat, |j: int| 0u64),
            decreases count - i,
        {
            stripes.push(0);
            i += 1;
            assert(stripes@ =~= Seq::new(i as nat, |j: int| 0u64));
        }
        StripedSlot { stamp: 0, stripes }
    }
}

/// The access that a write makes next.
#[derive(Debug, Clone, Copy, PartialEq, Eq, Structural)]
pub enum StripePhase {
    /// Mark the slot as being written.
    Begin,
    /// Store a word.
    Store(usize),
    /// Mark the write as complete.
    Finish,
    Finished,
}

/// A write to a striped slot, word by word.
pub struct StripeWrite {
    pub seq: u64,
    pub stripes: Vec<u64>,
    pub phase: StripePhase,
}

impl StripeWrite {
    /// What a write relies on between its steps. It is the only one.
    pub open spec fn inv(self, slot: StripedView) -> bool {
        &&& self.seq < SEQ_LIMIT
        &&& self.stripes@.len() == slot.stripes.len()
        &&& match self.phase {
            StripePhase::Begin => slot.stamp <= self.seq * 2,
            StripePhase::Store(i) => {
                &&& slot.stamp == self.seq * 2 + 1
                &&& i < slot.stripes.len()
                &&& slot.stripes.take(i as int) == self.stripes@.take(i as int)
            },
            StripePhase::Finish => slot.stamp == self.seq * 2 + 1 && slot.stripes == self.stripes@,
            StripePhase::Finished => {
                &&& slot.stamp >= self.seq * 2 + 2
                &&& slot.stamp == self.seq * 2 + 2 ==> slot.stripes == self.stripes@
            },
        }
    }

    /// A write of `bytes` as message `seq`.
    pub fn new(seq: u64, bytes: &[u8]) -> (op: Self)
        ensures
            op.seq == seq,
            op.stripes@ == stripes_of(bytes@),
            op.phase is Begin,
    {
        let count: usize = stripe_count(bytes.len());
        let mut stripes: Vec<u64> = Vec::new();
        let mut i: usize = 0;
        while i < count
            invariant
                i <= count,
                count == stripes_for(bytes@.len()),
                stripes@ == stripes_of(bytes@).take(i as int),
            decreases count - i,
        {
            stripes.push(read_stripe(bytes, i));
            i += 1;
            assert(stripes@ =~= stripes_of(bytes@).take(i as int));
        }
        assert(stripes_of(bytes@).take(count as int) =~= stripes_of(bytes@));
        StripeWrite { seq, stripes, phase: StripePhase::Begin }
    }

    /// Make one access to the slot.
    pub fn step(&mut self, slot: &mut StripedSlot)
        requires
            old(self).inv(old(slot)@),
        ensures
            final(self).inv(final(slot)@),
            final(self).seq == old(self).seq,
            final(self).stripes == old(self).stripes,
            old(slot)@.evolves(final(slot)@),
            match old(self).phase {
                StripePhase::Begin => {
                    &&& final(slot)@.stamp == old(self).seq * 2 + 1
                    &&& final(slot)@.stripes == old(slot)@.stripes
                    &&& final(self).phase == (if old(self).stripes@.len() == 0 {
                        StripePhase::Finish
                    } else {
                        StripePhase::Store(0)
                    })
                },
                StripePhase::Store(i) => {
                    &&& final(slot)@.stamp == old(slot)@.stamp
                    &&& final(slot)@.stripes == old(slot)@.stripes.update(
                        i as int,
                        old(self).stripes@[i as int],
                    )
                    &&& final(self).phase == (if i + 1 == old(self).stripes@.len() {
                        StripePhase::Finish
                    } else {
                        StripePhase::Store((i + 1) as usize)
                    })
                },
                StripePhase::Finish => {
                    &&& final(slot)@.stamp == old(self).seq * 2 + 2
                    &&& final(slot)@.stripes == old(slot)@.stripes
                    &&& final(self).phase is Finished
                },
                StripePhase::Finished => final(slot)@ == old(slot)@ && final(self).phase is Finished,
            },
    {
        match self.phase {
            StripePhase::Begin => {
                slot.stamp = self.seq * 2 + 1;
                if self.stripes.len() == 0 {
                    assert(slot@.stripes =~= self.stripes@);
                    self.phase = StripePhase::Finish;
                } else {
                    assert(slot@.stripes.take(0) =~= self.stripes@.take(0));
                    self.phase = StripePhase::Store(0);
                }
            },
            StripePhase::Store(i) => {
                let ghost before = slot@.stripes;
                slot.stripes[i] = self.stripes[i];
                proof {
                    let done = i as int + 1;
                    assert(slot@.stripes.take(done) =~= self.stripes@.take(done)) by {
                        assert forall|j: int| 0 <= j < done implies #[trigger] slot@.stripes.take(
                            done,
                        )[j] == self.stripes@.take(done)[j] by {
                            if j < i {
                                assert(before.take(i as int)[j] == self.stripes@.take(i as int)[j]);
                            }
                        }
                    }
                }
                let count: usize = self.stripes.len();
                if i == count - 1 {
                    assert(slot@.stripes.take(i as int + 1) =~= slot@.stripes);
                    assert(self.stripes@.take(i as int + 1) =~= self.stripes@);
                    self.phase = StripePhase::Finish;
                } else {
                    self.phase = StripePhase::Store(i + 1);
                }
            },
            StripePhase::Finish => {
                slot.stamp = self.seq * 2 + 2;
                self.phase = StripePhase::Finished;
            },
            StripePhase::Finished => {},
        }
    }
}

/// The access that a read makes next, or what it came to.
#[derive(Debug, Clone, Copy, PartialEq, Eq, Structural)]
pub enum StripeReadPhase {
    /// Load the stamp for the first time.
    LoadStamp,
    /// Copy a word.
    Load(usize),
    /// Load the stamp for the second time.
    Recheck,
    /// The slot holds another message. This is its stamp.
    Other(u64),
    /// A write was in progress, or the slot was replaced meanwhile.
    Torn,
    /// The copy is the message.
    Accepted,
}

/// A read of a striped slot, word by word.
pub struct StripeRead {
    pub seq: u64,
    pub copy: Vec<u64>,
    pub phase: StripeReadPhase,
}

impl StripeRead {
    /// What a read relies on between its steps: while the stamp is that of the
    /// message, what was copied so far is the message.
    pub open spec fn inv(self, slot: StripedView) -> bool {
        let done = self.seq * 2 + 2;
        &&& self.seq < SEQ_LIMIT
        &&& match self.phase {
            StripeReadPhase::Load(i) => {
                &&& slot.stamp >= done
                &&& i < slot.stripes.len()
                &&& self.copy@.len() == i
                &&& slot.stamp == done ==> self.copy@ == slot.stripes.take(i as int)
            },
            StripeReadPhase::Recheck => {
                &&& slot.stamp >= done
                &&& self.copy@.len() == slot.stripes.len()
                &&& slot.stamp == done ==> self.copy@ == slot.stripes
            },
            StripeReadPhase::LoadStamp => self.copy@.len() == 0,
            _ => true,
        }
    }

    /// A read of the message `seq` that has not started yet.
    pub fn new(seq: u64) -> (op: Self)
        ensures
            op.seq == seq,
            op.copy@.len() == 0,
            op.phase is LoadStamp,
    {
        StripeRead { seq, copy: Vec::new(), phase: StripeReadPhase::LoadStamp }
    }

    /// Make one access to the slot. A copy is accepted only if it is what the
    /// slot holds under the stamp of the message.
    pub fn step(&mut self, slot: &StripedSlot)
        requires
            old(self).inv(slot@),
        ensures
            final(self).inv(slot@),
            final(self).seq == old(self).seq,
            ({
                let done = old(self).seq * 2 + 2;
                match old(self).phase {
                    StripeReadPhase::LoadStamp => if slot@.stamp == done {
                        final(self).phase == (if slot@.stripes.len() == 0 {
                            StripeReadPhase::Recheck
                        } else {
                            StripeReadPhase::Load(0)
                        })
                    } else if slot@.stamp % 2 == 1 {
                        final(self).phase is Torn
                    } else {
                        final(self).phase matches StripeReadPhase::Other(found) && found
                            == slot@.stamp
                    },
                    StripeReadPhase::Load(i) => {
                        &&& final(self).copy@ == old(self).copy@.push(slot@.stripes[i as int])
                        &&& final(self).phase == (if i + 1 == slot@.stripes.len() {
                            StripeReadPhase::Recheck
                        } else {
                            StripeReadPhase::Load((i + 1) as usize)
                        })
                    },
                    StripeReadPhase::Recheck => {
                        &&& final(self).copy == old(self).copy
                        &&& slot@.stamp == done ==> final(self).phase is Accepted
                            && final(self).copy@ == slot@.stripes
                        &&& slot@.stamp != done ==> final(self).phase is Torn
                    },
                    _ => *final(self) == *old(self),
                }
            }),
    {
        let done: u64 = self.seq * 2 + 2;
        match self.phase {
            StripeReadPhase::LoadStamp => {
                if slot.stamp == done {
                    if slot.stripes.len() == 0 {
                        assert(self.copy@ =~= slot@.stripes);
                        self.phase = StripeReadPhase::Recheck;
                    } else {
                        assert(self.copy@ =~= slot@.stripes.take(0));
                        self.phase = StripeReadPhase::Load(0);
                    }
                } else if slot.stamp % 2 == 1 {
                    self.phase = StripeReadPhase::Torn;
                } else {
                    self.phase = StripeReadPhase::Other(slot.stamp);
                }
            },
            StripeReadPhase::Load(i) => {
                let ghost before = self.copy@;
                self.copy.push(slot.stripes[i]);
                proof {
                    if slot@.stamp == done {
                        assert(self.copy@ =~= slot@.stripes.take(i as int + 1));
                    }
                }
                let count: usize = slot.stripes.len();
                if i == count - 1 {
                    assert(slot@.stripes.take(i as int + 1) =~= slot@.stripes);
                    self.phase = StripeReadPhase::Recheck;
                } else {
                    self.phase = StripeReadPhase::Load(i + 1);
                }
            },
            StripeReadPhase::Recheck => {
                if slot.stamp == done {
                    self.phase = StripeReadPhase::Accepted;
                } else {
                    self.phase = StripeReadPhase::Torn;
                }
            },
            _ => {},
        }
    }

    /// The payload that was read.
    pub fn payload(&self, size: usize) -> (bytes: Vec<u8>)
        requires
            self.copy@.len() == stripes_for(size as nat),
        ensures
            bytes@ == bytes_of(self.copy@, size as nat),
    {
        let mut bytes: Vec<u8> = Vec::new();
        let mut n: usize = 0;
        while n < size
            invariant
                n <= size,
                bytes@.len() == n,
            decreases size - n,
        {
            bytes.push(0);
            n += 1;
        }
        let mut i: usize = 0;
        while i < self.copy.len()
            invariant
                i <= self.copy@.len(),
                self.copy@.len() == stripes_for(size as nat),
                bytes@.len() == size,
                forall|at: int|
                    0 <= at < size && at / 8 < i ==> #[trigger] bytes@[at] == spec_u64_to_le_bytes(
                        self.copy@[at / 8],
                    )[at % 8],
            decreases self.copy@.len() - i,
        {
            write_stripe(&mut bytes, i, self.copy[i]);
            i += 1;
        }
        assert(bytes@ =~= bytes_of(self.copy@, size as nat));
        bytes
    }
}

/// A read relies on nothing that a writer can take away.
pub proof fn lemma_stripe_read_stable(read: StripeRead, slot: StripedView, later: StripedView)
    requires
        read.inv(slot),
        slot.evolves(later),
    ensures
        read.inv(later),
{
}

/// A write that is complete stays so until the slot is written again.
pub proof fn lemma_stripe_write_stable(write: StripeWrite, slot: StripedView, later: StripedView)
    requires
        write.inv(slot),
        write.phase is Finished,
        slot.evolves(later),
    ensures
        write.inv(later),
{
}

/// No torn payload is accepted: a copy that is accepted while the write of the
/// same message is complete is what that write stored, however the accesses of
/// both were interleaved.
pub proof fn lemma_no_torn_payload(read: StripeRead, write: StripeWrite, slot: StripedView, bytes:
    Seq<u8>)
    requires
        read.inv(slot),
        read.phase is Recheck,
        slot.stamp == read.seq * 2 + 2,
        write.inv(slot),
        write.phase is Finished,
        write.seq == read.seq,
        write.stripes@ == stripes_of(bytes),
    ensures
        read.copy@ == stripes_of(bytes),
        bytes_of(read.copy@, bytes.len()) == bytes,
{
    lemma_stripes_round_trip(bytes);
}

/// Accesses left for a write of `count` words.
spec fn accesses_left(phase: StripePhase, count: int) -> int {
    match phase {
        StripePhase::Begin => count + 2,
        StripePhase::Store(i) => count - i + 1,
        StripePhase::Finish => 1,
        StripePhase::Finished => 0,
    }
}

/// Accesses left for a read of `count` words.
spec fn loads_left(phase: StripeReadPhase, count: int) -> int {
    match phase {
        StripeReadPhase::LoadStamp => count + 2,
        StripeReadPhase::Load(i) => count - i + 1,
        StripeReadPhase::Recheck => 1,
        _ => 0,
    }
}

impl StripedSlot {
    /// Write `bytes` as message `seq`, undisturbed.
    pub fn write(&mut self, seq: u64, bytes: &[u8])
        requires
            seq < SEQ_LIMIT,
            old(self)@.stamp <= seq * 2,
            old(self)@.stripes.len() == stripes_for(bytes@.len()),
        ensures
            final(self)@.stamp == seq * 2 + 2,
            final(self)@.stripes == stripes_of(bytes@),
    {
        let mut op = StripeWrite::new(seq, bytes);
        let count: usize = op.stripes.len();
        let mut open = true;
        while open
            invariant
                count == op.stripes@.len(),
                op.inv(self@),
                op.seq == seq,
                op.stripes@ == stripes_of(bytes@),
                open == !(op.phase is Finished),
                op.phase is Finished ==> self@.stamp == seq * 2 + 2,
            decreases accesses_left(op.phase, count as int),
        {
            op.step(self);
            open = match op.phase {
                StripePhase::Finished => false,
                _ => true,
            };
        }
    }

    /// Read message `seq` of `size` bytes, undisturbed. `Ok(None)` if a write is
    /// in progress; the stamp, if the slot holds another message.
    pub fn try_read(&self, seq: u64, size: usize) -> (r: Result<Option<Vec<u8>>, u64>)
        requires
            seq < SEQ_LIMIT,
            self@.stripes.len() == stripes_for(size as nat),
        ensures
            self@.stamp == seq * 2 + 2 ==> (r matches Ok(Some(bytes)) && bytes@ == bytes_of(
                self@.stripes,
                size as nat,
            )),
            self@.stamp != seq * 2 + 2 && self@.stamp % 2 == 1 ==> r matches Ok(None),
            self@.stamp != seq * 2 + 2 && self@.stamp % 2 == 0 ==> (r matches Err(stamp) && stamp
                == self@.stamp),
    {
        let mut op = StripeRead::new(seq);
        let ghost count = self@.stripes.len() as int;
        loop
            invariant
                op.inv(self@),
                op.seq == seq,
                count == self@.stripes.len(),
                count == stripes_for(size as nat),
                op.phase is Load || op.phase is Recheck || op.phase is Accepted ==> self@.stamp
                    == seq * 2 + 2,
                op.phase is Accepted ==> op.copy@ == self@.stripes,
                op.phase is Torn ==> self@.stamp != seq * 2 + 2 && self@.stamp % 2 == 1,
                op.phase matches StripeReadPhase::Other(stamp) ==> self@.stamp != seq * 2 + 2
                    && self@.stamp % 2 == 0 && stamp == self@.stamp,
            decreases loads_left(op.phase, count),
        {
            match op.phase {
                StripeReadPhase::Accepted => {
                    return Ok(Some(op.payload(size)));
                },
                StripeReadPhase::Torn => {
                    return Ok(None);
                },
                StripeReadPhase::Other(stamp) => {
                    return Err(stamp);
                },
                _ => {
                    op.step(self);
                },
            }
        }
    }
}

} // verus!
