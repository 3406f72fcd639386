//! The write side of a single-producer channel.

use crate::channel::errors::PublishError;
use crate::index::{lemma_slot_apart, lemma_slot_lap, slot_of};
use crate::pod::Pod;
use crate::ring::{Phase, RingView, SharedRing};
use crate::slot::SEQ_LIMIT;
use crate::steps::{lemma_begin_wf, lemma_claim_wf, lemma_progress_wf, lemma_same_history};
use core::marker::PhantomData;
use vstd::prelude::*;

verus! {

/// The write side of a single-producer channel. There is one publisher for
/// each ring.
pub struct Publisher<T: Pod> {
    pub(crate) seq: u64,
    /// Slowest position found by the last scan of the gates. While it leaves
    /// room, no scan is needed.
    pub(crate) cached_slowest: u64,
    pub(crate) has_backpressure: bool,
    pub(crate) marker: PhantomData<T>,
}

/// A publisher as contracts see it.
#[verifier::ext_equal]
pub struct PublisherView {
    /// The sequence of the next message.
    pub seq: nat,
    pub cached_slowest: nat,
}

impl<T: Pod> View for Publisher<T> {
    type V = PublisherView;

    open(crate) spec fn view(&self) -> PublisherView {
        PublisherView { seq: self.seq as nat, cached_slowest: self.cached_slowest as nat }
    }
}

impl<T> RingView<T> {
    /// One more message is published.
    pub open spec fn publish(self, value: T) -> Self {
        RingView {
            history: self.history.push(Phase::Done(value)),
            tips: self.tips.update(
                slot_of(self.next(), self.capacity) as int,
                Some(self.next()),
            ),
            cursor: Some(self.next()),
            ..self
        }
    }

    /// How far the publisher may run ahead of the slowest tracked subscriber.
    pub open spec fn window(self) -> int {
        match self.backpressure {
            Some(bp) => self.capacity - bp.watermark,
            None => self.capacity as int,
        }
    }
}

impl PublisherView {
    /// The cached position no longer tells that there is room.
    pub open spec fn must_scan<T>(self, ring: RingView<T>) -> bool {
        ring.backpressure is Some && self.seq >= self.cached_slowest + ring.window()
    }

    /// The next message can be published without overtaking a tracked
    /// subscriber, as far as the publisher knows.
    pub open spec fn has_room<T>(self, ring: RingView<T>) -> bool {
        self.must_scan(ring) ==> match ring.slowest() {
            Some(position) => self.seq < position + ring.window(),
            None => true,
        }
    }

    /// The publisher after it has looked for room.
    pub open spec fn looked<T>(self, ring: RingView<T>) -> Self {
        if self.must_scan(ring) {
            match ring.slowest() {
                Some(position) => PublisherView { cached_slowest: position as nat, ..self },
                None => self,
            }
        } else {
            self
        }
    }

    /// The ring after the publisher has looked for room.
    pub open spec fn ring_looked<T>(self, ring: RingView<T>) -> RingView<T> {
        if self.must_scan(ring) {
            ring.prune()
        } else {
            ring
        }
    }

    /// The publisher after it has published a message.
    pub open spec fn published<T>(self, ring: RingView<T>) -> Self {
        PublisherView { seq: self.seq + 1, ..self.looked(ring) }
    }

    /// The ring after the publisher has published `value`.
    pub open spec fn ring_published<T>(self, ring: RingView<T>, value: T) -> RingView<T> {
        self.ring_looked(ring).publish(value)
    }

    /// There is room for all of `values`, one after the other.
    pub open spec fn has_room_for<T>(self, ring: RingView<T>, values: Seq<T>) -> bool
        decreases values.len(),
    {
        values.len() == 0 || {
            &&& self.has_room(ring)
            &&& self.published(ring).has_room_for(
                self.ring_published(ring, values.first()),
                values.drop_first(),
            )
        }
    }

    /// The publisher after it has published all of `values`.
    pub open spec fn published_all<T>(self, ring: RingView<T>, values: Seq<T>) -> Self
        decreases values.len(),
    {
        if values.len() == 0 {
            self
        } else {
            self.published(ring).published_all(
                self.ring_published(ring, values.first()),
                values.drop_first(),
            )
        }
    }

    /// The ring after the publisher has published all of `values`.
    pub open spec fn ring_published_all<T>(self, ring: RingView<T>, values: Seq<T>) -> RingView<T>
        decreases values.len(),
    {
        if values.len() == 0 {
            ring
        } else {
            self.published(ring).ring_published_all(
                self.ring_published(ring, values.first()),
                values.drop_first(),
            )
        }
    }
}

/// A batch may be split anywhere: publishing one part and then the other comes to
/// the same.
pub proof fn lemma_batch_split<T>(p: PublisherView, r: RingView<T>, first: Seq<T>, second: Seq<T>)
    ensures
        ({
            let mid = p.ring_published_all(r, first);
            let at = p.published_all(r, first);
            &&& p.ring_published_all(r, first + second) == at.ring_published_all(mid, second)
            &&& p.published_all(r, first + second) == at.published_all(mid, second)
            &&& p.has_room_for(r, first + second) <==> p.has_room_for(r, first)
                && at.has_room_for(mid, second)
        }),
    decreases first.len(),
{
    if first.len() == 0 {
        assert(first + second =~= second);
    } else {
        let whole = first + second;
        assert(whole.first() == first.first());
        assert(whole.drop_first() =~= first.drop_first() + second);
        lemma_batch_split(
            p.published(r),
            p.ring_published(r, first.first()),
            first.drop_first(),
            second,
        );
    }
}

/// In a settled ring a slot holds the last sequence that fits in it.
pub proof fn lemma_settled_tips<T>(r: RingView<T>, n: nat)
    requires
        r.wf(),
        r.settled(),
        n <= r.next(),
    ensures
        n + r.capacity < r.next() ==> (r.tip(n) matches Some(m) && n + r.capacity <= m < r.next()),
        n < r.next() <= n + r.capacity ==> r.tip(n) == Some(n),
        n == r.next() && n >= r.capacity ==> r.tip(n) == Some((n - r.capacity) as nat),
        n == r.next() && n < r.capacity ==> r.tip(n) is None,
{
    lemma_slot_lap(n, r.capacity);
    let s = slot_of(n, r.capacity) as int;
    if let Some(m) = r.tips[s] {
        assert(slot_of(m, r.capacity) == s && r.begun(m));
        if n < m {
            lemma_slot_apart(n, m, r.capacity);
        }
        if m < n {
            lemma_slot_apart(m, n, r.capacity);
        }
    }
    if n < r.next() {
        assert(r.done(n));
        assert(r.begun(n));
    }
    if n + r.capacity < r.next() {
        assert(r.done(n + r.capacity));
        assert(r.begun(n + r.capacity));
    }
    if n == r.next() && n >= r.capacity {
        let k = (n - r.capacity) as nat;
        lemma_slot_lap(k, r.capacity);
        assert(r.done(k));
        assert(r.begun(k));
    }
}

/// A ring stays well formed when its single producer publishes.
pub proof fn lemma_publish_wf<T>(r: RingView<T>, value: T)
    requires
        r.wf(),
        r.settled(),
        r.next() + 1 < SEQ_LIMIT,
    ensures
        r.publish(value).wf(),
{
    let seq = r.next();
    lemma_settled_tips(r, seq);
    lemma_slot_lap(seq, r.capacity);
    lemma_claim_wf(r);
    let claimed = r.claim();
    if seq >= r.capacity {
        let m = (seq - r.capacity) as nat;
        assert(r.done(m));
        assert(claimed.done(m));
    }
    lemma_begin_wf(claimed, seq);
    let begun = claimed.begin(seq);
    assert(begun.begun(seq));
    lemma_progress_wf(begun, seq, Phase::Done(value));
    let done = RingView { history: begun.history.update(seq as int, Phase::Done(value)), ..begun };
    assert forall|n: nat| n <= seq implies #[trigger] done.done(n) by {
        if n < seq {
            assert(r.done(n));
        }
    }
    lemma_same_history(done, done.announce(seq));
    assert(done.history =~= r.publish(value).history);
    assert(done.announce(seq) =~= r.publish(value));
}

impl<T: Pod> Publisher<T> {
    /// The publisher belongs to the ring: it hands out the next sequence, and
    /// no write of its own is open.
    pub open(crate) spec fn bound(&self, ring: RingView<T>) -> bool {
        &&& !ring.multi_producer
        &&& ring.settled()
        &&& self@.seq == ring.next()
        &&& self@.cached_slowest <= SEQ_LIMIT
        &&& self.has_backpressure == ring.backpressure is Some
    }

    pub(crate) fn for_ring(ring: &SharedRing<T>) -> (publisher: Self)
        requires
            ring.wf(),
            ring@.settled(),
            ring@.next() == 0,
            !ring@.multi_producer,
        ensures
            publisher.bound(ring@),
            publisher@ == (PublisherView { seq: 0, cached_slowest: 0 }),
    {
        Publisher {
            seq: 0,
            cached_slowest: 0,
            has_backpressure: ring.is_bounded(),
            marker: PhantomData,
        }
    }

    /// Write a message without looking for room.
    fn publish_unchecked(&mut self, ring: &mut SharedRing<T>, value: T)
        requires
            old(ring).wf(),
            old(self).bound(old(ring)@),
            old(self)@.seq + 1 < SEQ_LIMIT,
        ensures
            final(ring).wf(),
            final(self).bound(final(ring)@),
            final(self)@ == (PublisherView { seq: old(self)@.seq + 1, ..old(self)@ }),
            final(ring)@ == old(ring)@.publish(value),
    {
        let ghost before = ring@;
        let seq: u64 = self.seq;
        proof {
            lemma_settled_tips(before, seq as nat);
            if before.next() >= before.capacity {
                assert(before.done((before.next() - before.capacity) as nat));
            }
        }
        ring.append();
        proof {
            if before.next() >= before.capacity {
                let m = (before.next() - before.capacity) as nat;
                assert(ring@.done(m) == before.done(m));
            }
        }
        ring.begin_write(seq);
        ring.write_value(seq, value);
        ring.finish_write(seq);
        proof {
            assert(ring@.history =~= before.history.push(Phase::Done(value)));
            assert forall|n: nat| n <= seq implies #[trigger] ring@.done(n) by {
                if n < seq {
                    assert(before.done(n));
                }
            }
        }
        ring.store_cursor(seq);
        self.seq = seq + 1;
        proof {
            assert(ring@ =~= before.publish(value));
            assert forall|n: nat| n < ring@.next() implies #[trigger] ring@.done(n) by {
                if n < seq {
                    assert(before.done(n));
                }
            }
        }
    }

    /// Whether the next message can be published without overtaking a tracked
    /// subscriber. A lossy ring always has room.
    ///
    /// While the cached position leaves room, the gates are not scanned.
    pub fn has_room(&mut self, ring: &mut SharedRing<T>) -> (room: bool)
        requires
            old(ring).wf(),
            old(self).bound(old(ring)@),
        ensures
            final(ring).wf(),
            final(self).bound(final(ring)@),
            room == old(self)@.has_room(old(ring)@),
            final(self)@ == old(self)@.looked(old(ring)@),
            final(ring)@ == old(self)@.ring_looked(old(ring)@),
    {
        if !self.has_backpressure {
            return true;
        }
        let ghost before = ring@;
        let window: u64 = ring.window();
        if self.seq >= self.cached_slowest + window {
            let position = ring.slowest_cursor();
            proof {
                lemma_prune(before);
            }
            match position {
                Some(slowest) => {
                    self.cached_slowest = slowest;
                    if self.seq >= slowest + window {
                        return false;
                    }
                },
                None => {},
            }
        }
        true
    }

    /// Publish a message, or hand it back if that would overtake a tracked
    /// subscriber of a bounded ring.
    pub fn try_publish(&mut self, ring: &mut SharedRing<T>, value: T) -> (r: Result<
        (),
        PublishError<T>,
    >)
        requires
            old(ring).wf(),
            old(self).bound(old(ring)@),
            old(self)@.seq + 1 < SEQ_LIMIT,
        ensures
            final(ring).wf(),
            final(self).bound(final(ring)@),
            old(self)@.has_room(old(ring)@) ==> {
                &&& r == Ok::<(), PublishError<T>>(())
                &&& final(self)@ == old(self)@.published(old(ring)@)
                &&& final(ring)@ == old(self)@.ring_published(old(ring)@, value)
            },
            !old(self)@.has_room(old(ring)@) ==> {
                &&& r == Err::<(), PublishError<T>>(PublishError::Full(value))
                &&& final(self)@ == old(self)@.looked(old(ring)@)
                &&& final(ring)@ == old(self)@.ring_looked(old(ring)@)
            },
    {
        if !self.has_room(ring) {
            return Err(PublishError::Full(value));
        }
        self.publish_unchecked(ring, value);
        Ok(())
    }

    /// Publish a message. The ring must have room; see
    /// [`has_room`](Self::has_room).
    pub fn publish(&mut self, ring: &mut SharedRing<T>, value: T)
        requires
            old(ring).wf(),
            old(self).bound(old(ring)@),
            old(self)@.seq + 1 < SEQ_LIMIT,
            old(self)@.has_room(old(ring)@),
        ensures
            final(ring).wf(),
            final(self).bound(final(ring)@),
            final(self)@ == old(self)@.published(old(ring)@),
            final(ring)@ == old(self)@.ring_published(old(ring)@, value),
    {
        if self.has_backpressure {
            let _ = self.try_publish(ring, value);
            return ;
        }
        self.publish_unchecked(ring, value);
    }

    /// Publish the message that `f` builds. The ring must have room.
    pub fn publish_with(&mut self, ring: &mut SharedRing<T>, f: impl FnOnce() -> T)
        requires
            old(ring).wf(),
            old(self).bound(old(ring)@),
            old(self)@.seq + 1 < SEQ_LIMIT,
            old(self)@.has_room(old(ring)@),
            f.requires(()),
        ensures
            final(ring).wf(),
            final(self).bound(final(ring)@),
            final(self)@ == old(self)@.published(old(ring)@),
            exists|value: T|
                #[trigger] f.ensures((), value) && final(ring)@ == old(self)@.ring_published(
                    old(ring)@,
                    value,
                ),
    {
        let value = f();
        self.publish(ring, value);
    }

    /// Publish a batch, one message after the other. The ring must have room
    /// for all of them.
    pub fn publish_batch(&mut self, ring: &mut SharedRing<T>, values: &[T])
        requires
            old(ring).wf(),
            old(self).bound(old(ring)@),
            old(self)@.seq + values@.len() < SEQ_LIMIT,
            old(self)@.has_room_for(old(ring)@, values@),
        ensures
            final(ring).wf(),
            final(self).bound(final(ring)@),
            final(self)@ == old(self)@.published_all(old(ring)@, values@),
            final(ring)@ == old(self)@.ring_published_all(old(ring)@, values@),
            final(ring)@.log() == old(ring)@.log() + values@,
    {
        let ghost before = ring@;
        let ghost start = self@;
        let mut i: usize = 0;
        assert(values@.skip(0) =~= values@);
        assert(ring@.log() =~= before.log() + values@.take(0));
        while i < values.len()
            invariant
                i <= values.len(),
                ring.wf(),
                self.bound(ring@),
                self@.seq == start.seq + i,
                start.seq + values@.len() < SEQ_LIMIT,
                self@.has_room_for(ring@, values@.skip(i as int)),
                self@.published_all(ring@, values@.skip(i as int)) == start.published_all(
                    before,
                    values@,
                ),
                self@.ring_published_all(ring@, values@.skip(i as int))
                    == start.ring_published_all(before, values@),
                ring@.log() == before.log() + values@.take(i as int),
            decreases values.len() - i,
        {
            let ghost rest = values@.skip(i as int);
            let ghost now = ring@;
            proof {
                assert(rest.first() == values@[i as int]);
                assert(rest.drop_first() =~= values@.skip(i as int + 1));
            }
            self.publish(ring, values[i]);
            i += 1;
            proof {
                assert(ring@.history =~= now.history.push(Phase::Done(values@[i as int - 1])));
                assert(ring@.log() =~= now.log().push(values@[i as int - 1]));
                assert(ring@.log() =~= before.log() + values@.take(i as int));
            }
        }
        assert(values@.skip(i as int).len() == 0);
        assert(values@.take(i as int) =~= values@);
    }

    /// Number of messages published so far.
    pub fn published(&self) -> (count: u64)
        ensures
            count == self@.seq,
    {
        self.seq
    }

    /// The sequence of the next message; the same number as
    /// [`published`](Self::published).
    pub fn sequence(&self) -> (seq: u64)
        ensures
            seq == self@.seq,
    {
        self.seq
    }

    /// Number of slots of the ring.
    pub fn capacity(&self, ring: &SharedRing<T>) -> (capacity: u64)
        ensures
            capacity == ring@.capacity,
    {
        ring.capacity()
    }
}

/// Dropping dead gates keeps everything that a publisher relies on.
proof fn lemma_prune<T>(r: RingView<T>)
    ensures
        r.prune().slowest() == r.slowest(),
        r.settled() ==> r.prune().settled(),
        r.prune().next() == r.next(),
{
    if let Some(bp) = r.backpressure {
        crate::backpressure::lemma_slowest_of_live(bp.gates, r.cells);
    }
    if r.settled() {
        assert forall|n: nat| n < r.next() implies #[trigger] r.prune().done(n) by {
            assert(r.done(n));
        }
    }
}

impl<T: Pod> SharedRing<T> {
    /// How far the publisher may run ahead of the slowest tracked subscriber.
    pub fn window(&self) -> (window: u64)
        requires
            self.wf(),
        ensures
            window == self@.window(),
            self@.backpressure matches Some(bp) ==> window == self@.capacity - bp.watermark,
            self@.backpressure is None ==> window == self@.capacity,
            1 <= window <= SEQ_LIMIT,
    {
        match &self.backpressure {
            Some(bp) => self.index.capacity - bp.watermark,
            None => self.index.capacity,
        }
    }
}

} // verus!
