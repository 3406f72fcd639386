//! Barriers that keep one consumer behind others.

use crate::backpressure::{Tracker, TrackerTable};
use crate::channel::subscriber::Subscriber;
use crate::pod::Pod;
use vstd::prelude::*;

verus! {

/// A barrier that gates a downstream consumer behind upstream consumers: a
/// message is let through once every upstream consumer is past it.
pub struct DependencyBarrier {
    pub(crate) upstreams: Vec<Tracker>,
}

impl View for DependencyBarrier {
    type V = Seq<int>;

    open(crate) spec fn view(&self) -> Seq<int> {
        self.upstreams@.map_values(|tracker: Tracker| tracker@)
    }
}

/// The lowest position among the cells of `upstreams`.
pub open spec fn slowest_upstream(upstreams: Seq<int>, cells: Seq<u64>) -> u64
    decreases upstreams.len(),
{
    if upstreams.len() == 0 {
        u64::MAX
    } else {
        let rest = slowest_upstream(upstreams.drop_last(), cells);
        if cells[upstreams.last()] < rest {
            cells[upstreams.last()]
        } else {
            rest
        }
    }
}

/// Every upstream is a cell of the table.
pub open spec fn upstreams_within(upstreams: Seq<int>, cells: Seq<u64>) -> bool {
    forall|i: int| 0 <= i < upstreams.len() ==> 0 <= #[trigger] upstreams[i] < cells.len()
}

/// [`slowest_upstream`] is the position of an upstream that no other upstream
/// is behind.
pub proof fn lemma_slowest_upstream(upstreams: Seq<int>, cells: Seq<u64>)
    ensures
        upstreams.len() == 0 ==> slowest_upstream(upstreams, cells) == u64::MAX,
        forall|i: int|
            0 <= i < upstreams.len() ==> slowest_upstream(upstreams, cells)
                <= cells[#[trigger] upstreams[i]],
        upstreams.len() > 0 ==> exists|i: int|
            0 <= i < upstreams.len() && cells[#[trigger] upstreams[i]] == slowest_upstream(
                upstreams,
                cells,
            ),
    decreases upstreams.len(),
{
    if upstreams.len() > 0 {
        let front = upstreams.drop_last();
        lemma_slowest_upstream(front, cells);
        assert(forall|i: int| 0 <= i < front.len() ==> front[i] == #[trigger] upstreams[i]);
        let last = upstreams.len() - 1;
        assert(upstreams[last] == upstreams.last());
        if front.len() > 0 {
            let w = choose|i: int|
                0 <= i < front.len() && cells[#[trigger] front[i]] == slowest_upstream(
                    front,
                    cells,
                );
            assert(upstreams[w] == front[w]);
        }
    }
}

impl DependencyBarrier {
    /// A barrier behind the given trackers.
    pub fn new(trackers: Vec<Tracker>) -> (barrier: Self)
        requires
            trackers@.len() > 0,
        ensures
            barrier@ == trackers@.map_values(|tracker: Tracker| tracker@),
    {
        DependencyBarrier { upstreams: trackers }
    }

    /// A barrier behind the given subscribers, each of which has a tracker.
    pub fn from_subscribers<T: Pod>(subscribers: &[&Subscriber<T>]) -> (barrier: Self)
        requires
            subscribers@.len() > 0,
            forall|i: int| 0 <= i < subscribers@.len() ==> (#[trigger] subscribers@[i])@.tracker is Some,
        ensures
            barrier@.len() == subscribers@.len(),
            forall|i: int|
                0 <= i < subscribers@.len() ==> Some(#[trigger] barrier@[i])
                    == subscribers@[i]@.tracker,
    {
        let mut trackers: Vec<Tracker> = Vec::new();
        let mut i: usize = 0;
        while i < subscribers.len()
            invariant
                i <= subscribers@.len(),
                trackers@.len() == i,
                forall|j: int|
                    0 <= j < subscribers@.len() ==> (#[trigger] subscribers@[j])@.tracker is Some,
                forall|j: int|
                    0 <= j < i ==> Some((#[trigger] trackers@[j])@) == subscribers@[j]@.tracker,
            decreases subscribers@.len() - i,
        {
            let sub: &Subscriber<T> = subscribers[i];
            assert(subscribers@[i as int]@.tracker is Some);
            if let Some(tracker) = sub.tracker() {
                trackers.push(tracker);
            }
            i += 1;
        }
        DependencyBarrier { upstreams: trackers }
    }

    /// The position of the slowest upstream subscriber: a downstream
    /// subscriber at `n` may read once this is greater than `n`.
    pub fn slowest(&self, table: &TrackerTable) -> (position: u64)
        requires
            upstreams_within(self@, table@),
        ensures
            position == slowest_upstream(self@, table@),
    {
        let mut min: u64 = u64::MAX;
        let mut i: usize = 0;
        assert(self@.take(0) =~= Seq::empty());
        while i < self.upstreams.len()
            invariant
                i <= self.upstreams.len(),
                self@.len() == self.upstreams.len(),
                upstreams_within(self@, table@),
                min == slowest_upstream(self@.take(i as int), table@),
            decreases self.upstreams.len() - i,
        {
            proof {
                let seen = self@.take(i as int + 1);
                assert(seen.drop_last() =~= self@.take(i as int));
                assert(seen.last() == self@[i as int]);
            }
            let val: u64 = table.load(self.upstreams[i]);
            if val < min {
                min = val;
            }
            i += 1;
        }
        assert(self@.take(i as int) =~= self@);
        min
    }

    /// Number of upstream subscribers.
    pub fn upstream_count(&self) -> (count: usize)
        ensures
            count == self@.len(),
    {
        self.upstreams.len()
    }
}

} // verus!
