//! Making channels.

use crate::backpressure::BackpressureView;
use crate::channel::mp_publisher::MpPublisher;
use crate::channel::publisher::{Publisher, PublisherView};
use crate::channel::subscribable::Subscribable;
use crate::pod::Pod;
use crate::ring::{fresh_ring, SharedRing};
use crate::slot::SEQ_LIMIT;
use vstd::prelude::*;

verus! {

/// A channel with one publisher, which overwrites what its subscribers have
/// not read in time. Any capacity from 2 on is accepted.
pub fn channel<T: Pod>(capacity: usize) -> (r: (Publisher<T>, Subscribable<T>, SharedRing<T>))
    requires
        2 <= capacity <= SEQ_LIMIT,
    ensures
        r.2.wf(),
        r.2@ == fresh_ring::<T>(capacity as nat, None, false),
        r.2@.capacity == capacity,
        r.2@.backpressure is None,
        r.0.bound(r.2@),
        r.0@ == (PublisherView { seq: 0, cached_slowest: 0 }),
{
    let ring = SharedRing::new(capacity);
    (Publisher::for_ring(&ring), Subscribable::new(), ring)
}

/// A channel with one publisher, which does not overwrite what a tracked
/// subscriber has not read, keeping `watermark` slots of headroom.
pub fn channel_bounded<T: Pod>(capacity: usize, watermark: usize) -> (r: (
    Publisher<T>,
    Subscribable<T>,
    SharedRing<T>,
))
    requires
        2 <= capacity <= SEQ_LIMIT,
        watermark < capacity,
    ensures
        r.2.wf(),
        r.2@ == fresh_ring::<T>(
            capacity as nat,
            Some(BackpressureView { watermark: watermark as nat, gates: Seq::empty() }),
            false,
        ),
        r.2@.capacity == capacity,
        r.2@.backpressure matches Some(bp) && bp.watermark == watermark && bp.gates.len() == 0,
        r.0.bound(r.2@),
        r.0@ == (PublisherView { seq: 0, cached_slowest: 0 }),
{
    let ring = SharedRing::new_bounded(capacity, watermark);
    (Publisher::for_ring(&ring), Subscribable::new(), ring)
}

/// A channel with any number of publishers, which overwrite what the
/// subscribers have not read in time.
pub fn channel_mpmc<T: Pod>(capacity: usize) -> (r: (
    MpPublisher<T>,
    Subscribable<T>,
    SharedRing<T>,
))
    requires
        2 <= capacity <= SEQ_LIMIT,
    ensures
        r.2.wf(),
        r.2@ == fresh_ring::<T>(capacity as nat, None, true),
        r.2@.capacity == capacity,
        r.2@.multi_producer,
        r.2@.backpressure is None,
{
    (MpPublisher::new(), Subscribable::new(), SharedRing::new_mpmc(capacity))
}

} // verus!
