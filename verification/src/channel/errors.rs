//! What can go wrong on a channel.

use vstd::prelude::*;

verus! {

/// Why a receive gave no message.
#[derive(Debug, Clone, Copy, PartialEq, Eq, Structural)]
pub enum TryRecvError {
    /// No new message is available.
    Empty,
    /// The subscriber fell behind the ring, and `skipped` messages were lost.
    Lagged { skipped: u64 },
}

/// Why a publish was refused.
#[derive(Debug, Clone, PartialEq, Eq)]
pub enum PublishError<T> {
    /// The slowest subscriber is within the backpressure watermark. Carries
    /// the value that was not published.
    Full(T),
}

} // verus!
