//! The [`Pod`] marker trait for ring payloads.

use vstd::prelude::*;

verus! {

/// Marker trait for payloads of the stamped rings.
///
/// A type is `Pod` ("plain old data") if every bit pattern of its size is a
/// valid value and it has no padding bytes. A reader may copy a slot while a
/// writer is replacing it; the copy is thrown away once the stamp is checked
/// again, and until then any bit pattern has to be harmless.
///
/// The integer types, arrays of `Pod` types and tuples of one `Pod` type are
/// `Pod`. For a struct, write an impl.
///
/// `bool`, `char`, references, enums and `Option` are not `Pod`: publish an
/// integer in their place.
pub trait Pod: Copy + Send + 'static {

}

impl Pod for u8 {

}

impl Pod for u16 {

}

impl Pod for u32 {

}

impl Pod for u64 {

}

impl Pod for u128 {

}

impl Pod for usize {

}

impl Pod for i8 {

}

impl Pod for i16 {

}

impl Pod for i32 {

}

impl Pod for i64 {

}

impl Pod for i128 {

}

impl Pod for isize {

}

impl<T: Pod, const N: usize> Pod for [T; N] {

}

// Larger tuples may have padding between their fields.
impl<A: Pod> Pod for (A,) where (A,): Copy {

}

} // verus!
