use vstd::prelude::*;

verus! {

/// Types that the library lets carry custom data; outside the crate this
/// trait cannot be named, so no other type can.
pub trait Sealed {
}

impl Sealed for () {
}

impl Sealed for bool {
}

impl Sealed for i32 {
}

impl Sealed for u32 {
}

impl Sealed for i64 {
}

impl Sealed for u64 {
}

impl Sealed for u8 {
}

impl Sealed for u16 {
}

impl Sealed for i8 {
}

impl Sealed for i16 {
}

impl Sealed for usize {
}

impl Sealed for isize {
}

} // verus!
