//! Keeps the set of storable types closed to this crate.
use vstd::prelude::*;

verus! {

pub trait Sealed {}

impl Sealed for usize {}

impl Sealed for u64 {}

impl Sealed for i32 {}

impl Sealed for i64 {}

impl Sealed for bool {}

impl Sealed for String {}

} // verus!
