//! Scalar types for sparse matrices.
//!
//! Supported: `bool`, the signed integers `i8` to `i128` and `isize`, and the
//! unsigned integers `u8` to `u128` and `usize`.
use vstd::prelude::*;

verus! {

/// Seal trait for scalar types.
pub trait Seal {}

impl Seal for bool {}

impl Seal for i8 {}

impl Seal for i16 {}

impl Seal for i32 {}

impl Seal for i64 {}

impl Seal for i128 {}

impl Seal for isize {}

impl Seal for u8 {}

impl Seal for u16 {}

impl Seal for u32 {}

impl Seal for u64 {}

impl Seal for u128 {}

impl Seal for usize {}

/// A trait for scalar types that can be used in sparse matrices.
pub trait Scalar: Sized + Copy + Send + Sync + 'static + Seal {}

impl Scalar for bool {}

impl Scalar for i8 {}

impl Scalar for i16 {}

impl Scalar for i32 {}

impl Scalar for i64 {}

impl Scalar for i128 {}

impl Scalar for isize {}

impl Scalar for u8 {}

impl Scalar for u16 {}

impl Scalar for u32 {}

impl Scalar for u64 {}

impl Scalar for u128 {}

impl Scalar for usize {}

} // verus!
