//! Seal of the COLAMD integer types.
use vstd::prelude::*;

verus! {

/// Seal trait: only the integer types below implement `ColamdInt`.
pub trait Seal {}

impl Seal for i16 {}

impl Seal for i32 {}

impl Seal for i64 {}

impl Seal for isize {}

} // verus!
