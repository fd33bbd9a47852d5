//! Configuration of the COLAMD algorithm.
use vstd::prelude::*;

use super::integer::ColamdInt;

verus! {

/// Whether `value` is a valid dense control parameter: `0 < value <= isize::MAX`.
pub open spec fn valid_control(value: int) -> bool {
    0 < value <= isize::MAX
}

/// Configuration parameters for the COLAMD algorithm.
///
/// - `dense_row_control`: a row is dense if it has more than
///   `dense_row_control * sqrt(ncols)` non-zero entries.
/// - `dense_col_control`: a column is dense if it has more than
///   `dense_col_control * sqrt(min(nrows, ncols))` non-zero entries.
#[derive(Debug)]
pub struct ColamdConfig<I: ColamdInt> {
    /// The dense *row* control parameter.
    dense_row_control: I,
    /// The dense *column* control parameter.
    dense_col_control: I,
}

impl<I: ColamdInt> ColamdConfig<I> {
    #[verifier::type_invariant]
    spec fn inv(self) -> bool {
        &&& valid_control(self.dense_row_control.value())
        &&& valid_control(self.dense_col_control.value())
    }

    /// The dense row control parameter.
    pub closed spec fn row_control(self) -> int {
        self.dense_row_control.value()
    }

    /// The dense column control parameter.
    pub closed spec fn col_control(self) -> int {
        self.dense_col_control.value()
    }

    /// Create a new `ColamdConfig` with default parameters (both controls are `10`).
    pub fn new() -> (r: Self)
        ensures
            r.row_control() == 10,
            r.col_control() == 10,
    {
        ColamdConfig { dense_row_control: I::ten(), dense_col_control: I::ten() }
    }

    /// Set the dense row control parameter, which must be in `(0, isize::MAX]`.
    pub fn with_dense_row_control(self, value: I) -> (r: Self)
        requires
            valid_control(value.value()),
        ensures
            r.row_control() == value.value(),
            r.col_control() == self.col_control(),
    {
        proof {
            use_type_invariant(&self);
        }
        ColamdConfig { dense_row_control: value, dense_col_control: self.dense_col_control }
    }

    /// Set the dense column control parameter, which must be in `(0, isize::MAX]`.
    pub fn with_dense_col_control(self, value: I) -> (r: Self)
        requires
            valid_control(value.value()),
        ensures
            r.row_control() == self.row_control(),
            r.col_control() == value.value(),
    {
        proof {
            use_type_invariant(&self);
        }
        ColamdConfig { dense_row_control: self.dense_row_control, dense_col_control: value }
    }

    /// Return both control parameters as `i64`.
    pub(crate) fn controls(&self) -> (r: (i64, i64))
        ensures
            r.0 == self.row_control(),
            r.1 == self.col_control(),
            valid_control(r.0 as int),
            valid_control(r.1 as int),
    {
        proof {
            use_type_invariant(self);
        }
        (self.dense_row_control.to_i64(), self.dense_col_control.to_i64())
    }
}

impl<I: ColamdInt> Default for ColamdConfig<I> {
    fn default() -> (r: Self)
        ensures
            r.row_control() == 10,
            r.col_control() == 10,
    {
        Self::new()
    }
}

impl<I: ColamdInt> Clone for ColamdConfig<I> {
    fn clone(&self) -> (r: Self)
        ensures
            r.row_control() == self.row_control(),
            r.col_control() == self.col_control(),
    {
        proof {
            use_type_invariant(self);
        }
        ColamdConfig {
            dense_row_control: self.dense_row_control,
            dense_col_control: self.dense_col_control,
        }
    }
}

} // verus!
