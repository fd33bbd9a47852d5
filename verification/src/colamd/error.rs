//! COLAMD ordering errors.
use vstd::prelude::*;

use super::integer::ColamdInt;
use crate::array::{message_text, ArrayError};
use crate::text::{decimal, push_decimal, push_digits};

verus! {

/// COLAMD ordering error kind.
#[derive(Debug)]
#[allow(inconsistent_fields)]
pub enum ColamdErrorKind<I: ColamdInt> {
    /// Number of rows must be strictly positive.
    InvalidNumberOfRows { nrows: I },
    /// Number of columns must be strictly positive.
    InvalidNumberOfColumns { ncols: I },
    /// Empty matrix.
    EmptyMatrix,
    /// Elbow room too short.
    InvalidElbowRoom { size: usize, ncols: usize },
    /// Column pointers slice must be non empty.
    EmptyColptrSlice,
    /// Column pointers slice must have a length of `ncols + 1`.
    InvalidColptrSliceLength { actual: usize, expected: usize },
    /// First element of column pointer must be `0`.
    InvalidFirstColPtr { ptr: I },
    /// Column pointers must be in `[0;isize::MAX]`.
    InvalidColPtr { index: usize, ptr: I },
    /// Each column must have a length `>= 0`.
    DecreasingColptrSlice { col: usize, start: I, stop: I },
    /// Row indices slice must have a length of `colptr[ncols]`.
    InvalidRowindSliceLength { actual: usize, expected: usize },
    /// Row indices must be in `0..nrows`.
    OutOfBoundRowIndex { index: usize, row: I, nrows: I },
    /// Row indices must be ordered by column.
    UnorderedRowIndSlice { col: I, ptr: usize },
    /// Array error.
    ArrayError { inner: ArrayError },
    /// The workspace does not hold the structure that the ordering phase relies on.
    InconsistentWorkspace,
}

/// COLAMD ordering error.
#[derive(Debug)]
pub struct ColamdError<I: ColamdInt> {
    /// Error kind.
    kind: ColamdErrorKind<I>,
}

impl<I: ColamdInt> ColamdError<I> {
    /// The kind of the error.
    pub closed spec fn error_kind(&self) -> ColamdErrorKind<I> {
        self.kind
    }

    /// Create an error of the given kind.
    pub fn from_kind(kind: ColamdErrorKind<I>) -> (r: Self)
        ensures
            r.error_kind() == kind,
    {
        ColamdError { kind }
    }

    /// Return the kind of the error.
    pub fn kind(&self) -> (r: &ColamdErrorKind<I>)
        ensures
            *r == self.error_kind(),
    {
        &self.kind
    }

    /// Return the human readable description of the error.
    pub fn message(&self) -> (r: String)
        ensures
            r@ == error_text(self.error_kind()),
    {
        match &self.kind {
            ColamdErrorKind::InvalidNumberOfRows { nrows } => {
                let mut s = String::from_str("invalid number of rows; must be > 0 but got ");
                push_decimal(&mut s, nrows.to_i64());
                s
            },
            ColamdErrorKind::InvalidNumberOfColumns { ncols } => {
                let mut s = String::from_str("invalid number of columns; must be > 0 but got ");
                push_decimal(&mut s, ncols.to_i64());
                s
            },
            ColamdErrorKind::EmptyMatrix => String::from_str("matrix is empty"),
            ColamdErrorKind::InvalidElbowRoom { size, ncols } => {
                let mut s = String::from_str("elbow room too short; must be > ");
                push_digits(&mut s, *ncols as u64);
                s.append(" but got ");
                push_digits(&mut s, *size as u64);
                s
            },
            ColamdErrorKind::EmptyColptrSlice => String::from_str("column pointers slice is empty"),
            ColamdErrorKind::InvalidColptrSliceLength { actual, expected } => {
                let mut s = String::from_str("invalid column pointers slice length: expected `");
                push_digits(&mut s, *expected as u64);
                s.append("` (`= ncols + 1`) and got `");
                push_digits(&mut s, *actual as u64);
                s.append("`");
                s
            },
            ColamdErrorKind::InvalidFirstColPtr { ptr } => {
                let mut s = String::from_str(
                    "invalid column pointers slice first entry: expected `0` and got `",
                );
                push_decimal(&mut s, ptr.to_i64());
                s.append("`");
                s
            },
            ColamdErrorKind::InvalidColPtr { index, ptr } => {
                let mut s = String::from_str("invalid column pointer at `");
                push_digits(&mut s, *index as u64);
                s.append("`; must be >= 0 and < ");
                push_digits(&mut s, isize::MAX as u64);
                s.append(" but got `");
                push_decimal(&mut s, ptr.to_i64());
                s.append("`");
                s
            },
            ColamdErrorKind::DecreasingColptrSlice { col, start, stop } => {
                let mut s = String::from_str("decreasing column pointers at column `");
                push_digits(&mut s, *col as u64);
                s.append("` (start = ");
                push_decimal(&mut s, start.to_i64());
                s.append(", stop = ");
                push_decimal(&mut s, stop.to_i64());
                s
            },
            ColamdErrorKind::InvalidRowindSliceLength { actual, expected } => {
                let mut s = String::from_str("invalid row indices slice length: expected `");
                push_digits(&mut s, *expected as u64);
                s.append("` (= colptr[ncols]) and got `");
                push_digits(&mut s, *actual as u64);
                s.append("`");
                s
            },
            ColamdErrorKind::OutOfBoundRowIndex { index, row, nrows } => {
                let mut s = String::from_str("out of bounds row index `");
                push_decimal(&mut s, row.to_i64());
                s.append("` at rowind[`");
                push_digits(&mut s, *index as u64);
                s.append("`]; must be in `0..");
                push_decimal(&mut s, nrows.to_i64());
                s.append("(=nrows)`");
                s
            },
            ColamdErrorKind::UnorderedRowIndSlice { col, ptr } => {
                let mut s = String::from_str("row indices in column `");
                push_decimal(&mut s, col.to_i64());
                s.append("` are unordered at index `");
                push_digits(&mut s, *ptr as u64);
                s.append("`");
                s
            },
            ColamdErrorKind::ArrayError { inner } => String::from_str(inner.message()),
            ColamdErrorKind::InconsistentWorkspace => String::from_str(
                "inconsistent workspace during the ordering phase",
            ),
        }
    }
}

impl<I: ColamdInt> From<ColamdErrorKind<I>> for ColamdError<I> {
    fn from(kind: ColamdErrorKind<I>) -> (r: Self) {
        ColamdError { kind }
    }
}

impl<I: ColamdInt> vstd::std_specs::convert::FromSpecImpl<ColamdErrorKind<I>> for ColamdError<I> {
    open spec fn obeys_from_spec() -> bool {
        true
    }

    closed spec fn from_spec(v: ColamdErrorKind<I>) -> Self {
        ColamdError { kind: v }
    }
}

impl<I: ColamdInt> From<ArrayError> for ColamdError<I> {
    fn from(inner: ArrayError) -> (r: Self) {
        ColamdError { kind: ColamdErrorKind::ArrayError { inner } }
    }
}

impl<I: ColamdInt> vstd::std_specs::convert::FromSpecImpl<ArrayError> for ColamdError<I> {
    open spec fn obeys_from_spec() -> bool {
        true
    }

    closed spec fn from_spec(v: ArrayError) -> Self {
        ColamdError { kind: ColamdErrorKind::ArrayError { inner: v } }
    }
}

/// The human readable description of a COLAMD error of kind `kind`.
pub open spec fn error_text<I: ColamdInt>(kind: ColamdErrorKind<I>) -> Seq<char> {
    match kind {
        ColamdErrorKind::InvalidNumberOfRows { nrows } => "invalid number of rows; must be > 0 but got "@
            + decimal(nrows.value()),
        ColamdErrorKind::InvalidNumberOfColumns { ncols } =>
            "invalid number of columns; must be > 0 but got "@ + decimal(ncols.value()),
        ColamdErrorKind::EmptyMatrix => "matrix is empty"@,
        ColamdErrorKind::InvalidElbowRoom { size, ncols } => "elbow room too short; must be > "@
            + decimal(ncols as int) + " but got "@ + decimal(size as int),
        ColamdErrorKind::EmptyColptrSlice => "column pointers slice is empty"@,
        ColamdErrorKind::InvalidColptrSliceLength { actual, expected } =>
            "invalid column pointers slice length: expected `"@ + decimal(expected as int)
            + "` (`= ncols + 1`) and got `"@ + decimal(actual as int) + "`"@,
        ColamdErrorKind::InvalidFirstColPtr { ptr } =>
            "invalid column pointers slice first entry: expected `0` and got `"@ + decimal(
            ptr.value(),
        ) + "`"@,
        ColamdErrorKind::InvalidColPtr { index, ptr } => "invalid column pointer at `"@ + decimal(
            index as int,
        ) + "`; must be >= 0 and < "@ + decimal(isize::MAX as int) + " but got `"@ + decimal(
            ptr.value(),
        ) + "`"@,
        ColamdErrorKind::DecreasingColptrSlice { col, start, stop } =>
            "decreasing column pointers at column `"@ + decimal(col as int) + "` (start = "@
            + decimal(start.value()) + ", stop = "@ + decimal(stop.value()),
        ColamdErrorKind::InvalidRowindSliceLength { actual, expected } =>
            "invalid row indices slice length: expected `"@ + decimal(expected as int)
            + "` (= colptr[ncols]) and got `"@ + decimal(actual as int) + "`"@,
        ColamdErrorKind::OutOfBoundRowIndex { index, row, nrows } => "out of bounds row index `"@
            + decimal(row.value()) + "` at rowind[`"@ + decimal(index as int)
            + "`]; must be in `0.."@ + decimal(nrows.value()) + "(=nrows)`"@,
        ColamdErrorKind::UnorderedRowIndSlice { col, ptr } => "row indices in column `"@ + decimal(
            col.value(),
        ) + "` are unordered at index `"@ + decimal(ptr as int) + "`"@,
        ColamdErrorKind::ArrayError { inner } => message_text(inner.error_kind()),
        ColamdErrorKind::InconsistentWorkspace =>
            "inconsistent workspace during the ordering phase"@,
    }
}

} // verus!
