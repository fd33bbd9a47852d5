//! Validated dimensions of a COLAMD input.
use vstd::prelude::*;

use super::integer::ColamdInt;

verus! {

/// Validated dimensions of a sparse matrix for COLAMD algorithm.
///
/// Returned after successfully validating the input arguments: `nrows`, `ncols` and
/// `nnz` are each in the range `(0, isize::MAX]`.
#[derive(Debug)]
pub struct ColamdSize<I: ColamdInt> {
    /// The number of rows in the matrix.
    pub nrows: I,
    /// The number of columns in the matrix.
    pub ncols: I,
    /// The number of non-zero entries in the matrix.
    pub nnz: I,
}

impl<I: ColamdInt> ColamdSize<I> {
    /// Creates a new `ColamdSize` with the given number of rows, columns and non-zero
    /// entries.
    pub fn new(nrows: I, ncols: I, nnz: I) -> (r: Self)
        ensures
            r == (ColamdSize { nrows, ncols, nnz }),
    {
        ColamdSize { nrows, ncols, nnz }
    }
}

} // verus!
