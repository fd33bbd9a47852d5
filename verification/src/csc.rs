//! Compressed Sparse Column (CSC) format patterns and matrices.
use vstd::prelude::*;

use crate::array::Array;
use crate::dimension::Dimension;
use crate::integer::Int;
use crate::scalar::Scalar;

verus! {

/// Compressed Sparse Column (CSC) format pattern.
pub type CscPat<I> = CompressedSparseColumnPattern<I>;

/// Compressed Sparse Column (CSC) format matrix.
pub type CscMat<I, S> = CompressedSparseColumnMatrix<I, S>;

/// Compressed Sparse Column (CSC) format pattern.
#[derive(Clone, Debug)]
pub struct CompressedSparseColumnPattern<I: Int> {
    /// Number of rows.
    nrows: Dimension<I>,
    /// Number of columns.
    ncols: Dimension<I>,
    /// Column pointers.
    colptr: Array<I>,
    /// Row indices.
    rowind: Array<I>,
}

impl<I: Int> CompressedSparseColumnPattern<I> {
    /// The number of rows.
    pub closed spec fn rows(&self) -> I {
        self.nrows.inner()
    }

    /// The number of columns.
    pub closed spec fn cols(&self) -> I {
        self.ncols.inner()
    }

    /// The column pointers.
    pub closed spec fn col_pointers(&self) -> Seq<I> {
        self.colptr@
    }

    /// The row indices.
    pub closed spec fn row_indices(&self) -> Seq<I> {
        self.rowind@
    }

    /// Well-formedness: there are `ncols + 1` column pointers, starting at `0` and
    /// never decreasing, the last one is the number of row indices, and every row
    /// index is below `nrows`.
    pub closed spec fn wf(&self) -> bool {
        let n = self.ncols.inner().value();
        &&& self.colptr@.len() == n + 1
        &&& self.colptr@[0].value() == 0
        &&& forall|c: int, d: int|
            0 <= c <= d <= n ==> #[trigger] self.colptr@[c].value() <= #[trigger] self.colptr@[d].value()
        &&& self.colptr@[n].value() == self.rowind@.len()
        &&& forall|p: int|
            0 <= p < self.rowind@.len() ==> 0 <= #[trigger] self.rowind@[p].value()
                < self.nrows.inner().value()
    }

    /// Returns the number of rows.
    pub fn nrows(&self) -> (r: I)
        ensures
            r == self.rows(),
    {
        self.nrows.get()
    }

    /// Returns the number of columns.
    pub fn ncols(&self) -> (r: I)
        ensures
            r == self.cols(),
    {
        self.ncols.get()
    }

    /// Returns the number of non-zero entries: the last column pointer.
    pub fn nnz(&self) -> (r: I)
        requires
            self.wf(),
        ensures
            r == self.col_pointers()[self.cols().value()],
    {
        self.colptr.get(self.ncols.index())
    }

    /// Returns the column pointers.
    pub fn colptr(&self) -> (r: &[I])
        ensures
            r@ == self.col_pointers(),
    {
        self.colptr.as_slice()
    }

    /// Returns the row indices.
    pub fn rowind(&self) -> (r: &[I])
        ensures
            r@ == self.row_indices(),
    {
        self.rowind.as_slice()
    }
}

/// Compressed Sparse Column (CSC) format matrix.
#[derive(Clone, Debug)]
pub struct CompressedSparseColumnMatrix<I: Int, S: Scalar> {
    /// Number of rows.
    nrows: Dimension<I>,
    /// Number of columns.
    ncols: Dimension<I>,
    /// Column pointers.
    colptr: Array<I>,
    /// Row indices.
    rowind: Array<I>,
    /// Non-zero values.
    values: Array<S>,
}

impl<I: Int, S: Scalar> CompressedSparseColumnMatrix<I, S> {
    /// The number of rows.
    pub closed spec fn rows(&self) -> I {
        self.nrows.inner()
    }

    /// The number of columns.
    pub closed spec fn cols(&self) -> I {
        self.ncols.inner()
    }

    /// The column pointers.
    pub closed spec fn col_pointers(&self) -> Seq<I> {
        self.colptr@
    }

    /// The row indices.
    pub closed spec fn row_indices(&self) -> Seq<I> {
        self.rowind@
    }

    /// The non-zero values.
    pub closed spec fn nonzeros(&self) -> Seq<S> {
        self.values@
    }

    /// Returns the number of rows.
    pub fn nrows(&self) -> (r: I)
        ensures
            r == self.rows(),
    {
        self.nrows.get()
    }

    /// Returns the number of columns.
    pub fn ncols(&self) -> (r: I)
        ensures
            r == self.cols(),
    {
        self.ncols.get()
    }

    /// Returns the column pointers.
    pub fn colptr(&self) -> (r: &[I])
        ensures
            r@ == self.col_pointers(),
    {
        self.colptr.as_slice()
    }

    /// Returns the row indices.
    pub fn rowind(&self) -> (r: &[I])
        ensures
            r@ == self.row_indices(),
    {
        self.rowind.as_slice()
    }

    /// Returns the non-zero values.
    pub fn values(&self) -> (r: &[S])
        ensures
            r@ == self.nonzeros(),
    {
        self.values.as_slice()
    }
}

} // verus!
