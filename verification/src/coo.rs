//! Coordinate format (COO) sparse patterns and matrices.
//!
//! The coordinate format stores a tuple `(row, col)` (or `(row, col, value)`) for
//! each non zero entry, in insertion order. It is intended for incremental
//! construction and allows duplicate entries.
use vstd::prelude::*;

use crate::array::{layout_fits, Array};
use crate::integer::Int;
use crate::scalar::Scalar;

verus! {

/// Coordinate format (COO) sparse pattern.
pub type CooPat<I> = CoordinatePattern<I>;

/// Coordinate format (COO) sparse matrix.
pub type CooMat<I, S> = CoordinateMatrix<I, S>;

/// Whether an array of `capacity` values of type `T` has a valid memory layout; the
/// function `crate::array::fits_layout` tests it.
pub open spec fn fits<T>(capacity: int) -> bool {
    layout_fits(
        capacity,
        vstd::layout::size_of::<T>() as int,
        vstd::layout::align_of::<T>() as int,
    )
}

/// Coordinate format (COO) sparse pattern: a list of `(row, col)` entries of a
/// `nrows`-by-`ncols` pattern.
#[derive(Debug)]
pub struct CoordinatePattern<I: Int> {
    /// Number of rows.
    nrows: I,
    /// Number of columns.
    ncols: I,
    /// Nonzero entries.
    entries: Array<(I, I)>,
}

impl<I: Int> CoordinatePattern<I> {
    /// The number of rows.
    pub closed spec fn rows(&self) -> I {
        self.nrows
    }

    /// The number of columns.
    pub closed spec fn cols(&self) -> I {
        self.ncols
    }

    /// The entries, in insertion order.
    pub closed spec fn entries(&self) -> Seq<(I, I)> {
        self.entries@
    }

    /// The maximum number of entries.
    pub closed spec fn cap(&self) -> nat {
        self.entries.cap()
    }

    /// Well-formedness: positive dimensions, at most `cap()` entries, each with a row
    /// in `0..nrows` and a column in `0..ncols`.
    pub closed spec fn wf(&self) -> bool {
        &&& self.nrows.value() > 0
        &&& self.ncols.value() > 0
        &&& self.entries.wf()
        &&& forall|k: int|
            0 <= k < self.entries@.len() ==> {
                &&& 0 <= (#[trigger] self.entries@[k]).0.value() < self.nrows.value()
                &&& 0 <= self.entries@[k].1.value() < self.ncols.value()
            }
    }

    /// Creates a new empty coordinate pattern with the given dimensions and capacity.
    ///
    /// The dimensions and the capacity must be positive, and the capacity must give a
    /// valid memory layout, which `fits_layout::<(I, I)>(capacity)` tests.
    pub fn new(nrows: I, ncols: I, capacity: usize) -> (r: Self)
        requires
            nrows.value() > 0,
            ncols.value() > 0,
            capacity > 0,
            fits::<(I, I)>(capacity as int),
        ensures
            r.wf(),
            r.rows() == nrows,
            r.cols() == ncols,
            r.entries() == Seq::<(I, I)>::empty(),
            r.cap() == capacity,
    {
        CoordinatePattern { nrows, ncols, entries: Array::with_capacity(capacity) }
    }

    /// Returns the number of rows.
    pub fn nrows(&self) -> (r: I)
        ensures
            r == self.rows(),
    {
        self.nrows
    }

    /// Returns the number of columns.
    pub fn ncols(&self) -> (r: I)
        ensures
            r == self.cols(),
    {
        self.ncols
    }

    /// Returns the number of entries in the pattern.
    pub fn length(&self) -> (r: usize)
        ensures
            r == self.entries().len(),
    {
        self.entries.length()
    }

    /// Returns the capacity of the pattern.
    pub fn capacity(&self) -> (r: usize)
        ensures
            r == self.cap(),
    {
        self.entries.capacity()
    }

    /// Pushes a new entry to the pattern.
    ///
    /// `row` must be in `0..nrows`, `col` in `0..ncols`, and the pattern must not be full.
    pub fn push(&mut self, row: I, col: I)
        requires
            old(self).wf(),
            0 <= row.value() < old(self).rows().value(),
            0 <= col.value() < old(self).cols().value(),
            old(self).entries().len() < old(self).cap(),
        ensures
            final(self).wf(),
            final(self).rows() == old(self).rows(),
            final(self).cols() == old(self).cols(),
            final(self).cap() == old(self).cap(),
            final(self).entries() == old(self).entries().push((row, col)),
    {
        let r = self.entries.push((row, col));
        assert(r is Ok);
        assert forall|k: int| 0 <= k < self.entries@.len() implies {
            &&& 0 <= (#[trigger] self.entries@[k]).0.value() < self.nrows.value()
            &&& 0 <= self.entries@[k].1.value() < self.ncols.value()
        } by {
            if k < old(self).entries@.len() {
                assert(self.entries@[k] == old(self).entries@[k]);
            }
        }
    }

    /// Clears the pattern.
    pub fn clear(&mut self)
        requires
            old(self).wf(),
        ensures
            final(self).wf(),
            final(self).rows() == old(self).rows(),
            final(self).cols() == old(self).cols(),
            final(self).cap() == old(self).cap(),
            final(self).entries() == Seq::<(I, I)>::empty(),
    {
        self.entries.clear();
    }

    /// Returns all entries of the pattern, in insertion order.
    pub fn iter(&self) -> (r: Vec<(I, I)>)
        ensures
            r@ == self.entries(),
    {
        let slice = self.entries.as_slice();
        let n = slice.len();
        let mut r: Vec<(I, I)> = Vec::new();
        let mut k: usize = 0;
        while k < n
            invariant
                k <= n == slice@.len(),
                r@ == slice@.subrange(0, k as int),
            decreases n - k,
        {
            r.push(slice[k]);
            k = k + 1;
        }
        r
    }
}

impl<I: Int> Clone for CoordinatePattern<I> {
    fn clone(&self) -> (r: Self)
        ensures
            r.rows() == self.rows(),
            r.cols() == self.cols(),
            r.entries() == self.entries(),
            r.cap() == self.cap(),
            self.wf() ==> r.wf(),
    {
        CoordinatePattern { nrows: self.nrows, ncols: self.ncols, entries: self.entries.clone() }
    }
}

/// Coordinate format (COO) sparse matrix: a list of `(row, col, value)` entries of a
/// `nrows`-by-`ncols` matrix.
#[derive(Debug)]
pub struct CoordinateMatrix<I: Int, S: Scalar> {
    /// Number of rows.
    nrows: I,
    /// Number of columns.
    ncols: I,
    /// Nonzero entries.
    entries: Array<(I, I, S)>,
}

impl<I: Int, S: Scalar> CoordinateMatrix<I, S> {
    /// The number of rows.
    pub closed spec fn rows(&self) -> I {
        self.nrows
    }

    /// The number of columns.
    pub closed spec fn cols(&self) -> I {
        self.ncols
    }

    /// The entries, in insertion order.
    pub closed spec fn entries(&self) -> Seq<(I, I, S)> {
        self.entries@
    }

    /// The maximum number of entries.
    pub closed spec fn cap(&self) -> nat {
        self.entries.cap()
    }

    /// Well-formedness: positive dimensions, at most `cap()` entries, each with a row
    /// in `0..nrows` and a column in `0..ncols`.
    pub closed spec fn wf(&self) -> bool {
        &&& self.nrows.value() > 0
        &&& self.ncols.value() > 0
        &&& self.entries.wf()
        &&& forall|k: int|
            0 <= k < self.entries@.len() ==> {
                &&& 0 <= (#[trigger] self.entries@[k]).0.value() < self.nrows.value()
                &&& 0 <= self.entries@[k].1.value() < self.ncols.value()
            }
    }

    /// Creates a new empty coordinate matrix with the given dimensions and capacity.
    ///
    /// The dimensions and the capacity must be positive, and the capacity must give a
    /// valid memory layout, which `fits_layout::<(I, I, S)>(capacity)` tests.
    pub fn new(nrows: I, ncols: I, capacity: usize) -> (r: Self)
        requires
            nrows.value() > 0,
            ncols.value() > 0,
            capacity > 0,
            fits::<(I, I, S)>(capacity as int),
        ensures
            r.wf(),
            r.rows() == nrows,
            r.cols() == ncols,
            r.entries() == Seq::<(I, I, S)>::empty(),
            r.cap() == capacity,
    {
        CoordinateMatrix { nrows, ncols, entries: Array::with_capacity(capacity) }
    }

    /// Returns the number of rows.
    pub fn nrows(&self) -> (r: I)
        ensures
            r == self.rows(),
    {
        self.nrows
    }

    /// Returns the number of columns.
    pub fn ncols(&self) -> (r: I)
        ensures
            r == self.cols(),
    {
        self.ncols
    }

    /// Returns the number of entries in the matrix.
    pub fn length(&self) -> (r: usize)
        ensures
            r == self.entries().len(),
    {
        self.entries.length()
    }

    /// Returns the capacity of the matrix.
    pub fn capacity(&self) -> (r: usize)
        ensures
            r == self.cap(),
    {
        self.entries.capacity()
    }

    /// Clears the matrix.
    pub fn clear(&mut self)
        requires
            old(self).wf(),
        ensures
            final(self).wf(),
            final(self).rows() == old(self).rows(),
            final(self).cols() == old(self).cols(),
            final(self).cap() == old(self).cap(),
            final(self).entries() == Seq::<(I, I, S)>::empty(),
    {
        self.entries.clear();
    }

    /// Pushes a new entry to the matrix.
    ///
    /// `row` must be in `0..nrows`, `col` in `0..ncols`, and the matrix must not be full.
    pub fn push(&mut self, row: I, col: I, value: S)
        requires
            old(self).wf(),
            0 <= row.value() < old(self).rows().value(),
            0 <= col.value() < old(self).cols().value(),
            old(self).entries().len() < old(self).cap(),
        ensures
            final(self).wf(),
            final(self).rows() == old(self).rows(),
            final(self).cols() == old(self).cols(),
            final(self).cap() == old(self).cap(),
            final(self).entries() == old(self).entries().push((row, col, value)),
    {
        let r = self.entries.push((row, col, value));
        assert(r is Ok);
        assert forall|k: int| 0 <= k < self.entries@.len() implies {
            &&& 0 <= (#[trigger] self.entries@[k]).0.value() < self.nrows.value()
            &&& 0 <= self.entries@[k].1.value() < self.ncols.value()
        } by {
            if k < old(self).entries@.len() {
                assert(self.entries@[k] == old(self).entries@[k]);
            }
        }
    }

    /// Returns all entries of the matrix, in insertion order.
    pub fn iter(&self) -> (r: Vec<(I, I, S)>)
        ensures
            r@ == self.entries(),
    {
        let slice = self.entries.as_slice();
        let n = slice.len();
        let mut r: Vec<(I, I, S)> = Vec::new();
        let mut k: usize = 0;
        while k < n
            invariant
                k <= n == slice@.len(),
                r@ == slice@.subrange(0, k as int),
            decreases n - k,
        {
            r.push(slice[k]);
            k = k + 1;
        }
        r
    }

    /// Replaces the value of the entry at position `index`, keeping its coordinates.
    pub fn set_value(&mut self, index: usize, value: S)
        requires
            old(self).wf(),
            index < old(self).entries().len(),
        ensures
            final(self).wf(),
            final(self).rows() == old(self).rows(),
            final(self).cols() == old(self).cols(),
            final(self).cap() == old(self).cap(),
            final(self).entries() == old(self).entries().update(
                index as int,
                (old(self).entries()[index as int].0, old(self).entries()[index as int].1, value),
            ),
    {
        let (row, col, _) = self.entries.get(index);
        self.entries.set(index, (row, col, value));
        assert forall|k: int| 0 <= k < self.entries@.len() implies {
            &&& 0 <= (#[trigger] self.entries@[k]).0.value() < self.nrows.value()
            &&& 0 <= self.entries@[k].1.value() < self.ncols.value()
        } by {
            assert(0 <= old(self).entries@[k].0.value() < self.nrows.value());
        }
    }
}

impl<I: Int, S: Scalar> Clone for CoordinateMatrix<I, S> {
    fn clone(&self) -> (r: Self)
        ensures
            r.rows() == self.rows(),
            r.cols() == self.cols(),
            r.entries() == self.entries(),
            r.cap() == self.cap(),
            self.wf() ==> r.wf(),
    {
        CoordinateMatrix { nrows: self.nrows, ncols: self.ncols, entries: self.entries.clone() }
    }
}

} // verus!
