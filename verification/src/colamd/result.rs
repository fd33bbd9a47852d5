//! COLAMD ordering result.
use vstd::prelude::*;

use super::integer::ColamdInt;
use super::model::Matrix;
use super::order::is_permutation;
use crate::array::Array;

verus! {

/// COLAMD ordering result.
#[derive(Debug)]
pub struct ColamdResult<I: ColamdInt> {
    /// Number of columns alive.
    pub(crate) cols: I,
    /// Number of rows alive.
    pub(crate) rows: I,
    /// Maximum row degree.
    pub(crate) max_degree: I,
    /// Minimum column score.
    pub(crate) min_score: I,
    /// Column ordering.
    pub(crate) order: Array<I>,
}

impl<I: ColamdInt> ColamdResult<I> {
    /// The number of columns alive after the initial scoring.
    pub closed spec fn alive_cols(&self) -> I {
        self.cols
    }

    /// The number of rows alive after the initial scoring.
    pub closed spec fn alive_rows(&self) -> I {
        self.rows
    }

    /// The maximum degree of the rows alive after the initial scoring.
    pub closed spec fn maximum_degree(&self) -> I {
        self.max_degree
    }

    /// The minimum initial score of the columns alive after the initial scoring.
    pub closed spec fn minimum_score(&self) -> I {
        self.min_score
    }

    /// The column ordering: `ordering()[k]` is the column placed at position `k`.
    pub closed spec fn ordering(&self) -> Seq<I> {
        self.order@
    }

    /// Gather the statistics of the initial scoring and the column ordering.
    pub(crate) fn new(cols: I, rows: I, max_degree: I, min_score: I, order: Array<I>) -> (r: Self)
        ensures
            r.alive_cols() == cols,
            r.alive_rows() == rows,
            r.maximum_degree() == max_degree,
            r.minimum_score() == min_score,
            r.ordering() == order@,
    {
        ColamdResult { cols, rows, max_degree, min_score, order }
    }

    /// `self` reports the initial scoring of `mat`, and its ordering holds each column
    /// of `mat` exactly once.
    pub open spec fn scores_and_permutes(&self, mat: Matrix<I>) -> bool {
        &&& self.alive_cols().value() == mat.alive_cols(0)
        &&& self.alive_rows().value() == mat.alive_rows(mat.nrows)
        &&& self.maximum_degree().value() == mat.max_degree(mat.nrows)
        &&& self.minimum_score().value() == mat.min_score(0)
        &&& is_permutation(self.ordering(), mat.ncols)
    }

    /// The ordering of `self` places each column of `mat` that the initial scoring
    /// kills at the position that `dead_rank` gives it: after all the other columns,
    /// those left without surviving rows first, then the dense ones, then those
    /// without entries, each group in increasing column order.
    pub open spec fn places_killed(&self, mat: Matrix<I>) -> bool {
        forall|c: int|
            0 <= c < mat.ncols && !mat.col_alive(c) ==> #[trigger] self.ordering()[mat.dead_rank(
                c,
            )].value() == c
    }

    /// The statistics lie within the dimensions of an `nrows` by `ncols` matrix: at
    /// most `ncols` columns and `nrows` rows survive, no surviving row has more than
    /// `ncols` entries and no initial score exceeds `ncols`.
    pub open spec fn bounded(&self, nrows: int, ncols: int) -> bool {
        &&& 0 <= self.alive_cols().value() <= ncols
        &&& 0 <= self.alive_rows().value() <= nrows
        &&& 0 <= self.maximum_degree().value() <= ncols
        &&& 0 <= self.minimum_score().value() <= ncols
    }

    /// Returns the number of columns alive after the initial scoring.
    pub fn cols(&self) -> (r: I)
        ensures
            r == self.alive_cols(),
    {
        self.cols
    }

    /// Returns the number of rows alive after the initial scoring.
    pub fn rows(&self) -> (r: I)
        ensures
            r == self.alive_rows(),
    {
        self.rows
    }

    /// Returns the maximum row degree after the initial scoring.
    pub fn max_degree(&self) -> (r: I)
        ensures
            r == self.maximum_degree(),
    {
        self.max_degree
    }

    /// Returns the minimum column score after the initial scoring.
    pub fn min_score(&self) -> (r: I)
        ensures
            r == self.minimum_score(),
    {
        self.min_score
    }

    /// Returns the column ordering.
    pub fn order(&self) -> (r: &[I])
        ensures
            r@ == self.ordering(),
    {
        self.order.as_slice()
    }
}

} // verus!
