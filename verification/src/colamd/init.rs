//! Initialization of the COLAMD workspace: column form, row form and row degrees.
use vstd::prelude::*;

use super::col::ColamdCol;
use super::error::{ColamdError, ColamdErrorKind};
use super::integer::ColamdInt;
use super::model::{
    check_error, col_entries, colptr_error_from, column_error_from, input_error,
    lemma_occurrences_extend, lemma_occurrences_prefix, lemma_row_count_monotonic,
    lemma_rows_total, lemma_rows_total_monotonic, occurrences, row_count, rows_total,
    rowind_error_from, valid_shape,
};
use super::row::ColamdRow;
use super::{array_error, Colamd, EMPTY};

verus! {

/// The row record `row` holds the given values.
pub open spec fn row_is(row: ColamdRow, start: int, length: int, degree: int, mark: int) -> bool {
    &&& row.start == start
    &&& row.length == length
    &&& row.degree == degree
    &&& row.mark == mark
}

/// The record of column `c` once the column form is built.
pub open spec fn initial_col<I: ColamdInt>(colptr: Seq<I>, c: int) -> ColamdCol {
    ColamdCol {
        start: colptr[c].value() as i64,
        length: (colptr[c + 1].value() - colptr[c].value()) as i64,
        weight: 1,
        rank: 0,
        prev: EMPTY,
        next: EMPTY,
    }
}

/// The `n` column records of the column form.
pub open spec fn cols_initialized<I: ColamdInt>(
    cols: Seq<ColamdCol>,
    colptr: Seq<I>,
    n: int,
) -> bool {
    &&& cols.len() == n
    &&& forall|c: int| #![trigger cols[c]] 0 <= c < n ==> cols[c] == initial_col(colptr, c)
}

/// The column pointers `colptr[0..=n]` are non-decreasing.
pub open spec fn monotonic<I: ColamdInt>(colptr: Seq<I>, n: int) -> bool {
    forall|a: int, b: int|
        0 <= a <= b <= n ==> #[trigger] colptr[a].value() <= #[trigger] colptr[b].value()
}

/// The first position of row `r` in the row form.
pub open spec fn row_start<I: ColamdInt>(colptr: Seq<I>, rowind: Seq<I>, r: int, n: int) -> int {
    colptr[n].value() + rows_total(colptr, rowind, r, n)
}

/// The columns among `0..j` that hold row `r`, in increasing order, each as many
/// times as it holds `r`: the row form of row `r`.
pub open spec fn row_cols<I: ColamdInt>(colptr: Seq<I>, rowind: Seq<I>, r: int, j: int) -> Seq<
    int,
>
    decreases j,
{
    if j <= 0 {
        Seq::empty()
    } else {
        row_cols(colptr, rowind, r, j - 1) + Seq::new(
            occurrences(col_entries(colptr, rowind, j - 1), r),
            |k: int| j - 1,
        )
    }
}

/// The row form of row `r` in the columns `0..j`, followed by `j` once per entry of
/// row `r` among `rowind[start..p]`.
pub open spec fn partial_row_cols<I: ColamdInt>(
    colptr: Seq<I>,
    rowind: Seq<I>,
    r: int,
    j: int,
    start: int,
    p: int,
) -> Seq<int> {
    row_cols(colptr, rowind, r, j) + Seq::new(
        occurrences(rowind.subrange(start, p), r),
        |k: int| j,
    )
}

/// `inds[base..base + s.len()]` holds `s`.
pub open spec fn holds_at(inds: Seq<i64>, base: int, s: Seq<int>) -> bool {
    &&& 0 <= base
    &&& base + s.len() <= inds.len()
    &&& forall|t: int| 0 <= t < s.len() ==> #[trigger] inds[base + t] == s[t]
}

/// `inds` holds the row form of each of the rows `0..m` from its row start on.
pub open spec fn row_form<I: ColamdInt>(
    inds: Seq<i64>,
    colptr: Seq<I>,
    rowind: Seq<I>,
    m: int,
    n: int,
) -> bool {
    forall|r: int|
        0 <= r < m ==> #[trigger] holds_at(
            inds,
            row_start(colptr, rowind, r, n),
            row_cols(colptr, rowind, r, n),
        )
}

/// The row form of row `r` has one entry per entry of the row.
pub proof fn lemma_row_cols_len<I: ColamdInt>(colptr: Seq<I>, rowind: Seq<I>, r: int, j: int)
    ensures
        row_cols(colptr, rowind, r, j).len() == row_count(colptr, rowind, r, j),
    decreases j,
{
    if j > 0 {
        lemma_row_cols_len(colptr, rowind, r, j - 1);
    }
}

/// The rows of a valid input occupy disjoint ranges from their row starts on.
pub proof fn lemma_row_ranges<I: ColamdInt>(
    m: int,
    n: int,
    colptr: Seq<I>,
    rowind: Seq<I>,
    r1: int,
    r2: int,
)
    requires
        0 <= r1 < r2 < m,
    ensures
        row_start(colptr, rowind, r1, n) + row_count(colptr, rowind, r1, n) <= row_start(
            colptr,
            rowind,
            r2,
            n,
        ),
{
    lemma_rows_total_monotonic(colptr, rowind, r1 + 1, r2, n);
}

/// Writing outside `base..base + s.len()` keeps `s` there.
pub proof fn lemma_holds_at_frame(inds: Seq<i64>, base: int, s: Seq<int>, w: int, v: i64)
    requires
        holds_at(inds, base, s),
        0 <= w < inds.len(),
        w < base || w >= base + s.len(),
    ensures
        holds_at(inds.update(w, v), base, s),
{
    assert forall|t: int| 0 <= t < s.len() implies #[trigger] inds.update(w, v)[base + t] == s[t] by {
        assert(inds[base + t] == s[t]);
    }
}

/// Writing `v` right after `base..base + s.len()` extends `s` by `v`.
pub proof fn lemma_holds_at_push(inds: Seq<i64>, base: int, s: Seq<int>, v: i64)
    requires
        holds_at(inds, base, s),
        base + s.len() < inds.len(),
    ensures
        holds_at(inds.update(base + s.len(), v), base, s.push(v as int)),
{
    let u = inds.update(base + s.len(), v);
    assert forall|t: int| 0 <= t < s.len() + 1 implies #[trigger] u[base + t] == s.push(v as int)[t] by {
        if t < s.len() {
            assert(inds[base + t] == s[t]);
        }
    }
}

/// Row `r`'s entries among `rowind[start..p + 1]` of column `j`, after those of the
/// columns before `j`, are at most the entries of row `r`.
pub proof fn lemma_partial_len<I: ColamdInt>(
    colptr: Seq<I>,
    rowind: Seq<I>,
    n: int,
    j: int,
    start: int,
    p: int,
    r: int,
)
    requires
        0 <= j < n,
        start == colptr[j].value(),
        0 <= start <= p < colptr[j + 1].value() <= rowind.len(),
    ensures
        partial_row_cols(colptr, rowind, r, j, start, p + 1).len() <= row_count(
            colptr,
            rowind,
            r,
            n,
        ),
{
    let col_j = col_entries(colptr, rowind, j);
    let k = p + 1 - start;
    assert(col_j.subrange(0, k) =~= rowind.subrange(start, p + 1));
    lemma_occurrences_prefix(col_j, k, r);
    lemma_row_count_monotonic(colptr, rowind, r, j + 1, n);
    lemma_row_cols_len(colptr, rowind, r, j);
}

/// Writing column `j` at the next free place of row `rowind[p]` extends its row
/// form by `j` and keeps the row form of every other row.
pub proof fn lemma_fill_step<I: ColamdInt>(
    colptr: Seq<I>,
    rowind: Seq<I>,
    m: int,
    n: int,
    j: int,
    start: int,
    p: int,
    inds: Seq<i64>,
    w: int,
)
    requires
        0 <= j < n,
        j <= i64::MAX,
        start == colptr[j].value(),
        0 <= start <= p < colptr[j + 1].value() <= rowind.len(),
        0 <= rowind[p].value() < m,
        forall|r: int|
            0 <= r < m ==> #[trigger] holds_at(
                inds,
                row_start(colptr, rowind, r, n),
                partial_row_cols(colptr, rowind, r, j, start, p),
            ),
        w == row_start(colptr, rowind, rowind[p].value(), n) + partial_row_cols(
            colptr,
            rowind,
            rowind[p].value(),
            j,
            start,
            p,
        ).len(),
        0 <= w < inds.len(),
    ensures
        forall|r: int|
            0 <= r < m ==> #[trigger] holds_at(
                inds.update(w, j as i64),
                row_start(colptr, rowind, r, n),
                partial_row_cols(colptr, rowind, r, j, start, p + 1),
            ),
{
    let ru = rowind[p].value();
    assert forall|r: int| 0 <= r < m implies #[trigger] holds_at(
        inds.update(w, j as i64),
        row_start(colptr, rowind, r, n),
        partial_row_cols(colptr, rowind, r, j, start, p + 1),
    ) by {
        let base = row_start(colptr, rowind, r, n);
        let ext = partial_row_cols(colptr, rowind, r, j, start, p);
        assert(holds_at(inds, base, ext));
        lemma_occurrences_extend(rowind, start, p, r);
        if r == ru {
            lemma_holds_at_push(inds, base, ext, j as i64);
            assert(partial_row_cols(colptr, rowind, r, j, start, p + 1) =~= ext.push(j));
        } else {
            assert(partial_row_cols(colptr, rowind, r, j, start, p + 1) =~= ext);
            lemma_partial_len(colptr, rowind, n, j, start, p, r);
            lemma_partial_len(colptr, rowind, n, j, start, p, ru);
            lemma_occurrences_extend(rowind, start, p, ru);
            assert(partial_row_cols(colptr, rowind, ru, j, start, p + 1).len() == partial_row_cols(
                colptr,
                rowind,
                ru,
                j,
                start,
                p,
            ).len() + 1);
            if r < ru {
                lemma_row_ranges(m, n, colptr, rowind, r, ru);
            } else {
                lemma_row_ranges(m, n, colptr, rowind, ru, r);
            }
            lemma_holds_at_frame(inds, base, ext, w, j as i64);
        }
    }
}

impl<I: ColamdInt> Colamd<I> {
    /// The workspace holds both forms of the valid input `(nrows, ncols, colptr,
    /// rowind)`: the column records in `cols`, the column form in `inds[0..nnz]`, the
    /// row records, lengths and degrees in `rows`, and the row form in
    /// `inds[nnz..2 * nnz]`: the rows one after another, each listing the columns that
    /// hold it in increasing order.
    pub(crate) open spec fn initialized(
        &self,
        nrows: I,
        ncols: I,
        colptr: Seq<I>,
        rowind: Seq<I>,
    ) -> bool {
        let n = ncols.value();
        let nnz = colptr[n].value();
        &&& valid_shape(nrows.value(), n, colptr, rowind)
        &&& cols_initialized(self.cols@, colptr, n)
        &&& self.rows@.len() == nrows.value()
        &&& self.inds@.len() == 2 * nnz
        &&& forall|r: int|
            #![trigger self.rows@[r]]
            0 <= r < nrows.value() ==> row_is(self.rows@[r], (row_start(colptr, rowind, r, n)) as int, (row_count(colptr, rowind, r, n)) as int, (row_count(colptr, rowind, r, n)) as int, 0)
        &&& forall|p: int| 0 <= p < nnz ==> #[trigger] self.inds@[p] == rowind[p].value()
        &&& row_form(self.inds@, colptr, rowind, nrows.value(), n)
    }

    /// Build the column records, checking the column pointers.
    #[verifier::loop_isolation(false)]
    fn init_cols(&mut self, ncols: I, nnz: I, colptr: &[I]) -> (r: Result<(), ColamdError<I>>)
        requires
            old(self).wf(),
            0 < ncols.value() <= isize::MAX,
            colptr@.len() == ncols.value() + 1,
            colptr@[0].value() == 0,
            nnz == colptr@[ncols.value()],
            0 < nnz.value() <= isize::MAX,
        ensures
            final(self).wf(),
            final(self).rows == old(self).rows,
            final(self).inds == old(self).inds,
            final(self).degree == old(self).degree,
            final(self).config == old(self).config,
            final(self).cols.cap() == old(self).cols.cap(),
            r matches Err(e) ==> (Some(e.error_kind()) == colptr_error_from(
                ncols.value(),
                nnz.value(),
                colptr@,
                0,
            ) || (e.error_kind() is ArrayError && old(self).cols.cap() < ncols.value())),
            old(self).cols.cap() >= ncols.value() && colptr_error_from(
                ncols.value(),
                nnz.value(),
                colptr@,
                0,
            ) is None ==> r is Ok,
            r is Ok ==> {
                &&& colptr_error_from(ncols.value(), nnz.value(), colptr@, 0) is None
                &&& monotonic(colptr@, ncols.value())
                &&& cols_initialized(final(self).cols@, colptr@, ncols.value())
            },
    {
        let ghost cp = colptr@;
        let n = ncols.to_i64() as usize;
        let nz = nnz.to_i64();
        self.cols.clear();
        let mut start: i64 = 0;
        let mut c: usize = 0;
        while c < n
            invariant
                self.cols.wf(),
                self.cols.cap() == old(self).cols.cap(),
                self.rows == old(self).rows,
                self.inds == old(self).inds,
                self.degree == old(self).degree,
                self.config == old(self).config,
                c <= n,
                start == cp[c as int].value(),
                0 <= start <= nz,
                colptr_error_from(n as int, nz as int, cp, 0) == colptr_error_from(
                    n as int,
                    nz as int,
                    cp,
                    c as int,
                ),
                monotonic(cp, c as int),
                cols_initialized(self.cols@, cp, c as int),
            decreases n - c,
        {
            let stop = colptr[c + 1].to_i64();
            // Check maximum.
            if stop > nz {
                return Err(
                    ColamdError::from_kind(
                        ColamdErrorKind::InvalidColPtr { index: c + 1, ptr: colptr[c + 1] },
                    ),
                );
            }
            // Check increasing order.
            if stop < start {
                return Err(
                    ColamdError::from_kind(
                        ColamdErrorKind::DecreasingColptrSlice {
                            col: c,
                            start: colptr[c],
                            stop: colptr[c + 1],
                        },
                    ),
                );
            }
            let length = stop - start;
            match self.cols.push(
                ColamdCol { start, length, weight: 1, rank: 0, prev: EMPTY, next: EMPTY },
            ) {
                Ok(()) => {},
                Err(e) => {
                    return Err(array_error(e));
                },
            }
            start = stop;
            c = c + 1;
        }
        Ok(())
    }

    /// Count the entries of each row, checking the row indices of each column.
    #[verifier::loop_isolation(false)]
    fn count_rows(&mut self, nrows: I, ncols: I, nnz: I, colptr: &[I], rowind: &[I]) -> (r: Result<
        (),
        ColamdError<I>,
    >)
        requires
            old(self).wf(),
            0 < nrows.value() <= isize::MAX,
            0 < ncols.value() <= isize::MAX,
            colptr@.len() == ncols.value() + 1,
            colptr@[0].value() == 0,
            nnz == colptr@[ncols.value()],
            0 < nnz.value() <= isize::MAX,
            rowind@.len() == nnz.value(),
            monotonic(colptr@, ncols.value()),
            cols_initialized(old(self).cols@, colptr@, ncols.value()),
        ensures
            final(self).wf(),
            final(self).cols == old(self).cols,
            final(self).inds == old(self).inds,
            final(self).degree == old(self).degree,
            final(self).config == old(self).config,
            final(self).rows.cap() == old(self).rows.cap(),
            r matches Err(e) ==> (Some(e.error_kind()) == rowind_error_from(
                nrows,
                ncols.value(),
                colptr@,
                rowind@,
                0,
            ) || (e.error_kind() is ArrayError && old(self).rows.cap() < nrows.value())),
            old(self).rows.cap() >= nrows.value() && rowind_error_from(
                nrows,
                ncols.value(),
                colptr@,
                rowind@,
                0,
            ) is None ==> r is Ok,
            r is Ok ==> {
                &&& rowind_error_from(nrows, ncols.value(), colptr@, rowind@, 0) is None
                &&& valid_shape(nrows.value(), ncols.value(), colptr@, rowind@)
                &&& final(self).rows@.len() == nrows.value()
                &&& forall|r: int|
                    #![trigger final(self).rows@[r]]
                    0 <= r < nrows.value() ==> row_is(final(self).rows@[r], (nnz.value()) as int, (row_count(colptr@, rowind@, r, ncols.value())) as int, -1, 0)
            },
    {
        let ghost cp = colptr@;
        let ghost ri = rowind@;
        let n = ncols.to_i64() as usize;
        let m = nrows.to_i64() as usize;
        let nz = nnz.to_i64();
        // Resize and initialize rows.
        let default = ColamdRow { start: nz, length: 0, degree: EMPTY, mark: 0 };
        match self.rows.resize(m, default) {
            Ok(()) => {},
            Err(e) => {
                return Err(array_error(e));
            },
        }
        let mut j: usize = 0;
        while j < n
            invariant
                self.rows.wf(),
                self.rows.cap() == old(self).rows.cap(),
                self.rows@.len() == m,
                self.cols == old(self).cols,
                self.inds == old(self).inds,
                self.degree == old(self).degree,
                self.config == old(self).config,
                j <= n,
                rowind_error_from(nrows, n as int, cp, ri, 0) == rowind_error_from(
                    nrows,
                    n as int,
                    cp,
                    ri,
                    j as int,
                ),
                forall|p: int| 0 <= p < cp[j as int].value() ==> 0 <= #[trigger] ri[p].value() < m,
                forall|r: int|
                    #![trigger self.rows@[r]]
                    0 <= r < m ==> row_is(self.rows@[r], (nz) as int, (row_count(cp, ri, r, j as int)) as int, -1, 0),
                forall|r: int| 0 <= r < m ==> row_count(cp, ri, r, j as int) <= cp[j as int].value(),
            decreases n - j,
        {
            let col = self.cols.get(j);
            let start = col.start;
            let stop = start + col.length;
            let mut prev: i64 = EMPTY;
            let mut p = start;
            assert(cp[j as int].value() <= cp[j as int + 1].value());
            assert(cp[j as int + 1].value() <= cp[n as int].value());
            while p < stop
                invariant
                    self.rows.wf(),
                    self.rows.cap() == old(self).rows.cap(),
                    self.rows@.len() == m,
                    self.cols == old(self).cols,
                    self.inds == old(self).inds,
                    self.degree == old(self).degree,
                    self.config == old(self).config,
                    start == cp[j as int].value(),
                    stop == cp[j as int + 1].value(),
                    start <= p <= stop <= nz,
                    j < n,
                    column_error_from(nrows, ri, j as int, start as int, stop as int, -1)
                        == column_error_from(nrows, ri, j as int, p as int, stop as int, prev as int),
                    prev == (if p == start {
                        -1
                    } else {
                        ri[p - 1].value()
                    }),
                    forall|q: int| 0 <= q < p ==> 0 <= #[trigger] ri[q].value() < m,
                    forall|r: int|
                        #![trigger self.rows@[r]]
                        0 <= r < m ==> row_is(self.rows@[r], (nz) as int, (row_count(cp, ri, r, j as int) + occurrences( ri.subrange(start as int, p as int), r, )) as int, -1, 0),
                    forall|r: int|
                        0 <= r < m ==> row_count(cp, ri, r, j as int) + occurrences(
                            ri.subrange(start as int, p as int),
                            r,
                        ) <= p,
                decreases stop - p,
            {
                let pu = p as usize;
                let row = rowind[pu];
                let rv = row.to_i64();
                // Check bounds.
                if rv >= m as i64 || rv < 0 {
                    return Err(
                        ColamdError::from_kind(
                            ColamdErrorKind::OutOfBoundRowIndex { index: pu, row, nrows },
                        ),
                    );
                }
                // Check if row indices in column is ordered and unique.
                if rv <= prev {
                    proof {
                        ncols.lemma_bounds();
                    }
                    return Err(
                        ColamdError::from_kind(
                            ColamdErrorKind::UnorderedRowIndSlice {
                                col: I::from_i64(j as i64),
                                ptr: pu,
                            },
                        ),
                    );
                }
                prev = rv;
                let ru = rv as usize;
                let mut entry = self.rows.get(ru);
                entry.length = entry.length + 1;
                self.rows.set(ru, entry);
                proof {
                    assert forall|r: int| 0 <= r < m implies occurrences(
                        ri.subrange(start as int, p + 1),
                        r,
                    ) == occurrences(ri.subrange(start as int, p as int), r) + if ri[p as int].value()
                        == r {
                        1nat
                    } else {
                        0nat
                    } by {
                        lemma_occurrences_extend(ri, start as int, p as int, r);
                    }
                }
                p = p + 1;
            }
            proof {
                assert(ri.subrange(start as int, stop as int) == col_entries(cp, ri, j as int));
                assert forall|r: int| 0 <= r < m implies #[trigger] row_count(cp, ri, r, j + 1) <= cp[j
                    + 1].value() by {
                    assert(row_count(cp, ri, r, j + 1) == row_count(cp, ri, r, j as int)
                        + occurrences(col_entries(cp, ri, j as int), r));
                }
            }
            j = j + 1;
        }
        Ok(())
    }

    /// Make room for the row form and set the row pointers.
    #[verifier::loop_isolation(false)]
    #[verifier::rlimit(80)]
    fn link_rows(&mut self, nrows: I, ncols: I, nnz: I, colptr: &[I], rowind: &[I]) -> (r: Result<
        (),
        ColamdError<I>,
    >)
        requires
            old(self).wf(),
            nrows.value() <= isize::MAX,
            ncols.value() <= isize::MAX,
            nnz == colptr@[ncols.value()],
            0 < nnz.value() <= isize::MAX,
            valid_shape(nrows.value(), ncols.value(), colptr@, rowind@),
            old(self).rows@.len() == nrows.value(),
            forall|r: int|
                #![trigger old(self).rows@[r]]
                0 <= r < nrows.value() ==> row_is(old(self).rows@[r], (nnz.value()) as int, (row_count(colptr@, rowind@, r, ncols.value())) as int, -1, 0),
        ensures
            final(self).wf(),
            final(self).cols == old(self).cols,
            final(self).degree == old(self).degree,
            final(self).config == old(self).config,
            final(self).rows.cap() == old(self).rows.cap(),
            final(self).inds.cap() == old(self).inds.cap(),
            r matches Err(e) ==> e.error_kind() is ArrayError && old(self).inds.cap() < 2
                * nnz.value(),
            old(self).inds.cap() >= 2 * nnz.value() ==> r is Ok,
            r is Ok ==> {
                &&& final(self).inds@.len() == 2 * nnz.value()
                &&& final(self).rows@.len() == nrows.value()
                &&& forall|r: int|
                    #![trigger final(self).rows@[r]]
                    0 <= r < nrows.value() ==> row_is(final(self).rows@[r], (row_start(colptr@, rowind@, r, ncols.value())) as int, (row_count(colptr@, rowind@, r, ncols.value())) as int, (row_start(colptr@, rowind@, r, ncols.value())) as int, -1)
            },
    {
        let ghost cp = colptr@;
        let ghost ri = rowind@;
        let ghost n = ncols.value();
        let m = nrows.to_i64() as usize;
        let nz = nnz.to_i64();
        proof {
            lemma_rows_total(m as int, n, cp, ri, n);
            assert forall|r: int| 0 <= r < m implies nz + rows_total(cp, ri, r, n) + row_count(
                cp,
                ri,
                r,
                n,
            ) <= 2 * nz by {
                lemma_rows_total_monotonic(cp, ri, r + 1, m as int, n);
            }
        }
        // Initialize column/row indices.
        let twice = 2 * (nz as usize);
        match self.inds.resize(twice, EMPTY) {
            Ok(()) => {},
            Err(e) => {
                return Err(array_error(e));
            },
        }
        // Create row pointers.
        let mut ptr: i64 = nz;
        let mut i: usize = 0;
        while i < m
            invariant
                self.rows.wf(),
                self.rows.cap() == old(self).rows.cap(),
                self.rows@.len() == m,
                self.inds.wf(),
                self.inds.cap() == old(self).inds.cap(),
                self.inds@.len() == 2 * nz,
                self.cols == old(self).cols,
                self.degree == old(self).degree,
                self.config == old(self).config,
                i <= m,
                ptr == nz + rows_total(cp, ri, i as int, n),
                forall|r: int|
                    #![trigger self.rows@[r]]
                    0 <= r < i ==> row_is(self.rows@[r], (row_start(cp, ri, r, n)) as int, (row_count(cp, ri, r, n)) as int, (row_start(cp, ri, r, n)) as int, -1),
                forall|r: int|
                    #![trigger self.rows@[r]]
                    i <= r < m ==> self.rows@[r] == old(self).rows@[r],
            decreases m - i,
        {
            let mut entry = self.rows.get(i);
            entry.start = ptr;
            entry.degree = ptr;
            ptr = ptr + entry.length;
            entry.mark = EMPTY;
            self.rows.set(i, entry);
            i = i + 1;
        }
        Ok(())
    }

    /// Fill the row form: `inds[row_start(r)..row_start(r) + row_count(r)]` receives
    /// the columns of row `r`, in increasing order; each row degree ends one past the
    /// last entry of its row.
    #[verifier::loop_isolation(false)]
    fn fill_rows(&mut self, nrows: I, ncols: I, nnz: I, colptr: &[I], rowind: &[I])
        requires
            old(self).wf(),
            nrows.value() <= isize::MAX,
            ncols.value() <= isize::MAX,
            nnz == colptr@[ncols.value()],
            0 < nnz.value() <= isize::MAX,
            valid_shape(nrows.value(), ncols.value(), colptr@, rowind@),
            cols_initialized(old(self).cols@, colptr@, ncols.value()),
            old(self).inds@.len() == 2 * nnz.value(),
            old(self).rows@.len() == nrows.value(),
            forall|r: int|
                #![trigger old(self).rows@[r]]
                0 <= r < nrows.value() ==> row_is(old(self).rows@[r], (row_start(colptr@, rowind@, r, ncols.value())) as int, (row_count(colptr@, rowind@, r, ncols.value())) as int, (row_start(colptr@, rowind@, r, ncols.value())) as int, -1),
        ensures
            final(self).wf(),
            final(self).cols == old(self).cols,
            final(self).degree == old(self).degree,
            final(self).config == old(self).config,
            final(self).rows.cap() == old(self).rows.cap(),
            final(self).inds.cap() == old(self).inds.cap(),
            final(self).inds@.len() == 2 * nnz.value(),
            final(self).rows@.len() == nrows.value(),
            forall|r: int|
                #![trigger final(self).rows@[r]]
                0 <= r < nrows.value() ==> row_is(final(self).rows@[r], (row_start(colptr@, rowind@, r, ncols.value())) as int, (row_count(colptr@, rowind@, r, ncols.value())) as int, (row_start(colptr@, rowind@, r, ncols.value()) + row_count( colptr@, rowind@, r, ncols.value(), )) as int, -1),
            row_form(final(self).inds@, colptr@, rowind@, nrows.value(), ncols.value()),
    {
        let ghost cp = colptr@;
        let ghost ri = rowind@;
        let n = ncols.to_i64() as usize;
        let ghost m = nrows.value();
        let ghost nz = nnz.value();
        proof {
            lemma_rows_total(m, n as int, cp, ri, n as int);
            assert forall|r: int| 0 <= r < m implies nz + rows_total(cp, ri, r, n as int)
                + row_count(cp, ri, r, n as int) <= 2 * nz by {
                lemma_rows_total_monotonic(cp, ri, r + 1, m, n as int);
            }
        }
        let mut j: usize = 0;
        while j < n
            invariant
                self.rows.wf(),
                self.rows.cap() == old(self).rows.cap(),
                self.rows@.len() == m,
                self.inds.wf(),
                self.inds.cap() == old(self).inds.cap(),
                self.inds@.len() == 2 * nz,
                self.cols == old(self).cols,
                self.degree == old(self).degree,
                self.config == old(self).config,
                j <= n,
                forall|r: int|
                    #![trigger self.rows@[r]]
                    0 <= r < m ==> row_is(self.rows@[r], (row_start(cp, ri, r, n as int)) as int, (row_count(cp, ri, r, n as int)) as int, (row_start(cp, ri, r, n as int) + row_count( cp, ri, r, j as int, )) as int, -1),
                forall|r: int|
                    0 <= r < m ==> #[trigger] holds_at(
                        self.inds@,
                        row_start(cp, ri, r, n as int),
                        row_cols(cp, ri, r, j as int),
                    ),
            decreases n - j,
        {
            let col = self.cols.get(j);
            let start = col.start;
            let stop = start + col.length;
            let mut p = start;
            assert(cp[j as int].value() <= cp[j as int + 1].value());
            assert(cp[j as int + 1].value() <= cp[n as int].value());
            proof {
                assert forall|r: int| 0 <= r < m implies #[trigger] holds_at(
                    self.inds@,
                    row_start(cp, ri, r, n as int),
                    partial_row_cols(cp, ri, r, j as int, start as int, p as int),
                ) by {
                    assert(ri.subrange(start as int, start as int).len() == 0);
                    assert(partial_row_cols(cp, ri, r, j as int, start as int, p as int) =~= row_cols(
                        cp,
                        ri,
                        r,
                        j as int,
                    ));
                }
            }
            while p < stop
                invariant
                    self.rows.wf(),
                    self.rows.cap() == old(self).rows.cap(),
                    self.rows@.len() == m,
                    self.inds.wf(),
                    self.inds.cap() == old(self).inds.cap(),
                    self.inds@.len() == 2 * nz,
                    self.cols == old(self).cols,
                    self.degree == old(self).degree,
                    self.config == old(self).config,
                    start == cp[j as int].value(),
                    stop == cp[j as int + 1].value(),
                    start <= p <= stop <= nz,
                    j < n,
                    forall|r: int|
                        #![trigger self.rows@[r]]
                        0 <= r < m ==> row_is(self.rows@[r], (row_start(cp, ri, r, n as int)) as int, (row_count(cp, ri, r, n as int)) as int, (row_start(cp, ri, r, n as int) + row_count( cp, ri, r, j as int, ) + occurrences(ri.subrange(start as int, p as int), r)) as int, -1),
                    forall|r: int|
                        0 <= r < m ==> #[trigger] holds_at(
                            self.inds@,
                            row_start(cp, ri, r, n as int),
                            partial_row_cols(cp, ri, r, j as int, start as int, p as int),
                        ),
                decreases stop - p,
            {
                let pu = p as usize;
                let ru = rowind[pu].to_i64() as usize;
                let mut entry = self.rows.get(ru);
                proof {
                    let col_j = col_entries(cp, ri, j as int);
                    let k = p - start + 1;
                    assert(col_j.subrange(0, k) =~= ri.subrange(start as int, p + 1));
                    lemma_occurrences_prefix(col_j, k, ru as int);
                    lemma_occurrences_extend(ri, start as int, p as int, ru as int);
                    lemma_row_count_monotonic(cp, ri, ru as int, j + 1, n as int);
                }
                let ghost inds_b = self.inds@;
                proof {
                    lemma_row_cols_len(cp, ri, ru as int, j as int);
                    lemma_fill_step(cp, ri, m, n as int, j as int, start as int, p as int, inds_b, entry.degree as int);
                }
                self.inds.set(entry.degree as usize, j as i64);
                entry.degree = entry.degree + 1;
                self.rows.set(ru, entry);
                proof {
                    assert forall|r: int| 0 <= r < m implies occurrences(
                        ri.subrange(start as int, p + 1),
                        r,
                    ) == occurrences(ri.subrange(start as int, p as int), r) + if ri[p as int].value()
                        == r {
                        1nat
                    } else {
                        0nat
                    } by {
                        lemma_occurrences_extend(ri, start as int, p as int, r);
                    }
                }
                p = p + 1;
            }
            proof {
                assert(ri.subrange(start as int, stop as int) == col_entries(cp, ri, j as int));
                assert forall|r: int| 0 <= r < m implies #[trigger] holds_at(
                    self.inds@,
                    row_start(cp, ri, r, n as int),
                    row_cols(cp, ri, r, j + 1),
                ) by {
                    assert(partial_row_cols(cp, ri, r, j as int, start as int, stop as int) =~= row_cols(
                        cp,
                        ri,
                        r,
                        j + 1,
                    ));
                }
            }
            j = j + 1;
        }
    }

    /// Copy the column form into `inds[0..nnz]` and reset the row degrees and marks.
    #[verifier::loop_isolation(false)]
    fn finish_rows(&mut self, nrows: I, ncols: I, nnz: I, colptr: &[I], rowind: &[I])
        requires
            old(self).wf(),
            nrows.value() <= isize::MAX,
            ncols.value() <= isize::MAX,
            nnz == colptr@[ncols.value()],
            0 < nnz.value() <= isize::MAX,
            valid_shape(nrows.value(), ncols.value(), colptr@, rowind@),
            cols_initialized(old(self).cols@, colptr@, ncols.value()),
            old(self).inds@.len() == 2 * nnz.value(),
            old(self).rows@.len() == nrows.value(),
            forall|r: int|
                #![trigger old(self).rows@[r]]
                0 <= r < nrows.value() ==> old(self).rows@[r].start == row_start(
                    colptr@,
                    rowind@,
                    r,
                    ncols.value(),
                ) && old(self).rows@[r].length == row_count(colptr@, rowind@, r, ncols.value()),
            row_form(old(self).inds@, colptr@, rowind@, nrows.value(), ncols.value()),
        ensures
            final(self).wf(),
            final(self).cols == old(self).cols,
            final(self).degree == old(self).degree,
            final(self).config == old(self).config,
            final(self).rows.cap() == old(self).rows.cap(),
            final(self).inds.cap() == old(self).inds.cap(),
            final(self).initialized(nrows, ncols, colptr@, rowind@),
    {
        let ghost ri = rowind@;
        let m = nrows.to_i64() as usize;
        let nz = nnz.to_i64() as usize;
        // Copy row indices: `inds[0..nnz]` holds the rows of each column.
        let mut p: usize = 0;
        while p < nz
            invariant
                self.inds.wf(),
                self.inds.cap() == old(self).inds.cap(),
                self.inds@.len() == 2 * nz,
                self.rows == old(self).rows,
                self.cols == old(self).cols,
                self.degree == old(self).degree,
                self.config == old(self).config,
                p <= nz,
                forall|q: int| 0 <= q < p ==> #[trigger] self.inds@[q] == ri[q].value(),
                forall|q: int| nz <= q < 2 * nz ==> #[trigger] self.inds@[q] == old(self).inds@[q],
            decreases nz - p,
        {
            self.inds.set(p, rowind[p].to_i64());
            p = p + 1;
        }
        proof {
            let cp = colptr@;
            let n = ncols.value();
            assert forall|r: int| 0 <= r < nrows.value() implies #[trigger] holds_at(
                self.inds@,
                row_start(cp, ri, r, n),
                row_cols(cp, ri, r, n),
            ) by {
                let base = row_start(cp, ri, r, n);
                let rc = row_cols(cp, ri, r, n);
                assert(holds_at(old(self).inds@, base, rc));
                assert forall|t: int| 0 <= t < rc.len() implies #[trigger] self.inds@[base + t]
                    == rc[t] by {
                    assert(old(self).inds@[base + t] == rc[t]);
                    assert(nz <= base + t < 2 * nz);
                }
            }
        }
        // Set row degree.
        let ghost inds_before = self.inds;
        let mut i: usize = 0;
        while i < m
            invariant
                self.inds == inds_before,
                self.cols == old(self).cols,
                self.degree == old(self).degree,
                self.config == old(self).config,
                self.rows.wf(),
                self.rows.cap() == old(self).rows.cap(),
                self.rows@.len() == m,
                i <= m,
                forall|r: int|
                    #![trigger self.rows@[r]]
                    0 <= r < i ==> row_is(self.rows@[r], (old(self).rows@[r].start) as int, (old(self).rows@[r].length) as int, (old(self).rows@[r].length) as int, 0),
                forall|r: int|
                    #![trigger self.rows@[r]]
                    i <= r < m ==> self.rows@[r] == old(self).rows@[r],
            decreases m - i,
        {
            let mut entry = self.rows.get(i);
            entry.degree = entry.length;
            entry.mark = 0;
            self.rows.set(i, entry);
            i = i + 1;
        }
    }

    /// Initialize the row and column forms of the matrix.
    ///
    /// Fails with the first invalid column pointer or row index, in the order in which
    /// they are scanned, or when the workspace is too small.
    pub(crate) fn init(
        &mut self,
        nrows: I,
        ncols: I,
        nnz: I,
        colptr: &[I],
        rowind: &[I],
    ) -> (r: Result<(), ColamdError<I>>)
        requires
            old(self).wf(),
            check_error(nrows, ncols, colptr@, rowind@) is None,
            nnz == colptr@[ncols.value()],
        ensures
            final(self).wf(),
            final(self).config == old(self).config,
            final(self).degree == old(self).degree,
            final(self).rows.cap() == old(self).rows.cap(),
            final(self).cols.cap() == old(self).cols.cap(),
            final(self).inds.cap() == old(self).inds.cap(),
            r matches Err(e) ==> (Some(e.error_kind()) == input_error(
                nrows,
                ncols,
                colptr@,
                rowind@,
            ) || (e.error_kind() is ArrayError && !old(self).has_room(
                nrows.value(),
                ncols.value(),
                nnz.value(),
            ))),
            old(self).has_room(nrows.value(), ncols.value(), nnz.value()) && input_error(
                nrows,
                ncols,
                colptr@,
                rowind@,
            ) is None ==> r is Ok,
            r is Ok ==> input_error(nrows, ncols, colptr@, rowind@) is None
                && final(self).initialized(nrows, ncols, colptr@, rowind@),
    {
        match self.init_cols(ncols, nnz, colptr) {
            Ok(()) => {},
            Err(e) => {
                return Err(e);
            },
        }
        match self.count_rows(nrows, ncols, nnz, colptr, rowind) {
            Ok(()) => {},
            Err(e) => {
                return Err(e);
            },
        }
        match self.link_rows(nrows, ncols, nnz, colptr, rowind) {
            Ok(()) => {},
            Err(e) => {
                return Err(e);
            },
        }
        self.fill_rows(nrows, ncols, nnz, colptr, rowind);
        self.finish_rows(nrows, ncols, nnz, colptr, rowind);
        Ok(())
    }
}

} // verus!
