//! Mathematical model of the COLAMD input checks and initial scoring.
use vstd::prelude::*;

use super::error::ColamdErrorKind;
use super::integer::ColamdInt;

verus! {

/// The first violated condition among those checked before any work is done, in the
/// order in which they are checked:
/// `0 < nrows <= isize::MAX`, `0 < ncols <= isize::MAX`, `colptr` is not empty,
/// `colptr.len() == ncols + 1`, `colptr[0] == 0`, `0 <= colptr[ncols] <= isize::MAX`,
/// `colptr[ncols] != 0` and `rowind.len() == colptr[ncols]`.
pub open spec fn check_error<I: ColamdInt>(
    nrows: I,
    ncols: I,
    colptr: Seq<I>,
    rowind: Seq<I>,
) -> Option<ColamdErrorKind<I>> {
    if !(0 < nrows.value() <= isize::MAX) {
        Some(ColamdErrorKind::InvalidNumberOfRows { nrows })
    } else if !(0 < ncols.value() <= isize::MAX) {
        Some(ColamdErrorKind::InvalidNumberOfColumns { ncols })
    } else if colptr.len() == 0 {
        Some(ColamdErrorKind::EmptyColptrSlice)
    } else if colptr.len() != ncols.value() + 1 {
        Some(
            ColamdErrorKind::InvalidColptrSliceLength {
                actual: colptr.len() as usize,
                expected: (ncols.value() + 1) as usize,
            },
        )
    } else if colptr[0].value() != 0 {
        Some(ColamdErrorKind::InvalidFirstColPtr { ptr: colptr[0] })
    } else if !(0 <= colptr[ncols.value()].value() <= isize::MAX) {
        Some(
            ColamdErrorKind::InvalidColPtr {
                index: ncols.value() as usize,
                ptr: colptr[ncols.value()],
            },
        )
    } else if colptr[ncols.value()].value() == 0 {
        Some(ColamdErrorKind::EmptyMatrix)
    } else if rowind.len() != colptr[ncols.value()].value() {
        Some(
            ColamdErrorKind::InvalidRowindSliceLength {
                actual: rowind.len() as usize,
                expected: colptr[ncols.value()].value() as usize,
            },
        )
    } else {
        None
    }
}

/// The first column `col >= c` whose end pointer `colptr[col + 1]` exceeds `nnz` or
/// lies before its start pointer `colptr[col]`.
pub open spec fn colptr_error_from<I: ColamdInt>(
    ncols: int,
    nnz: int,
    colptr: Seq<I>,
    c: int,
) -> Option<ColamdErrorKind<I>>
    decreases ncols - c,
{
    if c < 0 || c >= ncols {
        None
    } else if colptr[c + 1].value() > nnz {
        Some(ColamdErrorKind::InvalidColPtr { index: (c + 1) as usize, ptr: colptr[c + 1] })
    } else if colptr[c + 1].value() < colptr[c].value() {
        Some(
            ColamdErrorKind::DecreasingColptrSlice {
                col: c as usize,
                start: colptr[c],
                stop: colptr[c + 1],
            },
        )
    } else {
        colptr_error_from(ncols, nnz, colptr, c + 1)
    }
}

/// The first entry at position `p` or after in column `c` (which ends before `stop`)
/// whose row index is out of `0..nrows`, or is not above the previous row index `prev`
/// of the column.
pub open spec fn column_error_from<I: ColamdInt>(
    nrows: I,
    rowind: Seq<I>,
    c: int,
    p: int,
    stop: int,
    prev: int,
) -> Option<ColamdErrorKind<I>>
    decreases stop - p,
{
    if p < 0 || p >= stop {
        None
    } else if rowind[p].value() >= nrows.value() || rowind[p].value() < 0 {
        Some(ColamdErrorKind::OutOfBoundRowIndex { index: p as usize, row: rowind[p], nrows })
    } else if rowind[p].value() <= prev {
        Some(ColamdErrorKind::UnorderedRowIndSlice { col: I::of(c), ptr: p as usize })
    } else {
        column_error_from(nrows, rowind, c, p + 1, stop, rowind[p].value())
    }
}

/// The first invalid row index of the columns `c` and after, scanning each column in
/// order.
pub open spec fn rowind_error_from<I: ColamdInt>(
    nrows: I,
    ncols: int,
    colptr: Seq<I>,
    rowind: Seq<I>,
    c: int,
) -> Option<ColamdErrorKind<I>>
    decreases ncols - c,
{
    if c < 0 || c >= ncols {
        None
    } else {
        match column_error_from(
            nrows,
            rowind,
            c,
            colptr[c].value(),
            colptr[c + 1].value(),
            -1,
        ) {
            Some(k) => Some(k),
            None => rowind_error_from(nrows, ncols, colptr, rowind, c + 1),
        }
    }
}

/// The error that the input `(nrows, ncols, colptr, rowind)` is reported with, if any:
/// the first violated condition, in the order in which they are checked.
pub open spec fn input_error<I: ColamdInt>(
    nrows: I,
    ncols: I,
    colptr: Seq<I>,
    rowind: Seq<I>,
) -> Option<ColamdErrorKind<I>> {
    match check_error(nrows, ncols, colptr, rowind) {
        Some(k) => Some(k),
        None => match colptr_error_from(
            ncols.value(),
            colptr[ncols.value()].value(),
            colptr,
            0,
        ) {
            Some(k) => Some(k),
            None => rowind_error_from(nrows, ncols.value(), colptr, rowind, 0),
        },
    }
}

/// The number of entries of `s` whose value is `v`.
pub open spec fn occurrences<I: ColamdInt>(s: Seq<I>, v: int) -> nat
    decreases s.len(),
{
    if s.len() == 0 {
        0
    } else {
        occurrences(s.drop_last(), v) + if s.last().value() == v {
            1nat
        } else {
            0nat
        }
    }
}

/// The row indices of column `c`: `rowind[colptr[c]..colptr[c + 1]]`.
pub open spec fn col_entries<I: ColamdInt>(colptr: Seq<I>, rowind: Seq<I>, c: int) -> Seq<I> {
    rowind.subrange(colptr[c].value(), colptr[c + 1].value())
}

/// The number of entries of columns `0..j` in row `r`.
pub open spec fn row_count<I: ColamdInt>(colptr: Seq<I>, rowind: Seq<I>, r: int, j: int) -> nat
    decreases j,
{
    if j <= 0 {
        0
    } else {
        row_count(colptr, rowind, r, j - 1) + occurrences(col_entries(colptr, rowind, j - 1), r)
    }
}

/// The number of entries in rows `0..m` of columns `0..j`.
pub open spec fn rows_total<I: ColamdInt>(colptr: Seq<I>, rowind: Seq<I>, m: int, j: int) -> nat
    decreases m,
{
    if m <= 0 {
        0
    } else {
        rows_total(colptr, rowind, m - 1, j) + row_count(colptr, rowind, m - 1, j)
    }
}

/// The number of entries of `s` whose value is in `0..m`.
pub open spec fn occurrences_below<I: ColamdInt>(s: Seq<I>, m: int) -> nat
    decreases m,
{
    if m <= 0 {
        0
    } else {
        occurrences_below(s, m - 1) + occurrences(s, m - 1)
    }
}

/// Whether the column pointers are non-decreasing, start at `0` and end at `nnz`,
/// and every row index is in `0..nrows`: the shape of a valid input.
pub open spec fn valid_shape<I: ColamdInt>(
    nrows: int,
    ncols: int,
    colptr: Seq<I>,
    rowind: Seq<I>,
) -> bool {
    &&& 0 < nrows
    &&& 0 < ncols
    &&& colptr.len() == ncols + 1
    &&& colptr[0].value() == 0
    &&& rowind.len() == colptr[ncols].value()
    &&& forall|c: int, d: int|
        0 <= c <= d <= ncols ==> #[trigger] colptr[c].value() <= #[trigger] colptr[d].value()
    &&& forall|p: int| 0 <= p < rowind.len() ==> 0 <= #[trigger] rowind[p].value() < nrows
}

/// Appending one value adds one occurrence of it.
pub proof fn lemma_occurrences_push<I: ColamdInt>(s: Seq<I>, x: I, v: int)
    ensures
        occurrences(s.push(x), v) == occurrences(s, v) + if x.value() == v {
            1nat
        } else {
            0nat
        },
{
    assert(s.push(x).drop_last() =~= s);
}

/// Extending a range of `rowind` by one position adds one occurrence of its value.
pub proof fn lemma_occurrences_extend<I: ColamdInt>(s: Seq<I>, a: int, p: int, v: int)
    requires
        0 <= a <= p < s.len(),
    ensures
        occurrences(s.subrange(a, p + 1), v) == occurrences(s.subrange(a, p), v) + if s[p].value()
            == v {
            1nat
        } else {
            0nat
        },
{
    assert(s.subrange(a, p + 1) =~= s.subrange(a, p).push(s[p]));
    lemma_occurrences_push(s.subrange(a, p), s[p], v);
}

/// The occurrences in a prefix are at most those in the whole sequence.
pub proof fn lemma_occurrences_prefix<I: ColamdInt>(s: Seq<I>, k: int, v: int)
    requires
        0 <= k <= s.len(),
    ensures
        occurrences(s.subrange(0, k), v) <= occurrences(s, v),
    decreases s.len(),
{
    if k < s.len() {
        assert(s.drop_last().subrange(0, k) =~= s.subrange(0, k));
        lemma_occurrences_prefix(s.drop_last(), k, v);
    } else {
        assert(s.subrange(0, k) =~= s);
    }
}

/// The values in `0..m` of a sequence of such values account for all its entries.
pub proof fn lemma_occurrences_below_all<I: ColamdInt>(s: Seq<I>, m: int)
    requires
        0 <= m,
        forall|i: int| 0 <= i < s.len() ==> 0 <= #[trigger] s[i].value() < m,
    ensures
        occurrences_below(s, m) == s.len(),
    decreases s.len(),
{
    if s.len() > 0 {
        let t = s.drop_last();
        let x = s.last();
        assert(s =~= t.push(x));
        assert forall|i: int| 0 <= i < t.len() implies 0 <= #[trigger] t[i].value() < m by {
            assert(t[i] == s[i]);
        }
        lemma_occurrences_below_all(t, m);
        lemma_occurrences_below_push(t, x, m);
        lemma_indicator_sum(x.value(), m);
    } else {
        lemma_occurrences_below_empty(s, m);
    }
}

/// Below any bound, an empty sequence has no entries.
pub proof fn lemma_occurrences_below_empty<I: ColamdInt>(s: Seq<I>, m: int)
    requires
        s.len() == 0,
    ensures
        occurrences_below(s, m) == 0,
    decreases m,
{
    if m > 0 {
        lemma_occurrences_below_empty(s, m - 1);
    }
}

/// The number of `r` in `0..m` equal to `v`.
pub open spec fn indicator_sum(v: int, m: int) -> nat
    decreases m,
{
    if m <= 0 {
        0
    } else {
        indicator_sum(v, m - 1) + if v == m - 1 {
            1nat
        } else {
            0nat
        }
    }
}

/// `v` is counted once among `0..m` exactly when it lies there.
pub proof fn lemma_indicator_sum(v: int, m: int)
    ensures
        indicator_sum(v, m) == if 0 <= v < m {
            1nat
        } else {
            0nat
        },
    decreases m,
{
    if m > 0 {
        lemma_indicator_sum(v, m - 1);
    }
}

/// Appending a value adds it to the count below `m` when it lies in `0..m`.
pub proof fn lemma_occurrences_below_push<I: ColamdInt>(s: Seq<I>, x: I, m: int)
    ensures
        occurrences_below(s.push(x), m) == occurrences_below(s, m) + indicator_sum(x.value(), m),
    decreases m,
{
    if m > 0 {
        lemma_occurrences_below_push(s, x, m - 1);
        lemma_occurrences_push(s, x, m - 1);
    }
}

/// The entries of columns `0..j` in rows `0..m` are the entries of each column in rows
/// `0..m`.
pub proof fn lemma_rows_total_step<I: ColamdInt>(colptr: Seq<I>, rowind: Seq<I>, m: int, j: int)
    requires
        0 <= j,
    ensures
        rows_total(colptr, rowind, m, j + 1) == rows_total(colptr, rowind, m, j)
            + occurrences_below(col_entries(colptr, rowind, j), m),
    decreases m,
{
    if m > 0 {
        lemma_rows_total_step(colptr, rowind, m - 1, j);
    }
}

/// The number of entries in all rows of columns `0..j` is `colptr[j]`.
pub proof fn lemma_rows_total<I: ColamdInt>(
    nrows: int,
    ncols: int,
    colptr: Seq<I>,
    rowind: Seq<I>,
    j: int,
)
    requires
        valid_shape(nrows, ncols, colptr, rowind),
        0 <= j <= ncols,
    ensures
        rows_total(colptr, rowind, nrows, j) == colptr[j].value(),
    decreases j,
{
    if j == 0 {
        lemma_rows_total_zero(colptr, rowind, nrows);
    } else {
        lemma_rows_total(nrows, ncols, colptr, rowind, j - 1);
        lemma_rows_total_step(colptr, rowind, nrows, j - 1);
        let col = col_entries(colptr, rowind, j - 1);
        assert(colptr[j - 1].value() <= colptr[j].value());
        assert(colptr[j].value() <= colptr[ncols].value());
        assert(colptr[0].value() <= colptr[j - 1].value());
        assert forall|i: int| 0 <= i < col.len() implies 0 <= #[trigger] col[i].value() < nrows by {
            assert(col[i] == rowind[colptr[j - 1].value() + i]);
        }
        lemma_occurrences_below_all(col, nrows);
    }
}

/// No column, no entry.
pub proof fn lemma_rows_total_zero<I: ColamdInt>(colptr: Seq<I>, rowind: Seq<I>, m: int)
    ensures
        rows_total(colptr, rowind, m, 0) == 0,
    decreases m,
{
    if m > 0 {
        lemma_rows_total_zero(colptr, rowind, m - 1);
    }
}

/// The entries of rows `0..m` are at most those of rows `0..m2` when `m <= m2`.
pub proof fn lemma_rows_total_monotonic<I: ColamdInt>(
    colptr: Seq<I>,
    rowind: Seq<I>,
    m: int,
    m2: int,
    j: int,
)
    requires
        m <= m2,
    ensures
        rows_total(colptr, rowind, m, j) <= rows_total(colptr, rowind, m2, j),
    decreases m2 - m,
{
    if m < m2 {
        lemma_rows_total_monotonic(colptr, rowind, m, m2 - 1, j);
    }
}

/// The entries of a row in columns `0..j` are at most those in columns `0..j2`.
pub proof fn lemma_row_count_monotonic<I: ColamdInt>(
    colptr: Seq<I>,
    rowind: Seq<I>,
    r: int,
    j: int,
    j2: int,
)
    requires
        j <= j2,
    ensures
        row_count(colptr, rowind, r, j) <= row_count(colptr, rowind, r, j2),
    decreases j2 - j,
{
    if j < j2 {
        lemma_row_count_monotonic(colptr, rowind, r, j, j2 - 1);
    }
}

/// Where no error is found in a column from position `p` on, its row indices there
/// are above `prev` and strictly increasing.
pub proof fn lemma_column_sorted<I: ColamdInt>(
    nrows: I,
    rowind: Seq<I>,
    c: int,
    p: int,
    stop: int,
    prev: int,
)
    requires
        0 <= p,
        column_error_from(nrows, rowind, c, p, stop, prev) is None,
    ensures
        forall|q: int| p <= q < stop ==> prev < #[trigger] rowind[q].value(),
        forall|q1: int, q2: int|
            p <= q1 < q2 < stop ==> #[trigger] rowind[q1].value() < #[trigger] rowind[q2].value(),
    decreases stop - p,
{
    if p < stop {
        lemma_column_sorted(nrows, rowind, c, p + 1, stop, rowind[p].value());
    }
}

/// Where no error is found from column `c` on, none is found in any column from `c`
/// on.
pub proof fn lemma_rowind_columns<I: ColamdInt>(
    nrows: I,
    ncols: int,
    colptr: Seq<I>,
    rowind: Seq<I>,
    c: int,
    d: int,
)
    requires
        0 <= c <= d < ncols,
        rowind_error_from(nrows, ncols, colptr, rowind, c) is None,
    ensures
        column_error_from(nrows, rowind, d, colptr[d].value(), colptr[d + 1].value(), -1) is None,
    decreases d - c,
{
    if c < d {
        lemma_rowind_columns(nrows, ncols, colptr, rowind, c + 1, d);
    }
}

/// A value absent from a sequence does not occur in it.
pub proof fn lemma_occurrences_absent<I: ColamdInt>(s: Seq<I>, v: int)
    requires
        forall|i: int| 0 <= i < s.len() ==> #[trigger] s[i].value() != v,
    ensures
        occurrences(s, v) == 0,
    decreases s.len(),
{
    if s.len() > 0 {
        let t = s.drop_last();
        assert forall|i: int| 0 <= i < t.len() implies #[trigger] t[i].value() != v by {
            assert(t[i] == s[i]);
        }
        lemma_occurrences_absent(t, v);
    }
}

/// A strictly increasing sequence holds each value at most once.
pub proof fn lemma_occurrences_sorted<I: ColamdInt>(s: Seq<I>, v: int)
    requires
        forall|i: int, j: int| 0 <= i < j < s.len() ==> #[trigger] s[i].value() < #[trigger] s[j].value(),
    ensures
        occurrences(s, v) <= 1,
    decreases s.len(),
{
    if s.len() > 0 {
        let t = s.drop_last();
        assert forall|i: int, j: int| 0 <= i < j < t.len() implies #[trigger] t[i].value()
            < #[trigger] t[j].value() by {
            assert(t[i] == s[i] && t[j] == s[j]);
        }
        lemma_occurrences_sorted(t, v);
        if s.last().value() == v {
            assert forall|i: int| 0 <= i < t.len() implies #[trigger] t[i].value() != v by {
                assert(t[i] == s[i]);
                assert(s[i].value() < s[s.len() - 1].value());
            }
            lemma_occurrences_absent(t, v);
        }
    }
}

/// In a valid input, a row has at most one entry in each of the columns `0..j`.
pub proof fn lemma_row_count_bound<I: ColamdInt>(
    nrows: I,
    ncols: int,
    colptr: Seq<I>,
    rowind: Seq<I>,
    r: int,
    j: int,
)
    requires
        valid_shape(nrows.value(), ncols, colptr, rowind),
        rowind_error_from(nrows, ncols, colptr, rowind, 0) is None,
        0 <= j <= ncols,
    ensures
        row_count(colptr, rowind, r, j) <= j,
    decreases j,
{
    if j > 0 {
        lemma_row_count_bound(nrows, ncols, colptr, rowind, r, j - 1);
        let c = j - 1;
        lemma_rowind_columns(nrows, ncols, colptr, rowind, 0, c);
        let a = colptr[c].value();
        let b = colptr[c + 1].value();
        assert(colptr[0].value() <= a);
        assert(a <= b);
        assert(b <= colptr[ncols].value());
        lemma_column_sorted(nrows, rowind, c, a, b, -1);
        let col = col_entries(colptr, rowind, c);
        assert forall|i: int, k: int| 0 <= i < k < col.len() implies #[trigger] col[i].value()
            < #[trigger] col[k].value() by {
            assert(col[i] == rowind[a + i] && col[k] == rowind[a + k]);
        }
        lemma_occurrences_sorted(col, r);
    }
}

/// Whether a row or column with `len` entries is dense for the control parameter
/// `control` and the size `size`: `len > control * sqrt(size)`.
pub open spec fn dense(len: int, control: int, size: int) -> bool {
    len * len > control * control * size && len > 0
}

/// `s + d` saturated at `n` the way the scoring saturates: `n` when `n - d < s`.
pub open spec fn saturating_add(s: int, d: int, n: int) -> int {
    if n - d < s {
        n
    } else {
        s + d
    }
}

/// The smaller of two integers.
pub open spec fn min(a: int, b: int) -> int {
    if a <= b {
        a
    } else {
        b
    }
}

/// The larger of two integers.
pub open spec fn max(a: int, b: int) -> int {
    if a >= b {
        a
    } else {
        b
    }
}

/// A valid COLAMD input together with the dense control parameters.
pub struct Matrix<I: ColamdInt> {
    /// The number of rows.
    pub nrows: int,
    /// The number of columns.
    pub ncols: int,
    /// The column pointers.
    pub colptr: Seq<I>,
    /// The row indices.
    pub rowind: Seq<I>,
    /// The dense row control parameter.
    pub row_control: int,
    /// The dense column control parameter.
    pub col_control: int,
}

impl<I: ColamdInt> Matrix<I> {
    /// The number of entries.
    pub open spec fn nnz(self) -> int {
        self.colptr[self.ncols].value()
    }

    /// The number of entries of column `c`.
    pub open spec fn len(self, c: int) -> int {
        self.colptr[c + 1].value() - self.colptr[c].value()
    }

    /// The row indices of column `c`.
    pub open spec fn entries(self, c: int) -> Seq<I> {
        col_entries(self.colptr, self.rowind, c)
    }

    /// Whether column `c` is dense: it has more than
    /// `col_control * sqrt(min(nrows, ncols))` entries.
    pub open spec fn col_dense(self, c: int) -> bool {
        dense(self.len(c), self.col_control, min(self.nrows, self.ncols))
    }

    /// The number of entries of row `r`.
    pub open spec fn count(self, r: int) -> nat {
        row_count(self.colptr, self.rowind, r, self.ncols)
    }

    /// The number of entries of row `r` in the columns `j..ncols`.
    pub open spec fn count_from(self, r: int, j: int) -> nat
        decreases self.ncols - j,
    {
        if j < 0 || j >= self.ncols {
            0
        } else {
            self.count_from(r, j + 1) + occurrences(self.entries(j), r)
        }
    }

    /// The number of entries of row `r` in the dense columns among `j..ncols`.
    pub open spec fn dense_from(self, r: int, j: int) -> nat
        decreases self.ncols - j,
    {
        if j < 0 || j >= self.ncols {
            0
        } else {
            self.dense_from(r, j + 1) + if self.col_dense(j) {
                occurrences(self.entries(j), r)
            } else {
                0
            }
        }
    }

    /// The degree of row `r`: its number of entries in columns that are not dense.
    pub open spec fn degree(self, r: int) -> int {
        self.count(r) - self.dense_from(r, 0)
    }

    /// Whether row `r` survives the initial scoring: it is neither empty nor dense
    /// (more than `row_control * sqrt(ncols)` entries) once the dense columns
    /// are removed.
    pub open spec fn row_alive(self, r: int) -> bool {
        self.degree(r) != 0 && !dense(self.degree(r), self.row_control, self.ncols)
    }

    /// The number of entries among the first `k` of column `c` whose row survives.
    pub open spec fn alive_len(self, c: int, k: int) -> nat
        decreases k,
    {
        if k <= 0 {
            0
        } else {
            self.alive_len(c, k - 1) + if self.row_alive(self.entries(c)[k - 1].value()) {
                1nat
            } else {
                0nat
            }
        }
    }

    /// The score of the first `k` entries of column `c`: the sum over its surviving
    /// rows of their degree minus one, saturated at `ncols`.
    pub open spec fn score_prefix(self, c: int, k: int) -> int
        decreases k,
    {
        if k <= 0 {
            0
        } else {
            let i = self.entries(c)[k - 1].value();
            if self.row_alive(i) {
                saturating_add(self.score_prefix(c, k - 1), self.degree(i) - 1, self.ncols)
            } else {
                self.score_prefix(c, k - 1)
            }
        }
    }

    /// The initial score of column `c`.
    pub open spec fn score(self, c: int) -> int {
        self.score_prefix(c, self.len(c))
    }

    /// Whether column `c` survives the initial scoring: it is neither empty nor dense,
    /// and holds at least one surviving row.
    pub open spec fn col_alive(self, c: int) -> bool {
        &&& self.len(c) > 0
        &&& !self.col_dense(c)
        &&& self.alive_len(c, self.len(c)) > 0
    }

    /// The number of surviving rows among rows `0..r`.
    pub open spec fn alive_rows(self, r: int) -> nat
        decreases r,
    {
        if r <= 0 {
            0
        } else {
            self.alive_rows(r - 1) + if self.row_alive(r - 1) {
                1nat
            } else {
                0nat
            }
        }
    }

    /// The largest degree of the surviving rows among rows `0..r`, or `0`.
    pub open spec fn max_degree(self, r: int) -> int
        decreases r,
    {
        if r <= 0 {
            0
        } else if self.row_alive(r - 1) {
            max(self.max_degree(r - 1), self.degree(r - 1))
        } else {
            self.max_degree(r - 1)
        }
    }

    /// The number of surviving columns among columns `j..ncols`.
    pub open spec fn alive_cols(self, j: int) -> nat
        decreases self.ncols - j,
    {
        if j < 0 || j >= self.ncols {
            0
        } else {
            self.alive_cols(j + 1) + if self.col_alive(j) {
                1nat
            } else {
                0nat
            }
        }
    }

    /// The smallest score of the surviving columns among columns `j..ncols`, or
    /// `ncols`.
    pub open spec fn min_score(self, j: int) -> int
        decreases self.ncols - j,
    {
        if j < 0 || j >= self.ncols {
            self.ncols
        } else if self.col_alive(j) {
            min(self.min_score(j + 1), self.score(j))
        } else {
            self.min_score(j + 1)
        }
    }
}

impl<I: ColamdInt> Matrix<I> {
    /// Whether column `c` is dead after phase `phase` of the initial scoring:
    /// empty (phase 1), or dense (phase 2), or without surviving rows (phase 3).
    pub open spec fn col_dead(self, c: int, phase: int) -> bool {
        ||| self.len(c) == 0
        ||| phase >= 2 && self.col_dense(c)
        ||| phase >= 3 && !self.col_alive(c)
    }

    /// The number of columns among `j..ncols` dead after phase `phase`.
    pub open spec fn killed(self, j: int, phase: int) -> nat
        decreases self.ncols - j,
    {
        if j < 0 || j >= self.ncols {
            0
        } else {
            self.killed(j + 1, phase) + if self.col_dead(j, phase) {
                1nat
            } else {
                0nat
            }
        }
    }

    /// The rank that the initial scoring gives column `c` when it kills it: the killed
    /// columns take the last ranks, those left without surviving rows first, then the
    /// dense ones, then the empty ones, each group in increasing column order.
    pub open spec fn dead_rank(self, c: int) -> int {
        if self.len(c) == 0 {
            self.ncols - self.killed(c, 1)
        } else if self.col_dense(c) {
            self.ncols - self.killed(0, 1) - (self.killed(c, 2) - self.killed(c, 1))
        } else {
            self.ncols - self.killed(0, 2) - (self.killed(c, 3) - self.killed(c, 2))
        }
    }

    /// The input is a valid COLAMD input with valid control parameters.
    pub open spec fn valid(self) -> bool {
        &&& valid_shape(self.nrows, self.ncols, self.colptr, self.rowind)
        &&& self.nrows <= isize::MAX
        &&& self.ncols <= isize::MAX
        &&& 0 < self.nnz() <= isize::MAX
        &&& 0 < self.row_control <= isize::MAX
        &&& 0 < self.col_control <= isize::MAX
    }

    /// Counting from the end or from the start gives the same row count.
    pub proof fn lemma_count_from(self, r: int, j: int)
        requires
            0 <= j <= self.ncols,
        ensures
            self.count_from(r, j) + row_count(self.colptr, self.rowind, r, j) == self.count(r),
        decreases self.ncols - j,
    {
        if j < self.ncols {
            self.lemma_count_from(r, j + 1);
        }
    }

    /// The dense entries of a row are among its entries.
    pub proof fn lemma_dense_from(self, r: int, j: int)
        ensures
            self.dense_from(r, j) <= self.count_from(r, j),
        decreases self.ncols - j,
    {
        if 0 <= j < self.ncols {
            self.lemma_dense_from(r, j + 1);
        }
    }

    /// Degrees are not negative.
    pub proof fn lemma_degree(self, r: int)
        requires
            0 < self.ncols,
        ensures
            0 <= self.degree(r) <= self.count(r),
    {
        self.lemma_count_from(r, 0);
        self.lemma_dense_from(r, 0);
    }

    /// Scores lie in `0..=ncols`.
    pub proof fn lemma_score_prefix(self, c: int, k: int)
        requires
            0 < self.ncols,
        ensures
            0 <= self.score_prefix(c, k) <= self.ncols,
            self.alive_len(c, k) <= if k < 0 {
                0
            } else {
                k
            },
        decreases k,
    {
        if k > 0 {
            self.lemma_score_prefix(c, k - 1);
            self.lemma_degree(self.entries(c)[k - 1].value());
        }
    }

    /// Alive and dead columns account for all columns.
    pub proof fn lemma_alive_cols(self, j: int)
        requires
            0 <= j <= self.ncols,
        ensures
            self.alive_cols(j) + self.killed(j, 3) == self.ncols - j,
        decreases self.ncols - j,
    {
        if j < self.ncols {
            self.lemma_alive_cols(j + 1);
        }
    }

    /// The surviving rows among `0..r` are at most `r`.
    pub proof fn lemma_alive_rows(self, r: int)
        requires
            0 <= r,
        ensures
            self.alive_rows(r) <= r,
        decreases r,
    {
        if r > 0 {
            self.lemma_alive_rows(r - 1);
        }
    }

    /// The smallest surviving score lies in `0..=ncols`.
    pub proof fn lemma_min_score(self, j: int)
        requires
            0 < self.ncols,
            0 <= j <= self.ncols,
        ensures
            0 <= self.min_score(j) <= self.ncols,
        decreases self.ncols - j,
    {
        if j < self.ncols {
            self.lemma_min_score(j + 1);
            self.lemma_score_prefix(j, self.len(j));
        }
    }

    /// In a valid input, no surviving row has a degree above `ncols`.
    pub proof fn lemma_max_degree_ncols(self, nrows: I, r: int)
        requires
            valid_shape(self.nrows, self.ncols, self.colptr, self.rowind),
            nrows.value() == self.nrows,
            rowind_error_from(nrows, self.ncols, self.colptr, self.rowind, 0) is None,
            0 <= r <= self.nrows,
        ensures
            0 <= self.max_degree(r) <= self.ncols,
        decreases r,
    {
        if r > 0 {
            self.lemma_max_degree_ncols(nrows, r - 1);
            self.lemma_degree(r - 1);
            lemma_row_count_bound(nrows, self.ncols, self.colptr, self.rowind, r - 1, self.ncols);
        }
    }

    /// Columns dead after a phase stay dead after the next ones.
    pub proof fn lemma_killed_monotonic(self, j: int, phase: int)
        requires
            0 <= j <= self.ncols,
        ensures
            self.killed(j, phase) <= self.killed(j, phase + 1),
            self.killed(j, phase) <= self.ncols - j,
        decreases self.ncols - j,
    {
        if j < self.ncols {
            self.lemma_killed_monotonic(j + 1, phase);
        }
    }
}


impl<I: ColamdInt> Matrix<I> {
    /// The columns among `j..ncols` that die by phase 3 are those that do not survive.
    proof fn lemma_killed_final(self, j: int)
        requires
            0 <= j <= self.ncols,
        ensures
            self.killed(j, 3) + self.alive_cols(j) == self.ncols - j,
        decreases self.ncols - j,
    {
        if j < self.ncols {
            self.lemma_killed_final(j + 1);
        }
    }

    /// Counting from `i` on counts at least as many dead columns as from `j >= i` on,
    /// and at least as many more by a later phase.
    proof fn lemma_killed_range(self, i: int, j: int, p: int, q: int)
        requires
            0 <= i <= j <= self.ncols,
            p <= q,
        ensures
            self.killed(j, p) <= self.killed(i, p),
            self.killed(j, q) - self.killed(j, p) <= self.killed(i, q) - self.killed(i, p),
        decreases j - i,
    {
        if i < j {
            self.lemma_killed_range(i + 1, j, p, q);
            assert(self.col_dead(i, p) ==> self.col_dead(i, q));
        }
    }

    /// A column dead by phase `q` but not by phase `p` counts among the dead columns
    /// from it on: strictly more than from the next column on.
    proof fn lemma_killed_step(self, c: int, p: int, q: int)
        requires
            0 <= c < self.ncols,
            p <= q,
        ensures
            self.killed(c, q) - self.killed(c, p) == self.killed(c + 1, q) - self.killed(c + 1, p)
                + (if self.col_dead(c, q) && !self.col_dead(c, p) {
                1int
            } else {
                0int
            }),
    {
        assert(self.col_dead(c, p) ==> self.col_dead(c, q));
    }

    /// The initial scoring gives the columns it kills the last ranks, after the
    /// `alive_cols(0)` surviving ones, each a different one.
    pub proof fn lemma_dead_ranks(self, c: int, d: int)
        requires
            0 <= c < self.ncols,
            0 <= d < self.ncols,
            !self.col_alive(c),
            !self.col_alive(d),
        ensures
            self.alive_cols(0) <= self.dead_rank(c) < self.ncols,
            c != d ==> self.dead_rank(c) != self.dead_rank(d),
    {
        self.lemma_dead_rank_range(c);
        self.lemma_dead_rank_range(d);
        if c < d {
            self.lemma_dead_rank_order(c, d);
        } else if d < c {
            self.lemma_dead_rank_order(d, c);
        }
    }

    /// The rank of a killed column lies after the surviving columns, within its group.
    proof fn lemma_dead_rank_range(self, c: int)
        requires
            0 <= c < self.ncols,
            !self.col_alive(c),
        ensures
            self.alive_cols(0) <= self.dead_rank(c) < self.ncols,
            self.len(c) == 0 ==> self.ncols - self.killed(0, 1) <= self.dead_rank(c),
            self.len(c) != 0 && self.col_dense(c) ==> self.ncols - self.killed(0, 2)
                <= self.dead_rank(c) < self.ncols - self.killed(0, 1),
            self.len(c) != 0 && !self.col_dense(c) ==> self.dead_rank(c) < self.ncols
                - self.killed(0, 2),
    {
        self.lemma_killed_final(0);
        self.lemma_killed_monotonic(0, 1);
        self.lemma_killed_monotonic(0, 2);
        self.lemma_killed_range(0, c, 1, 2);
        self.lemma_killed_range(0, c, 2, 3);
        self.lemma_killed_range(0, c + 1, 1, 2);
        self.lemma_killed_range(0, c + 1, 2, 3);
        self.lemma_killed_step(c, 1, 2);
        self.lemma_killed_step(c, 2, 3);
        self.lemma_killed_monotonic(c + 1, 1);
        self.lemma_killed_monotonic(c + 1, 2);
        self.lemma_killed_monotonic(c, 1);
        self.lemma_killed_monotonic(c, 2);
    }

    /// Killed columns of one group take increasing ranks in column order.
    proof fn lemma_dead_rank_order(self, c: int, d: int)
        requires
            0 <= c < d < self.ncols,
            !self.col_alive(c),
            !self.col_alive(d),
        ensures
            self.dead_rank(c) != self.dead_rank(d),
    {
        self.lemma_dead_rank_range(c);
        self.lemma_dead_rank_range(d);
        self.lemma_killed_range(c + 1, d, 1, 2);
        self.lemma_killed_range(c + 1, d, 2, 3);
        self.lemma_killed_step(c, 1, 2);
        self.lemma_killed_step(c, 2, 3);
        self.lemma_killed_monotonic(c + 1, 1);
        self.lemma_killed_monotonic(c + 1, 2);
        self.lemma_killed_monotonic(0, 1);
        if self.len(c) == 0 && self.len(d) == 0 {
            assert(self.killed(c, 1) == self.killed(c + 1, 1) + 1);
        }
    }
}

} // verus!
