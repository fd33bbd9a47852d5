//! Initial scoring of the COLAMD workspace: dense and empty rows and columns are
//! removed, and the surviving columns are scored and placed in degree lists.
use vstd::prelude::*;

use super::col::ColamdCol;
use super::config::valid_control;
use super::error::ColamdError;
use super::init::{cols_initialized, initial_col};
use super::integer::ColamdInt;
use super::model::{
    dense, lemma_occurrences_extend, lemma_occurrences_prefix, max, min, occurrences,
    saturating_add, Matrix,
};
use super::ordering::thickness;
use super::score::ColamdScore;
use super::{array_error, Colamd, EMPTY};
use crate::isqrt::{is_isqrt, isqrt_u128};

verus! {

/// The state of column record `col` for column `c` once the columns dead after phase
/// `phase` (1 or 2) are killed.
pub open spec fn col_pruned<I: ColamdInt>(col: ColamdCol, mat: Matrix<I>, c: int, phase: int) -> bool {
    &&& col.length == mat.len(c)
    &&& col.weight == 1
    &&& if mat.col_dead(c, phase) {
        col.start == -1 && col.rank == mat.dead_rank(c)
    } else {
        col.start == mat.colptr[c].value()
    }
}

/// The state of column record `col` for column `c` once the columns are scored.
pub open spec fn col_scored<I: ColamdInt>(col: ColamdCol, mat: Matrix<I>, c: int) -> bool {
    &&& col.weight == 1
    &&& if mat.col_alive(c) {
        &&& col.start == mat.colptr[c].value()
        &&& col.length == mat.alive_len(c, mat.len(c))
        &&& col.rank == mat.score(c)
        &&& 0 <= col.rank <= mat.ncols
    } else {
        col.start == -1 && col.rank == mat.dead_rank(c)
    }
}

/// Scored for `mat`, the alive columns among the first `m` of `cols` weigh in all as
/// many as the surviving columns among them.
pub proof fn lemma_thickness_alive_cols<I: ColamdInt>(cols: Seq<ColamdCol>, mat: Matrix<I>, m: int)
    requires
        mat.valid(),
        0 <= m <= mat.ncols <= cols.len(),
        forall|c: int| #![trigger cols[c]] 0 <= c < mat.ncols ==> col_scored(cols[c], mat, c),
    ensures
        thickness(cols, m) + mat.alive_cols(m) == mat.alive_cols(0),
    decreases m,
{
    if m > 0 {
        lemma_thickness_alive_cols(cols, mat, m - 1);
        let c = m - 1;
        assert(col_scored(cols[c], mat, c));
        assert(mat.colptr[0].value() <= mat.colptr[c].value());
        assert(mat.alive_cols(c) == mat.alive_cols(m) + if mat.col_alive(c) {
            1nat
        } else {
            0nat
        });
    }
}

/// `t` separates dense lengths from the others: a length `len` is dense for
/// `control` and `size` exactly when `len > t`.
pub open spec fn is_threshold(t: i64, control: int, size: int) -> bool {
    &&& 0 <= t
    &&& forall|len: int| 0 <= len <= i64::MAX ==> (len > t <==> dense(len, control, size))
}

/// The degree lists `degree` over the `n` columns `cols` are well linked: there are
/// `n + 1` lists; the head of list `s` is `EMPTY` or a surviving column of score `s`
/// with no predecessor; each surviving column's successor is `EMPTY` or a surviving
/// column of the same score whose predecessor it is, and each surviving column with
/// a predecessor is that column's successor.
pub open spec fn degree_lists(cols: Seq<ColamdCol>, degree: Seq<i64>, n: int) -> bool {
    &&& degree.len() == n + 1
    &&& lists_from(cols, degree, n, 0)
}

/// The degree lists hold exactly the surviving columns among `j..n`, well linked.
#[verifier::opaque]
pub open spec fn lists_from(cols: Seq<ColamdCol>, degree: Seq<i64>, n: int, j: int) -> bool {
    &&& degree.len() == n + 1
    &&& forall|s: int|
        #![trigger degree[s]]
        0 <= s <= n ==> degree[s] == EMPTY || (j <= degree[s] < n && cols[degree[s] as int].start
            >= 0 && cols[degree[s] as int].rank == s && cols[degree[s] as int].prev == EMPTY)
    &&& forall|c: int|
        #![trigger cols[c]]
        j <= c < n && cols[c].start >= 0 ==> {
            &&& 0 <= cols[c].rank <= n
            &&& cols[c].next == EMPTY || (j <= cols[c].next < n && cols[cols[c].next as int].start
                >= 0 && cols[cols[c].next as int].rank == cols[c].rank
                && cols[cols[c].next as int].prev == c)
            &&& cols[c].prev == EMPTY || (j <= cols[c].prev < n && cols[cols[c].prev as int].start
                >= 0 && cols[cols[c].prev as int].next == c)
            &&& (cols[c].prev == EMPTY <==> degree[cols[c].rank as int] == c)
        }
}

/// The columns `cols` once surviving column `j` is placed first in the list of its
/// score, which `degree` heads.
pub open spec fn inserted(cols: Seq<ColamdCol>, degree: Seq<i64>, j: int) -> Seq<ColamdCol> {
    let h = degree[cols[j].rank as int];
    let first = cols.update(j, ColamdCol { prev: EMPTY, next: h, ..cols[j] });
    if h != EMPTY {
        first.update(h as int, ColamdCol { prev: j as i64, ..first[h as int] })
    } else {
        first
    }
}

/// Placing surviving column `j` first in its list extends the lists to `j..n`.
pub proof fn lemma_lists_insert(cols: Seq<ColamdCol>, degree: Seq<i64>, n: int, j: int)
    requires
        0 <= j < n,
        n < i64::MAX,
        cols.len() == n,
        lists_from(cols, degree, n, j + 1),
        cols[j].start >= 0,
        0 <= cols[j].rank <= n,
    ensures
        lists_from(inserted(cols, degree, j), degree.update(cols[j].rank as int, j as i64), n, j),
{
    reveal(lists_from);
    let s = cols[j].rank as int;
    let h = degree[s];
    let c2 = inserted(cols, degree, j);
    let d2 = degree.update(s, j as i64);
    assert forall|t: int| 0 <= t <= n implies #[trigger] d2[t] == EMPTY || (j <= d2[t] < n
        && c2[d2[t] as int].start >= 0 && c2[d2[t] as int].rank == t && c2[d2[t] as int].prev
        == EMPTY) by {
        if t != s && degree[t] != EMPTY {
            assert(degree[t] != j);
            if h != EMPTY {
                assert(degree[t] != h);
            }
        }
    }
    assert forall|c: int| j <= c < n && c2[c].start >= 0 implies {
        &&& 0 <= #[trigger] c2[c].rank <= n
        &&& c2[c].next == EMPTY || (j <= c2[c].next < n && c2[c2[c].next as int].start >= 0
            && c2[c2[c].next as int].rank == c2[c].rank && c2[c2[c].next as int].prev == c)
        &&& c2[c].prev == EMPTY || (j <= c2[c].prev < n && c2[c2[c].prev as int].start >= 0
            && c2[c2[c].prev as int].next == c)
        &&& (c2[c].prev == EMPTY <==> d2[c2[c].rank as int] == c)
    } by {
        if c == j {
        } else {
            assert(cols[c].start >= 0);
            if h != EMPTY && c == h {
                assert(cols[h as int].prev == EMPTY);
                let nx = cols[c].next;
                if nx != EMPTY {
                    assert(nx != j);
                }
            } else {
                let nx = cols[c].next;
                if nx != EMPTY {
                    assert(nx != j);
                    if h != EMPTY && nx == h {
                        assert(cols[h as int].prev == c);
                    }
                }
                let pv = cols[c].prev;
                if pv != EMPTY {
                    assert(pv != j);
                }
            }
        }
    }
}

/// A dead column leaves the lists as they are.
pub proof fn lemma_lists_skip(cols: Seq<ColamdCol>, degree: Seq<i64>, n: int, j: int)
    requires
        0 <= j < n,
        lists_from(cols, degree, n, j + 1),
        cols[j].start < 0,
    ensures
        lists_from(cols, degree, n, j),
{
    reveal(lists_from);
}

/// The head of a list is `EMPTY` or one of the columns `j..n`.
pub proof fn lemma_lists_head(cols: Seq<ColamdCol>, degree: Seq<i64>, n: int, j: int, s: int)
    requires
        lists_from(cols, degree, n, j),
        0 <= s <= n,
    ensures
        degree[s] == EMPTY || j <= degree[s] < n,
{
    reveal(lists_from);
}

/// Empty lists hold no column.
pub proof fn lemma_lists_empty(cols: Seq<ColamdCol>, degree: Seq<i64>, n: int)
    requires
        degree.len() == n + 1,
        forall|s: int| 0 <= s <= n ==> #[trigger] degree[s] == EMPTY,
    ensures
        lists_from(cols, degree, n, n),
{
    reveal(lists_from);
}

impl<I: ColamdInt> Colamd<I> {
    /// The largest number of entries of a row or column that is not dense for the
    /// control parameter `control` and the size `size`: `floor(control * sqrt(size))`,
    /// capped at `i64::MAX`.
    fn dense_threshold(control: i64, size: i64) -> (t: i64)
        requires
            0 < control <= isize::MAX,
            0 <= size <= isize::MAX,
        ensures
            is_threshold(t, control as int, size as int),
    {
        let c = control as u128;
        assert(c * c < 0x4000_0000_0000_0000_0000_0000_0000_0000u128) by (nonlinear_arith)
            requires
                c <= 0x7fff_ffff_ffff_ffffu128,
        ;
        let c2 = c * c;
        match c2.checked_mul(size as u128) {
            None => {
                assert forall|len: int| 0 <= len <= i64::MAX implies !dense(
                    len,
                    control as int,
                    size as int,
                ) by {
                    assert(len * len <= 0x4000_0000_0000_0000_0000_0000_0000_0000) by (
                    nonlinear_arith)
                        requires
                            0 <= len <= 0x7fff_ffff_ffff_ffff,
                    ;
                    assert(control * control * size == c2 * size);
                }
                i64::MAX
            },
            Some(x) => {
                let s = isqrt_u128(x);
                let t0: i64 = if s > i64::MAX as u128 {
                    i64::MAX
                } else {
                    s as i64
                };
                let t: i64 = t0;
                assert forall|len: int| 0 <= len <= i64::MAX implies (len > t <==> dense(
                    len,
                    control as int,
                    size as int,
                )) by {
                    assert(control * control * size == x);
                    if len > s {
                        assert(len * len > x) by (nonlinear_arith)
                            requires
                                len >= s + 1,
                                s >= 0,
                                x < (s + 1) * (s + 1),
                        ;
                    } else {
                        assert(len * len <= x) by (nonlinear_arith)
                            requires
                                0 <= len <= s,
                                s * s <= x,
                        ;
                    }
                }
                t
            },
        }
    }

    /// Kill the empty columns, last first, and return the number of columns left.
    #[verifier::loop_isolation(false)]
    fn kill_empty_cols(&mut self, Ghost(mat): Ghost<Matrix<I>>) -> (cols: i64)
        requires
            old(self).wf(),
            mat.valid(),
            cols_initialized(old(self).cols@, mat.colptr, mat.ncols),
        ensures
            final(self).wf(),
            final(self).rows == old(self).rows,
            final(self).inds == old(self).inds,
            final(self).degree == old(self).degree,
            final(self).config == old(self).config,
            final(self).cols.cap() == old(self).cols.cap(),
            final(self).cols@.len() == mat.ncols,
            cols == mat.ncols - mat.killed(0, 1),
            forall|c: int|
                #![trigger final(self).cols@[c]]
                0 <= c < mat.ncols ==> col_pruned(final(self).cols@[c], mat, c, 1),
    {
        let n = self.cols.length();
        let mut cols: i64 = n as i64;
        let mut j: usize = n;
        while j > 0
            invariant
                self.cols.wf(),
                self.cols.cap() == old(self).cols.cap(),
                self.cols@.len() == n == mat.ncols,
                self.rows == old(self).rows,
                self.inds == old(self).inds,
                self.degree == old(self).degree,
                self.config == old(self).config,
                j <= n,
                cols == n - mat.killed(j as int, 1),
                forall|c: int|
                    #![trigger self.cols@[c]]
                    j <= c < n ==> col_pruned(self.cols@[c], mat, c, 1),
                forall|c: int|
                    #![trigger self.cols@[c]]
                    0 <= c < j ==> self.cols@[c] == initial_col(mat.colptr, c),
            decreases j,
        {
            proof {
                mat.lemma_killed_monotonic(j as int, 1);
            }
            j = j - 1;
            let mut col = self.cols.get(j);
            if col.length == 0 {
                cols = cols - 1;
                col.kill();
                col.rank = cols;
                self.cols.set(j, col);
            }
        }
        cols
    }

    /// Kill the dense columns, last first, removing their entries from the row
    /// degrees, and return the number of columns left.
    #[verifier::loop_isolation(false)]
    fn kill_dense_cols(&mut self, Ghost(mat): Ghost<Matrix<I>>, threshold: i64, cols: i64) -> (r:
        i64)
        requires
            old(self).wf(),
            mat.valid(),
            is_threshold(threshold, mat.col_control, min(mat.nrows, mat.ncols)),
            cols == mat.ncols - mat.killed(0, 1),
            old(self).cols@.len() == mat.ncols,
            forall|c: int|
                #![trigger old(self).cols@[c]]
                0 <= c < mat.ncols ==> col_pruned(old(self).cols@[c], mat, c, 1),
            old(self).rows@.len() == mat.nrows,
            forall|r: int|
                #![trigger old(self).rows@[r]]
                0 <= r < mat.nrows ==> old(self).rows@[r].degree == mat.count(r)
                    && old(self).rows@[r].mark == 0,
            old(self).inds@.len() >= mat.nnz(),
            forall|p: int| 0 <= p < mat.nnz() ==> #[trigger] old(self).inds@[p] == mat.rowind[p].value(),
        ensures
            final(self).wf(),
            final(self).inds == old(self).inds,
            final(self).degree == old(self).degree,
            final(self).config == old(self).config,
            final(self).cols.cap() == old(self).cols.cap(),
            final(self).rows.cap() == old(self).rows.cap(),
            final(self).cols@.len() == mat.ncols,
            final(self).rows@.len() == mat.nrows,
            r == mat.ncols - mat.killed(0, 2),
            forall|c: int|
                #![trigger final(self).cols@[c]]
                0 <= c < mat.ncols ==> col_pruned(final(self).cols@[c], mat, c, 2),
            forall|r: int|
                #![trigger final(self).rows@[r]]
                0 <= r < mat.nrows ==> final(self).rows@[r].degree == mat.degree(r)
                    && final(self).rows@[r].mark == 0,
    {
        let ghost ri = mat.rowind;
        let ghost cp = mat.colptr;
        let n = self.cols.length();
        let mut cols = cols;
        let mut j: usize = n;
        proof {
            assert(mat.dense_from(0, n as int) == 0);
        }
        while j > 0
            invariant
                self.cols.wf(),
                self.cols.cap() == old(self).cols.cap(),
                self.cols@.len() == n == mat.ncols,
                self.rows.wf(),
                self.rows.cap() == old(self).rows.cap(),
                self.rows@.len() == mat.nrows,
                self.inds == old(self).inds,
                self.degree == old(self).degree,
                self.config == old(self).config,
                j <= n,
                cols == n - mat.killed(0, 1) - (mat.killed(j as int, 2) - mat.killed(j as int, 1)),
                forall|c: int|
                    #![trigger self.cols@[c]]
                    j <= c < n ==> col_pruned(self.cols@[c], mat, c, 2),
                forall|c: int|
                    #![trigger self.cols@[c]]
                    0 <= c < j ==> col_pruned(self.cols@[c], mat, c, 1),
                forall|r: int|
                    #![trigger self.rows@[r]]
                    0 <= r < mat.nrows ==> self.rows@[r].degree == mat.count(r) - mat.dense_from(
                        r,
                        j as int,
                    ) && self.rows@[r].mark == 0,
            decreases j,
        {
            proof {
                mat.lemma_killed_monotonic(j as int, 1);
                mat.lemma_killed_monotonic(j as int, 2);
                mat.lemma_killed_monotonic(0, 1);
            }
            j = j - 1;
            let col = self.cols.get(j);
            assert(col_pruned(col, mat, j as int, 1));
            assert(col.length > threshold <==> mat.col_dense(j as int));
            // Ignore dead column.
            if col.start >= 0 && col.length > threshold {
                // Column is dense so update row degrees accordingly and kill it.
                let start = col.start;
                let stop = start + col.length;
                let mut p = start;
                let ghost cols_before = self.cols;
                assert(cp[j as int].value() <= cp[j as int + 1].value());
                assert(cp[j as int + 1].value() <= cp[n as int].value());
                while p < stop
                    invariant
                        self.cols == cols_before,
                        self.cols.wf(),
                        self.cols.cap() == old(self).cols.cap(),
                        self.cols@.len() == n == mat.ncols,
                        self.rows.wf(),
                        self.rows.cap() == old(self).rows.cap(),
                        self.rows@.len() == mat.nrows,
                        self.inds == old(self).inds,
                        self.degree == old(self).degree,
                        self.config == old(self).config,
                        start == cp[j as int].value(),
                        stop == cp[j as int + 1].value(),
                        start <= p <= stop <= mat.nnz(),
                        j < n,
                        mat.col_dense(j as int),
                        forall|r: int|
                            #![trigger self.rows@[r]]
                            0 <= r < mat.nrows ==> self.rows@[r].degree == mat.count(r)
                                - mat.dense_from(r, j + 1) - occurrences(
                                ri.subrange(start as int, p as int),
                                r,
                            ) && self.rows@[r].mark == 0,
                    decreases stop - p,
                {
                    let i = self.inds.get(p as usize);
                    let iu = i as usize;
                    let mut row = self.rows.get(iu);
                    proof {
                        let col_j = mat.entries(j as int);
                        let k = p - start + 1;
                        assert(col_j.subrange(0, k) =~= ri.subrange(start as int, p + 1));
                        lemma_occurrences_prefix(col_j, k, i as int);
                        lemma_occurrences_extend(ri, start as int, p as int, i as int);
                        mat.lemma_count_from(i as int, j as int);
                        mat.lemma_dense_from(i as int, j + 1);
                    }
                    row.degree = row.degree - 1;
                    self.rows.set(iu, row);
                    proof {
                        assert forall|r: int| 0 <= r < mat.nrows implies occurrences(
                            ri.subrange(start as int, p + 1),
                            r,
                        ) == occurrences(ri.subrange(start as int, p as int), r) + if ri[p as int].value()
                            == r {
                            1nat
                        } else {
                            0nat
                        } by {
                            lemma_occurrences_extend(ri, start as int, p as int, r);
                        }
                    }
                    p = p + 1;
                }
                proof {
                    assert(ri.subrange(start as int, stop as int) == mat.entries(j as int));
                }
                // Kill column and place it last.
                cols = cols - 1;
                let mut col = self.cols.get(j);
                col.kill();
                col.rank = cols;
                self.cols.set(j, col);
            }
        }
        cols
    }

    /// Kill the empty and dense rows and return the number of rows left and the
    /// largest degree among them.
    #[verifier::loop_isolation(false)]
    fn kill_rows(&mut self, Ghost(mat): Ghost<Matrix<I>>, threshold: i64) -> (r: (i64, i64))
        requires
            old(self).wf(),
            mat.valid(),
            is_threshold(threshold, mat.row_control, mat.ncols),
            old(self).rows@.len() == mat.nrows,
            forall|r: int|
                #![trigger old(self).rows@[r]]
                0 <= r < mat.nrows ==> old(self).rows@[r].degree == mat.degree(r)
                    && old(self).rows@[r].mark == 0,
        ensures
            final(self).wf(),
            final(self).cols == old(self).cols,
            final(self).inds == old(self).inds,
            final(self).degree == old(self).degree,
            final(self).config == old(self).config,
            final(self).rows.cap() == old(self).rows.cap(),
            final(self).rows@.len() == mat.nrows,
            r.0 == mat.alive_rows(mat.nrows),
            r.1 == mat.max_degree(mat.nrows),
            forall|r: int|
                #![trigger final(self).rows@[r]]
                0 <= r < mat.nrows ==> final(self).rows@[r].degree == mat.degree(r) && (
                final(self).rows@[r].mark >= 0 <==> mat.row_alive(r)),
    {
        let m = self.rows.length();
        let mut rows: i64 = 0;
        let mut max_degree: i64 = 0;
        let mut i: usize = 0;
        while i < m
            invariant
                self.rows.wf(),
                self.rows.cap() == old(self).rows.cap(),
                self.rows@.len() == m == mat.nrows,
                self.cols == old(self).cols,
                self.inds == old(self).inds,
                self.degree == old(self).degree,
                self.config == old(self).config,
                i <= m,
                rows == mat.alive_rows(i as int),
                max_degree == mat.max_degree(i as int),
                0 <= max_degree <= i64::MAX,
                forall|r: int|
                    #![trigger self.rows@[r]]
                    0 <= r < i ==> self.rows@[r].degree == mat.degree(r) && (self.rows@[r].mark
                        >= 0 <==> mat.row_alive(r)),
                forall|r: int|
                    #![trigger self.rows@[r]]
                    i <= r < m ==> self.rows@[r] == old(self).rows@[r],
            decreases m - i,
        {
            let mut row = self.rows.get(i);
            let degree = row.degree;
            proof {
                mat.lemma_degree(i as int);
                mat.lemma_alive_rows(i as int);
            }
            if degree == 0 || degree > threshold {
                // Row is empty or dense so kill it.
                row.kill();
                self.rows.set(i, row);
            } else {
                // Keep track of maximum row degree.
                rows = rows + 1;
                if degree > max_degree {
                    max_degree = degree;
                }
            }
            i = i + 1;
        }
        (rows, max_degree)
    }

    /// Score the surviving columns, removing their dead rows, and kill those left
    /// without rows, last first; return the number of columns left.
    #[verifier::loop_isolation(false)]
    fn score_cols(&mut self, Ghost(mat): Ghost<Matrix<I>>, cols: i64) -> (r: i64)
        requires
            old(self).wf(),
            mat.valid(),
            cols == mat.ncols - mat.killed(0, 2),
            old(self).cols@.len() == mat.ncols,
            forall|c: int|
                #![trigger old(self).cols@[c]]
                0 <= c < mat.ncols ==> col_pruned(old(self).cols@[c], mat, c, 2),
            old(self).rows@.len() == mat.nrows,
            forall|r: int|
                #![trigger old(self).rows@[r]]
                0 <= r < mat.nrows ==> old(self).rows@[r].degree == mat.degree(r) && (old(
                    self,
                ).rows@[r].mark >= 0 <==> mat.row_alive(r)),
            old(self).inds@.len() >= mat.nnz(),
            forall|p: int| 0 <= p < mat.nnz() ==> #[trigger] old(self).inds@[p] == mat.rowind[p].value(),
        ensures
            final(self).wf(),
            final(self).rows == old(self).rows,
            final(self).degree == old(self).degree,
            final(self).config == old(self).config,
            final(self).cols.cap() == old(self).cols.cap(),
            final(self).inds.cap() == old(self).inds.cap(),
            final(self).inds@.len() == old(self).inds@.len(),
            final(self).cols@.len() == mat.ncols,
            r == mat.ncols - mat.killed(0, 3),
            forall|c: int|
                #![trigger final(self).cols@[c]]
                0 <= c < mat.ncols ==> col_scored(final(self).cols@[c], mat, c),
    {
        let ghost ri = mat.rowind;
        let ghost cp = mat.colptr;
        let n = self.cols.length();
        let ncols = n as i64;
        let mut cols = cols;
        let mut j: usize = n;
        while j > 0
            invariant
                self.cols.wf(),
                self.cols.cap() == old(self).cols.cap(),
                self.cols@.len() == n == mat.ncols,
                ncols == n,
                self.rows == old(self).rows,
                self.inds.wf(),
                self.inds.cap() == old(self).inds.cap(),
                self.inds@.len() == old(self).inds@.len(),
                self.degree == old(self).degree,
                self.config == old(self).config,
                j <= n,
                cols == n - mat.killed(0, 2) - (mat.killed(j as int, 3) - mat.killed(j as int, 2)),
                forall|c: int|
                    #![trigger self.cols@[c]]
                    j <= c < n ==> col_scored(self.cols@[c], mat, c),
                forall|c: int|
                    #![trigger self.cols@[c]]
                    0 <= c < j ==> self.cols@[c] == old(self).cols@[c],
                forall|p: int| 0 <= p < cp[j as int].value() ==> #[trigger] self.inds@[p] == ri[p].value(),
            decreases j,
        {
            proof {
                mat.lemma_killed_monotonic(j as int, 2);
                mat.lemma_killed_monotonic(j as int, 3);
                mat.lemma_killed_monotonic(0, 2);
            }
            j = j - 1;
            let col = self.cols.get(j);
            assert(col_pruned(col, mat, j as int, 2));
            assert(cp[j as int].value() <= cp[j as int + 1].value());
            assert(cp[j as int + 1].value() <= cp[n as int].value());
            // Ignore dead column.
            if col.start >= 0 {
                let mut score: i64 = 0;
                let start = col.start;
                let stop = start + col.length;
                // Pointer to compact the column.
                let mut pos = start;
                let mut p = start;
                let ghost cols_before = self.cols;
                while p < stop
                    invariant
                        self.cols == cols_before,
                        self.cols@.len() == n,
                        self.rows == old(self).rows,
                        self.inds.wf(),
                        self.inds.cap() == old(self).inds.cap(),
                        self.inds@.len() == old(self).inds@.len(),
                        self.degree == old(self).degree,
                        self.config == old(self).config,
                        ncols == n,
                        start == cp[j as int].value(),
                        stop == cp[j as int + 1].value(),
                        start <= pos <= p <= stop <= mat.nnz(),
                        j < n,
                        !mat.col_dense(j as int),
                        mat.len(j as int) > 0,
                        pos - start == mat.alive_len(j as int, p - start),
                        score == mat.score_prefix(j as int, p - start),
                        0 <= score <= ncols,
                        forall|q: int|
                            (0 <= q < start || p <= q < stop) ==> #[trigger] self.inds@[q]
                                == ri[q].value(),
                    decreases stop - p,
                {
                    let i = self.inds.get(p as usize);
                    let row = self.rows.get(i as usize);
                    proof {
                        assert(mat.entries(j as int)[p - start] == ri[p as int]);
                        mat.lemma_degree(i as int);
                        mat.lemma_score_prefix(j as int, p - start);
                    }
                    // Ignore dead rows.
                    if row.mark >= 0 {
                        // Compact the column.
                        self.inds.set(pos as usize, i);
                        pos = pos + 1;
                        // Prevent overflow by saturating at ncols which is valid.
                        let degree = row.degree;
                        if ncols - (degree - 1) < score {
                            score = ncols;
                        } else {
                            score = score + (degree - 1);
                        }
                    }
                    p = p + 1;
                }
                // Compute pruned column length.
                let length = pos - start;
                let mut col = self.cols.get(j);
                if length == 0 {
                    // Kill column and place it last if it is now empty.
                    cols = cols - 1;
                    col.kill();
                    col.rank = cols;
                } else {
                    col.length = length;
                    col.rank = score;
                }
                self.cols.set(j, col);
            }
        }
        cols
    }

    /// Place the surviving columns in the degree lists, last first, and return the
    /// smallest score.
    #[verifier::loop_isolation(false)]
    fn init_degree_lists(&mut self, Ghost(mat): Ghost<Matrix<I>>) -> (r: Result<
        i64,
        ColamdError<I>,
    >)
        requires
            old(self).wf(),
            mat.valid(),
            old(self).cols@.len() == mat.ncols,
            forall|c: int|
                #![trigger old(self).cols@[c]]
                0 <= c < mat.ncols ==> col_scored(old(self).cols@[c], mat, c),
        ensures
            final(self).wf(),
            final(self).rows == old(self).rows,
            final(self).inds == old(self).inds,
            final(self).config == old(self).config,
            final(self).cols.cap() == old(self).cols.cap(),
            final(self).degree.cap() == old(self).degree.cap(),
            final(self).cols@.len() == mat.ncols,
            r matches Err(e) ==> e.error_kind() is ArrayError && old(self).degree.cap()
                < mat.ncols + 1,
            old(self).degree.cap() >= mat.ncols + 1 ==> r is Ok,
            r matches Ok(min_score) ==> {
                &&& min_score == mat.min_score(0)
                &&& final(self).degree@.len() == mat.ncols + 1
                &&& forall|c: int|
                    #![trigger final(self).cols@[c]]
                    0 <= c < mat.ncols ==> col_scored(final(self).cols@[c], mat, c)
                &&& degree_lists(final(self).cols@, final(self).degree@, mat.ncols)
            },
    {
        let n = self.cols.length();
        let ncols = n as i64;
        let mut min_score = ncols;
        match self.degree.resize(n + 1, EMPTY) {
            Ok(()) => {},
            Err(e) => {
                return Err(array_error(e));
            },
        }
        proof {
            lemma_lists_empty(self.cols@, self.degree@, n as int);
        }
        let mut j: usize = n;
        while j > 0
            invariant
                self.cols.wf(),
                self.cols.cap() == old(self).cols.cap(),
                self.cols@.len() == n == mat.ncols,
                ncols == n,
                self.rows == old(self).rows,
                self.inds == old(self).inds,
                self.degree.wf(),
                self.degree.cap() == old(self).degree.cap(),
                self.degree@.len() == n + 1,
                self.config == old(self).config,
                j <= n,
                min_score == mat.min_score(j as int),
                forall|c: int|
                    #![trigger self.cols@[c]]
                    0 <= c < n ==> col_scored(self.cols@[c], mat, c),
                lists_from(self.cols@, self.degree@, n as int, j as int),
            decreases j,
        {
            j = j - 1;
            let mut col = self.cols.get(j);
            let ghost cols_before = self.cols@;
            let ghost degree_before = self.degree@;
            // Ignore dead column.
            if col.start >= 0 {
                let score = col.rank;
                proof {
                    lemma_lists_head(cols_before, degree_before, n as int, j + 1, score as int);
                }
                let head = self.degree.get(score as usize);
                col.prev = EMPTY;
                col.next = head;
                self.cols.set(j, col);
                if head != EMPTY {
                    let mut next = self.cols.get(head as usize);
                    next.prev = j as i64;
                    self.cols.set(head as usize, next);
                }
                self.degree.set(score as usize, j as i64);
                proof {
                    lemma_lists_insert(cols_before, degree_before, n as int, j as int);
                    assert(self.cols@ == inserted(cols_before, degree_before, j as int));
                }
                // Keep track of minimum score.
                if score < min_score {
                    min_score = score;
                }
            } else {
                proof {
                    lemma_lists_skip(cols_before, degree_before, n as int, j as int);
                }
            }
        }
        Ok(min_score)
    }

    /// Initialize scores of rows and columns.
    ///
    /// Returns the number of surviving columns and rows, the largest degree of the
    /// surviving rows and the smallest score of the surviving columns; fails only when
    /// the workspace has no room for the degree lists.
    pub(crate) fn score(
        &mut self,
        nrows: I,
        ncols: I,
        colptr: Ghost<Seq<I>>,
        rowind: Ghost<Seq<I>>,
    ) -> (r: Result<ColamdScore, ColamdError<I>>)
        requires
            old(self).wf(),
            old(self).initialized(nrows, ncols, colptr@, rowind@),
            nrows.value() <= isize::MAX,
            ncols.value() <= isize::MAX,
            0 < colptr@[ncols.value()].value() <= isize::MAX,
        ensures
            final(self).wf(),
            final(self).config == old(self).config,
            final(self).rows.cap() == old(self).rows.cap(),
            final(self).cols.cap() == old(self).cols.cap(),
            final(self).inds.cap() == old(self).inds.cap(),
            final(self).degree.cap() == old(self).degree.cap(),
            final(self).rows@.len() == nrows.value(),
            final(self).cols@.len() == ncols.value(),
            valid_control(old(self).config.row_control()),
            valid_control(old(self).config.col_control()),
            r matches Err(e) ==> e.error_kind() is ArrayError && old(self).degree.cap()
                < ncols.value() + 1,
            old(self).degree.cap() >= ncols.value() + 1 ==> r is Ok,
            r matches Ok(s) ==> {
                let mat = Matrix {
                    nrows: nrows.value(),
                    ncols: ncols.value(),
                    colptr: colptr@,
                    rowind: rowind@,
                    row_control: old(self).config.row_control(),
                    col_control: old(self).config.col_control(),
                };
                &&& s.cols == mat.alive_cols(0)
                &&& s.rows == mat.alive_rows(mat.nrows)
                &&& s.max_degree == mat.max_degree(mat.nrows)
                &&& s.min_score == mat.min_score(0)
                &&& forall|c: int|
                    #![trigger final(self).cols@[c]]
                    0 <= c < mat.ncols ==> col_scored(final(self).cols@[c], mat, c)
                &&& degree_lists(final(self).cols@, final(self).degree@, mat.ncols)
            },
    {
        let (row_control, col_control) = self.config.controls();
        let ghost mat = Matrix {
            nrows: nrows.value(),
            ncols: ncols.value(),
            colptr: colptr@,
            rowind: rowind@,
            row_control: row_control as int,
            col_control: col_control as int,
        };
        let m = nrows.to_i64();
        let n = ncols.to_i64();
        // Compute dense row and column thresholds.
        let dense_row_count = Self::dense_threshold(row_control, n);
        let dense_col_count = Self::dense_threshold(col_control, if m < n { m } else { n });
        assert(mat.valid());
        // Kill empty columns.
        let cols = self.kill_empty_cols(Ghost(mat));
        // Kill dense columns.
        let cols = self.kill_dense_cols(Ghost(mat), dense_col_count, cols);
        // Kill dense and empty rows.
        let (rows, max_degree) = self.kill_rows(Ghost(mat), dense_row_count);
        // Compute initial column scores.
        let cols = self.score_cols(Ghost(mat), cols);
        proof {
            mat.lemma_alive_cols(0);
        }
        // Initialize degree lists.
        let min_score = match self.init_degree_lists(Ghost(mat)) {
            Ok(s) => s,
            Err(e) => {
                return Err(e);
            },
        };
        Ok(ColamdScore { cols, rows, max_degree, min_score })
    }
}

} // verus!
