//! Ordering phase of COLAMD: pivot selection, approximate degree update, super
//! column detection, garbage collection and final ordering.
use vstd::prelude::*;

use super::col::ColamdCol;
use super::row::ColamdRow;
use super::access::{fails_internally, inconsistent, minus, plus, position};
use super::error::{ColamdError, ColamdErrorKind};
use super::integer::ColamdInt;
use super::{array_error, Colamd, EMPTY};
use crate::array::Array;

verus! {

/// Entry `s + u` of `inds`: the `u`-th entry of the run that starts at `s`.
pub open spec fn run_at(inds: Seq<i64>, s: int, u: int) -> i64 {
    inds[s + u]
}

/// The runs of `len` entries of `inds` that start at `a` and at `b` are equal.
pub open spec fn same_run(inds: Seq<i64>, a: int, b: int, len: int) -> bool {
    forall|u: int| 0 <= u < len ==> #[trigger] run_at(inds, a, u) == run_at(inds, b, u)
}

/// Column records `now` and `before` agree on position, length and score.
pub open spec fn same_entries(now: ColamdCol, before: ColamdCol) -> bool {
    &&& now.start == before.start
    &&& now.length == before.length
    &&& now.rank == before.rank
}

/// Column `c`, alive in `before`, is now (record `now`) dead and merged into the
/// column `q` that its weight names: another column that was alive in `before` with
/// the same length, the same score and the same rows, in the same order, in `inds`.
pub open spec fn merged_into(before: Seq<ColamdCol>, now: ColamdCol, inds: Seq<i64>, c: int) -> bool {
    let q = now.weight as int;
    &&& before[c].start >= 0
    &&& now.start == -2
    &&& now.rank == EMPTY
    &&& now.length == before[c].length
    &&& 0 <= q < before.len()
    &&& q != c
    &&& before[q].start >= 0
    &&& before[q].length == before[c].length
    &&& before[q].rank == before[c].rank
    &&& same_run(inds, before[q].start as int, before[c].start as int, before[c].length as int)
}

/// Column `c`, whose record was `before[c]` and is now `now`, kept its position,
/// length and score, or was merged into another column as `merged_into` says.
pub open spec fn detected(before: Seq<ColamdCol>, now: ColamdCol, inds: Seq<i64>, c: int) -> bool {
    same_entries(now, before[c]) || merged_into(before, now, inds, c)
}

/// The thickness that column record `col` adds to the total: its weight while it is
/// alive.
pub open spec fn thickness_of(col: ColamdCol) -> int {
    if col.start >= 0 {
        col.weight as int
    } else {
        0
    }
}

/// The total thickness of the alive columns among the first `m` of `cols`.
pub open spec fn thickness(cols: Seq<ColamdCol>, m: int) -> int
    decreases m,
{
    if m <= 0 {
        0
    } else {
        thickness(cols, m - 1) + thickness_of(cols[m - 1])
    }
}

/// Every alive column of `cols` has a weight of at least one.
pub open spec fn weights_positive(cols: Seq<ColamdCol>) -> bool {
    forall|c: int| #![trigger cols[c]] 0 <= c < cols.len() && cols[c].start >= 0 ==> cols[c].weight >= 1
}

/// Replacing one column record changes the total thickness by the difference of the
/// two records' thickness.
pub proof fn lemma_thickness_update(cols: Seq<ColamdCol>, j: int, v: ColamdCol, m: int)
    requires
        0 <= j < m <= cols.len(),
    ensures
        thickness(cols.update(j, v), m) == thickness(cols, m) - thickness_of(cols[j])
            + thickness_of(v),
    decreases m,
{
    if j < m - 1 {
        lemma_thickness_update(cols, j, v, m - 1);
    } else {
        lemma_thickness_same(cols, cols.update(j, v), m - 1);
    }
}

/// Sequences of column records whose first `m` records add the same thickness have
/// the same total thickness there.
pub proof fn lemma_thickness_same(a: Seq<ColamdCol>, b: Seq<ColamdCol>, m: int)
    requires
        m <= a.len(),
        m <= b.len(),
        forall|c: int| 0 <= c < m ==> thickness_of(#[trigger] a[c]) == thickness_of(b[c]),
    ensures
        thickness(a, m) == thickness(b, m),
    decreases m,
{
    if m > 0 {
        lemma_thickness_same(a, b, m - 1);
    }
}

/// With every alive weight at least one, the total thickness is not negative, and at
/// least one when column `c` among the first `m` is alive.
pub proof fn lemma_thickness_alive(cols: Seq<ColamdCol>, m: int, c: int)
    requires
        m <= cols.len(),
        weights_positive(cols),
    ensures
        thickness(cols, m) >= 0,
        0 <= c < m && cols[c].start >= 0 ==> thickness(cols, m) >= 1,
    decreases m,
{
    if m > 0 {
        lemma_thickness_alive(cols, m - 1, c);
        assert(thickness_of(cols[m - 1]) >= 0);
    }
}

/// `i` names a row that is alive in `rows`.
pub open spec fn row_alive(rows: Seq<ColamdRow>, i: i64) -> bool {
    0 <= i < rows.len() && rows[i as int].mark >= 0
}

/// The entries of `s` that name rows alive in `rows`, in their order.
pub open spec fn live_rows(s: Seq<i64>, rows: Seq<ColamdRow>) -> Seq<i64>
    decreases s.len(),
{
    if s.len() == 0 {
        s
    } else {
        let rest = live_rows(s.drop_last(), rows);
        if row_alive(rows, s.last()) {
            rest.push(s.last())
        } else {
            rest
        }
    }
}

/// The run of `inds` that column record `col` names.
pub open spec fn col_run(inds: Seq<i64>, col: ColamdCol) -> Seq<i64> {
    inds.subrange(col.start as int, col.start + col.length)
}

/// Column record `now` differs from `before` at most in its position and length.
pub open spec fn moved(now: ColamdCol, before: ColamdCol) -> bool {
    now == ColamdCol { start: now.start, length: now.length, ..before }
}

/// Position `x` of the indices lies at or after the end of the run of every alive
/// column among the first `n` of `cols`.
pub open spec fn after_columns(cols: Seq<ColamdCol>, n: int, x: int) -> bool {
    &&& 0 <= x
    &&& forall|j: int|
        #![trigger cols[j]]
        0 <= j < n && cols[j].start >= 0 ==> cols[j].start + cols[j].length <= x
}

/// The alive columns among the first `n` of `cols` name runs of `inds` in increasing
/// column order, without overlap.
pub open spec fn columns_in_order(cols: Seq<ColamdCol>, inds: Seq<i64>, n: int) -> bool {
    &&& n <= cols.len()
    &&& forall|j: int|
        #![trigger cols[j]]
        0 <= j < n && cols[j].start >= 0 ==> 0 <= cols[j].length && cols[j].start
            + cols[j].length <= inds.len()
    &&& forall|j: int, k: int|
        #![trigger cols[j], cols[k]]
        0 <= j < k < n && cols[j].start >= 0 && cols[k].start >= 0 ==> cols[j].start
            + cols[j].length <= cols[k].start
}

/// The workspace is laid out as the elimination keeps it: the alive columns among
/// the first `ncols` name runs in increasing column order, and the run of every alive
/// row with entries among the first `nrows` starts after all of them.
pub open spec fn packable(
    cols: Seq<ColamdCol>,
    rows: Seq<ColamdRow>,
    inds: Seq<i64>,
    ncols: int,
    nrows: int,
) -> bool {
    &&& columns_in_order(cols, inds, ncols)
    &&& forall|i: int|
        #![trigger rows[i]]
        0 <= i < nrows && i < rows.len() && rows[i].mark >= 0 && rows[i].length != 0
            ==> after_columns(cols, ncols, rows[i].start as int)
}

/// Row `i` is among the first `nrows` of `rows`, alive and with entries.
pub open spec fn row_listed(rows: Seq<ColamdRow>, nrows: int, i: int) -> bool {
    &&& 0 <= i < nrows
    &&& i < rows.len()
    &&& rows[i].mark >= 0
    &&& rows[i].length != 0
}

/// The alive rows with entries among the first `nrows` of `rows` name runs of `inds`
/// that are not empty and do not overlap, and `inds` holds no negative value.
pub open spec fn rows_in_order(rows: Seq<ColamdRow>, inds: Seq<i64>, nrows: int) -> bool {
    &&& forall|i: int|
        #![trigger rows[i]]
        row_listed(rows, nrows, i) ==> 0 <= rows[i].start && 0 < rows[i].length && rows[i].start
            + rows[i].length <= inds.len()
    &&& forall|i: int, k: int|
        #![trigger rows[i], rows[k]]
        row_listed(rows, nrows, i) && row_listed(rows, nrows, k) && i != k ==> rows[i].start
            + rows[i].length <= rows[k].start || rows[k].start + rows[k].length <= rows[i].start
    &&& forall|p: int| 0 <= p < inds.len() ==> #[trigger] inds[p] >= 0
}

/// No row listed among the first `nrows` of `rows` starts at position `p`.
pub open spec fn no_row_starts(rows: Seq<ColamdRow>, nrows: int, p: int) -> bool {
    forall|i: int| #![trigger rows[i]] row_listed(rows, nrows, i) ==> rows[i].start != p
}

/// `j` names a column that is alive in `cols`.
pub open spec fn col_alive_in(cols: Seq<ColamdCol>, j: i64) -> bool {
    0 <= j < cols.len() && cols[j as int].start >= 0
}

/// The entries of `s` that name columns alive in `cols`, in their order.
pub open spec fn live_cols(s: Seq<i64>, cols: Seq<ColamdCol>) -> Seq<i64>
    decreases s.len(),
{
    if s.len() == 0 {
        s
    } else {
        let rest = live_cols(s.drop_last(), cols);
        if col_alive_in(cols, s.last()) {
            rest.push(s.last())
        } else {
            rest
        }
    }
}

/// The run of `inds` that row record `row` names.
pub open spec fn row_run(inds: Seq<i64>, row: ColamdRow) -> Seq<i64> {
    inds.subrange(row.start as int, row.start + row.length)
}

/// The state that marking the rows of `rows0` over `inds0` leaves in `rows` and
/// `inds`, with the runs of the listed rows starting at or after `dst`.
pub open spec fn rows_marked(
    rows: Seq<ColamdRow>,
    inds: Seq<i64>,
    rows0: Seq<ColamdRow>,
    inds0: Seq<i64>,
    nrows: int,
    dst: int,
) -> bool {
    &&& rows_in_order(rows0, inds0, nrows)
    &&& rows.len() == rows0.len()
    &&& inds.len() == inds0.len()
    &&& forall|i: int|
        #![trigger rows[i]]
        row_listed(rows0, nrows, i) ==> {
            &&& rows[i] == ColamdRow { mark: inds0[rows0[i].start as int], ..rows0[i] }
            &&& inds[rows0[i].start as int] == -i - 1
            &&& dst <= rows0[i].start
        }
    &&& forall|p: int|
        dst <= p < inds0.len() && no_row_starts(rows0, nrows, p) ==> #[trigger] inds[p] == inds0[p]
}

/// Column records that agree on which columns are alive keep the same entries of a
/// run.
pub proof fn lemma_live_cols_same(s: Seq<i64>, a: Seq<ColamdCol>, b: Seq<ColamdCol>)
    requires
        forall|j: i64| col_alive_in(a, j) == col_alive_in(b, j),
    ensures
        live_cols(s, a) == live_cols(s, b),
    decreases s.len(),
{
    if s.len() > 0 {
        lemma_live_cols_same(s.drop_last(), a, b);
    }
}

/// Entries `start..start + length` of `inds` lie below `bound`, none negative.
pub open spec fn run_below(inds: Seq<i64>, start: int, length: int, bound: int) -> bool {
    forall|p: int| start <= p < start + length ==> 0 <= #[trigger] inds[p] < bound
}

/// The runs of the alive columns among the first `ncols` of `cols` name rows of
/// `rows`, and those of the rows listed among the first `nrows` name columns of `cols`.
pub open spec fn runs_named(
    cols: Seq<ColamdCol>,
    rows: Seq<ColamdRow>,
    inds: Seq<i64>,
    ncols: int,
    nrows: int,
) -> bool {
    &&& forall|j: int|
        #![trigger cols[j]]
        0 <= j < ncols && cols[j].start >= 0 ==> run_below(
            inds,
            cols[j].start as int,
            cols[j].length as int,
            rows.len() as int,
        )
    &&& forall|i: int|
        #![trigger rows[i]]
        row_listed(rows, nrows, i) ==> run_below(
            inds,
            rows[i].start as int,
            rows[i].length as int,
            cols.len() as int,
        )
    &&& nrows <= rows.len()
}

/// Columns `c` and `d` of `cols` have the same length, the same score and the same
/// rows, in the same order, in `inds`.
pub open spec fn identical(cols: Seq<ColamdCol>, inds: Seq<i64>, c: int, d: int) -> bool {
    &&& cols[c].length == cols[d].length
    &&& cols[c].rank == cols[d].rank
    &&& same_run(inds, cols[c].start as int, cols[d].start as int, cols[c].length as int)
}

/// Each of the first `iq` columns of `l` is identical in `cols` to no column after it.
pub open spec fn twins_apart(cols: Seq<ColamdCol>, inds: Seq<i64>, l: Seq<int>, iq: int) -> bool {
    forall|i: int, j: int|
        #![trigger l[i], l[j]]
        0 <= i < iq && i < j < l.len() ==> !identical(cols, inds, l[i], l[j])
}

/// Column `l[iq]` is identical in `cols` to none of the columns `l[iq + 1..=ip]`.
pub open spec fn first_apart(
    cols: Seq<ColamdCol>,
    inds: Seq<i64>,
    l: Seq<int>,
    iq: int,
    ip: int,
) -> bool {
    forall|j: int| #![trigger l[j]] iq < j <= ip ==> !identical(cols, inds, l[iq], l[j])
}

/// No two distinct columns of the pivot row `inds[start..stop]` that are alive in
/// `cols` and lay in one hash bucket of `cols0` were identical in `cols0`.
pub open spec fn no_twins_left(
    cols0: Seq<ColamdCol>,
    cols: Seq<ColamdCol>,
    inds: Seq<i64>,
    start: int,
    stop: int,
) -> bool {
    forall|p: int, q: int|
        #![trigger inds[p], inds[q]]
        start <= p < stop && start <= q < stop && inds[p] != inds[q] && cols[inds[p] as int].start
            >= 0 && cols[inds[q] as int].start >= 0 && cols0[inds[p] as int].prev
            == cols0[inds[q] as int].prev ==> !identical(cols0, inds, inds[p] as int, inds[q] as int)
}

/// Taking a column after `l[ip]` out of `l` keeps the columns compared so far apart.
pub proof fn lemma_twins_remove(cols: Seq<ColamdCol>, inds: Seq<i64>, l: Seq<int>, iq: int, ip: int)
    requires
        0 <= iq <= ip,
        ip + 1 < l.len(),
        twins_apart(cols, inds, l, iq),
        first_apart(cols, inds, l, iq, ip),
    ensures
        twins_apart(cols, inds, l.remove(ip + 1), iq),
        first_apart(cols, inds, l.remove(ip + 1), iq, ip),
{
    let r = l.remove(ip + 1);
    assert forall|i: int, j: int|
        #![trigger r[i], r[j]]
        0 <= i < iq && i < j < r.len() implies !identical(cols, inds, r[i], r[j]) by {
        let j2 = if j <= ip { j } else { j + 1 };
        assert(r[i] == l[i]);
        assert(r[j] == l[j2]);
    }
    assert forall|j: int| #![trigger r[j]] iq < j <= ip implies !identical(
        cols,
        inds,
        r[iq],
        r[j],
    ) by {
        assert(r[iq] == l[iq]);
        assert(r[j] == l[j]);
    }
}

/// Once column `l[iq]` is apart from every column after it, the first `iq + 1`
/// columns are.
pub proof fn lemma_twins_next(cols: Seq<ColamdCol>, inds: Seq<i64>, l: Seq<int>, iq: int)
    requires
        0 <= iq < l.len(),
        twins_apart(cols, inds, l, iq),
        first_apart(cols, inds, l, iq, l.len() - 1),
    ensures
        twins_apart(cols, inds, l, iq + 1),
{
    assert forall|i: int, j: int|
        #![trigger l[i], l[j]]
        0 <= i < iq + 1 && i < j < l.len() implies !identical(cols, inds, l[i], l[j]) by {
        if i == iq {
            assert(iq < j <= l.len() - 1);
        }
    }
}

/// Taking another element out of a sequence keeps `x` in it.
pub proof fn lemma_remove_keeps(l: Seq<int>, i: int, x: int)
    requires
        0 <= i < l.len(),
        l.contains(x),
        x != l[i],
    ensures
        l.remove(i).contains(x),
{
    let k = choose|k: int| 0 <= k < l.len() && l[k] == x;
    let r = l.remove(i);
    if k < i {
        assert(r[k] == x);
    } else {
        assert(r[k - 1] == x);
    }
}

/// Taking `l[i]`, now dead, out of `l` keeps on it every column of `members` that
/// is alive, when every alive column of `members` was on `l` and was alive before.
pub proof fn lemma_members_kept(
    l: Seq<int>,
    i: int,
    members: Seq<int>,
    before: Seq<ColamdCol>,
    after: Seq<ColamdCol>,
)
    requires
        0 <= i < l.len(),
        after.len() == before.len(),
        forall|k: int| #![trigger members[k]] 0 <= k < members.len() ==> 0 <= members[k] < before.len(),
        forall|k: int|
            #![trigger members[k]]
            0 <= k < members.len() && before[members[k]].start >= 0 ==> l.contains(members[k]),
        0 <= l[i] < after.len(),
        after[l[i]].start < 0,
        forall|c: int|
            #![trigger after[c]]
            0 <= c < after.len() && after[c].start >= 0 ==> before[c].start >= 0,
    ensures
        forall|k: int|
            #![trigger members[k]]
            0 <= k < members.len() && after[members[k]].start >= 0 ==> l.remove(i).contains(
                members[k],
            ),
{
    assert forall|k: int|
        #![trigger members[k]]
        0 <= k < members.len() && after[members[k]].start >= 0 implies l.remove(i).contains(
        members[k],
    ) by {
        let x = members[k];
        assert(before[x].start >= 0);
        lemma_remove_keeps(l, i, x);
    }
}

/// With every visited bucket's final chain apart, every alive column of a visited
/// bucket on that chain, and the bucket of every alive column of the pivot row
/// visited, no twins are left on the pivot row.
pub proof fn lemma_twins_left(
    cols0: Seq<ColamdCol>,
    cols: Seq<ColamdCol>,
    degree0: Seq<i64>,
    inds: Seq<i64>,
    start: int,
    stop: int,
    lists0: Seq<Seq<int>>,
    done: Seq<Seq<int>>,
    visited: Seq<bool>,
)
    requires
        buckets_ready(cols0, degree0, inds, start, stop - start, lists0),
        cols.len() == cols0.len(),
        forall|c: int| #![trigger cols[c]] 0 <= c < cols.len() && cols[c].start >= 0 ==> cols0[c].start >= 0,
        done.len() == lists0.len(),
        visited.len() == lists0.len(),
        forall|b: int| #![trigger done[b]] 0 <= b < done.len() && visited[b] ==> twins_apart(cols0, inds, done[b], done[b].len() as int),
        forall|b: int, k: int|
            #![trigger lists0[b][k]]
            0 <= b < lists0.len() && visited[b] && 0 <= k < lists0[b].len() && cols[lists0[b][k]].start >= 0
                ==> done[b].contains(lists0[b][k]),
        forall|p: int|
            #![trigger inds[p]]
            start <= p < stop && cols[inds[p] as int].start >= 0 ==> visited[cols0[inds[p] as int].prev as int],
    ensures
        no_twins_left(cols0, cols, inds, start, stop),
{
    assert forall|p: int, q: int|
        #![trigger inds[p], inds[q]]
        start <= p < stop && start <= q < stop && inds[p] != inds[q] && cols[inds[p] as int].start
            >= 0 && cols[inds[q] as int].start >= 0 && cols0[inds[p] as int].prev
            == cols0[inds[q] as int].prev implies !identical(cols0, inds, inds[p] as int, inds[q] as int) by {
        let c = inds[p] as int;
        let d = inds[q] as int;
        let h = cols0[c].prev as int;
        assert(cols0[c].start >= 0 && cols0[d].start >= 0);
        assert(lists0[h].contains(c) && lists0[h].contains(d));
        let kc = choose|k: int| 0 <= k < lists0[h].len() && lists0[h][k] == c;
        let kd = choose|k: int| 0 <= k < lists0[h].len() && lists0[h][k] == d;
        assert(done[h].contains(lists0[h][kc]));
        assert(done[h].contains(lists0[h][kd]));
        let l = done[h];
        let i = choose|i: int| 0 <= i < l.len() && l[i] == c;
        let j = choose|j: int| 0 <= j < l.len() && l[j] == d;
        assert(twins_apart(cols0, inds, l, l.len() as int));
        if i < j {
            assert(!identical(cols0, inds, l[i], l[j]));
        } else {
            assert(!identical(cols0, inds, l[j], l[i]));
            if identical(cols0, inds, c, d) {
                assert forall|u: int|
                    0 <= u < cols0[d].length implies #[trigger] run_at(inds, cols0[d].start as int, u)
                    == run_at(inds, cols0[c].start as int, u) by {
                    assert(run_at(inds, cols0[c].start as int, u) == run_at(
                        inds,
                        cols0[d].start as int,
                        u,
                    ));
                }
                assert(identical(cols0, inds, d, c));
            }
        }
    }
}

/// The first column of hash bucket `b`: held by the `prev` field of the head of
/// degree list `b` when that list is not empty, else encoded in the head itself.
pub open spec fn bucket_first(cols: Seq<ColamdCol>, degree: Seq<i64>, b: int) -> int {
    let head = degree[b];
    if head > EMPTY {
        cols[head as int].prev as int
    } else {
        -(head + 2)
    }
}

/// `list` is the chain of columns that starts at `first` and follows the `next` links:
/// distinct alive columns of `cols`, each with its run within the first `len`
/// indices, the last one linked to `EMPTY`.
pub open spec fn chain(cols: Seq<ColamdCol>, len: int, first: int, list: Seq<int>) -> bool {
    &&& if list.len() == 0 {
        first == EMPTY
    } else {
        first == list[0]
    }
    &&& list.no_duplicates()
    &&& forall|i: int|
        #![trigger list[i]]
        0 <= i < list.len() ==> {
            &&& 0 <= list[i] < cols.len()
            &&& cols[list[i]].start >= 0
            &&& cols[list[i]].start + cols[list[i]].length <= len
            &&& cols[list[i]].next == (if i + 1 < list.len() {
                list[i + 1]
            } else {
                EMPTY as int
            })
        }
}

/// No column lies on two of the chains `lists`, nor heads a degree list of `degree`.
pub open spec fn chains_apart(lists: Seq<Seq<int>>, degree: Seq<i64>) -> bool {
    &&& forall|b: int, c: int, i: int, j: int|
        #![trigger lists[b][i], lists[c][j]]
        0 <= b < lists.len() && 0 <= c < lists.len() && b != c && 0 <= i < lists[b].len() && 0
            <= j < lists[c].len() ==> lists[b][i] != lists[c][j]
    &&& forall|b: int, i: int, h: int|
        #![trigger lists[b][i], degree[h]]
        0 <= b < lists.len() && 0 <= i < lists[b].len() && 0 <= h < degree.len() ==> lists[b][i]
            != degree[h]
}

/// The hash buckets are ready for super column detection over the pivot row
/// `inds[start..start + length]`: every bucket is a chain `lists[b]` from its first
/// column, apart from the others and from the degree list heads, every head is a
/// column, every column of the pivot row is a column and, when alive, names a bucket
/// whose chain holds it and heads no degree list, and the alive columns, each of
/// weight at least one,
/// weigh at most `i64::MAX` in all.
pub open spec fn buckets_ready(
    cols: Seq<ColamdCol>,
    degree: Seq<i64>,
    inds: Seq<i64>,
    start: int,
    length: int,
    lists: Seq<Seq<int>>,
) -> bool {
    &&& 0 <= start
    &&& start + length <= inds.len()
    &&& lists.len() == degree.len()
    &&& forall|b: int|
        #![trigger degree[b]]
        0 <= b < degree.len() ==> degree[b] < cols.len() && chain(
            cols,
            inds.len() as int,
            bucket_first(cols, degree, b),
            lists[b],
        )
    &&& chains_apart(lists, degree)
    &&& forall|p: int|
        #![trigger inds[p]]
        start <= p < start + length ==> 0 <= inds[p] < cols.len() && (cols[inds[p] as int].start
            >= 0 ==> 0 <= cols[inds[p] as int].prev < degree.len() && lists[cols[inds[p] as int].prev as int].contains(
            inds[p] as int,
        ) && forall|h: int|
            #![trigger degree[h]]
            0 <= h < degree.len() ==> degree[h] != inds[p])
    &&& weights_positive(cols)
    &&& thickness(cols, cols.len() as int) <= i64::MAX
}

/// Every hash bucket of `degree` is the chain `lists[b]` within the first `len`
/// indices, and every degree list head is a column.
pub open spec fn buckets_chained(
    cols: Seq<ColamdCol>,
    degree: Seq<i64>,
    len: int,
    lists: Seq<Seq<int>>,
) -> bool {
    &&& lists.len() == degree.len()
    &&& forall|b: int|
        #![trigger degree[b]]
        0 <= b < degree.len() ==> degree[b] < cols.len() && chain(
            cols,
            len,
            bucket_first(cols, degree, b),
            lists[b],
        )
    &&& chains_apart(lists, degree)
}

/// Taking column `lists[b][k]` out of its chain, by linking the column before it to
/// the column after it, leaves every bucket a chain, as long as the first columns of
/// the buckets, and the columns left on the chains, keep their position, length and
/// link.
#[verifier::rlimit(60)]
#[verifier::spinoff_prover]
pub proof fn lemma_chains_remove(
    cols: Seq<ColamdCol>,
    cols2: Seq<ColamdCol>,
    degree: Seq<i64>,
    len: int,
    lists: Seq<Seq<int>>,
    b: int,
    k: int,
)
    requires
        buckets_chained(cols, degree, len, lists),
        0 <= b < lists.len(),
        1 <= k < lists[b].len(),
        cols2.len() == cols.len(),
        forall|c: int| #![trigger cols2[c]] 0 <= c < cols.len() ==> cols2[c].prev == cols[c].prev,
        forall|c: int|
            #![trigger cols2[c]]
            0 <= c < cols.len() && c != lists[b][k] && c != lists[b][k - 1] ==> cols2[c].start
                == cols[c].start && cols2[c].length == cols[c].length && cols2[c].next
                == cols[c].next,
        cols2[lists[b][k - 1]].start == cols[lists[b][k - 1]].start,
        cols2[lists[b][k - 1]].length == cols[lists[b][k - 1]].length,
        cols2[lists[b][k - 1]].next == (if k + 1 < lists[b].len() {
            lists[b][k + 1]
        } else {
            EMPTY as int
        }),
    ensures
        buckets_chained(cols2, degree, len, lists.update(b, lists[b].remove(k))),
{
    let l2 = lists.update(b, lists[b].remove(k));
    let lb = lists[b];
    let r = lb.remove(k);
    assert forall|x: int|
        #![trigger degree[x]]
        0 <= x < degree.len() implies degree[x] < cols2.len() && chain(
        cols2,
        len,
        bucket_first(cols2, degree, x),
        l2[x],
    ) by {
        assert(degree[x] < cols.len() && chain(cols, len, bucket_first(cols, degree, x), lists[x]));
        if degree[x] > EMPTY {
            assert(cols2[degree[x] as int].prev == cols[degree[x] as int].prev);
        }
        assert(bucket_first(cols2, degree, x) == bucket_first(cols, degree, x));
        if x == b {
            assert(r.no_duplicates()) by {
                assert forall|i: int, j: int| 0 <= i < r.len() && 0 <= j < r.len() && i != j implies r[i]
                    != r[j] by {
                    let i2 = if i < k { i } else { i + 1 };
                    let j2 = if j < k { j } else { j + 1 };
                    assert(r[i] == lb[i2] && r[j] == lb[j2]);
                }
            }
            assert forall|i: int|
                #![trigger r[i]]
                0 <= i < r.len() implies {
                &&& 0 <= r[i] < cols2.len()
                &&& cols2[r[i]].start >= 0
                &&& cols2[r[i]].start + cols2[r[i]].length <= len
                &&& cols2[r[i]].next == (if i + 1 < r.len() {
                    r[i + 1]
                } else {
                    EMPTY as int
                })
            } by {
                let i2 = if i < k { i } else { i + 1 };
                assert(r[i] == lb[i2]);
                assert(lb[i2] != lb[k]);
                if i + 1 < r.len() {
                    let j2 = if i + 1 < k { i + 1 } else { i + 2 };
                    assert(r[i + 1] == lb[j2]);
                }
                if i2 != k - 1 {
                    assert(lb[i2] != lb[k - 1]);
                }
            }
            if lb.len() > 1 {
                assert(r[0] == lb[0]);
            }
        } else {
            assert(l2[x] == lists[x]);
            let lx = lists[x];
            assert forall|i: int|
                #![trigger lx[i]]
                0 <= i < lx.len() implies {
                &&& 0 <= lx[i] < cols2.len()
                &&& cols2[lx[i]].start >= 0
                &&& cols2[lx[i]].start + cols2[lx[i]].length <= len
                &&& cols2[lx[i]].next == (if i + 1 < lx.len() {
                    lx[i + 1]
                } else {
                    EMPTY as int
                })
            } by {
                assert(lx[i] != lb[k]);
                assert(lx[i] != lb[k - 1]);
            }
        }
    }
    assert(chains_apart(l2, degree)) by {
        assert forall|x: int, y: int, i: int, j: int|
            #![trigger l2[x][i], l2[y][j]]
            0 <= x < l2.len() && 0 <= y < l2.len() && x != y && 0 <= i < l2[x].len() && 0 <= j
                < l2[y].len() implies l2[x][i] != l2[y][j] by {
            let i2 = if x == b && i >= k { i + 1 } else { i };
            let j2 = if y == b && j >= k { j + 1 } else { j };
            assert(l2[x][i] == lists[x][i2]);
            assert(l2[y][j] == lists[y][j2]);
        }
        assert forall|x: int, i: int, h: int|
            #![trigger l2[x][i], degree[h]]
            0 <= x < l2.len() && 0 <= i < l2[x].len() && 0 <= h < degree.len() implies l2[x][i]
            != degree[h] by {
            let i2 = if x == b && i >= k { i + 1 } else { i };
            assert(l2[x][i] == lists[x][i2]);
        }
    }
}

/// After bucket `b` is emptied, bucket `x` other than `b` is still its chain.
proof fn lemma_chain_after_empty(
    cols: Seq<ColamdCol>,
    cols2: Seq<ColamdCol>,
    degree: Seq<i64>,
    degree2: Seq<i64>,
    len: int,
    lists: Seq<Seq<int>>,
    b: int,
    x: int,
)
    requires
        buckets_chained(cols, degree, len, lists),
        0 <= b < degree.len(),
        0 <= x < degree.len(),
        x != b,
        degree[b] > EMPTY ==> degree2 == degree && cols2 == cols.update(
            degree[b] as int,
            ColamdCol { prev: EMPTY, ..cols[degree[b] as int] },
        ),
        degree[b] <= EMPTY ==> cols2 == cols && degree2 == degree.update(b, EMPTY),
    ensures
        degree2[x] < cols2.len(),
        degree[b] > EMPTY && degree[x] == degree[b] ==> lists[x].len() == 0,
        chain(cols2, len, bucket_first(cols2, degree2, x), lists[x]),
{
    assert(degree[x] < cols.len() && chain(cols, len, bucket_first(cols, degree, x), lists[x]));
    assert(degree[b] < cols.len() && chain(cols, len, bucket_first(cols, degree, b), lists[b]));
    let lx = lists[x];
    if degree[b] > EMPTY && degree[x] == degree[b] {
        if lx.len() > 0 {
            assert(lists[b].len() > 0);
            assert(lx[0] == lists[b][0]);
            assert(lists[x][0] != lists[b][0]);
        }
    } else {
        if degree[b] > EMPTY && degree[x] > EMPTY {
            assert(cols2[degree[x] as int] == cols[degree[x] as int]);
        }
        assert(bucket_first(cols2, degree2, x) == bucket_first(cols, degree, x));
        assert forall|i: int|
            #![trigger lx[i]]
            0 <= i < lx.len() implies {
            &&& 0 <= lx[i] < cols2.len()
            &&& cols2[lx[i]].start >= 0
            &&& cols2[lx[i]].start + cols2[lx[i]].length <= len
            &&& cols2[lx[i]].next == (if i + 1 < lx.len() {
                lx[i + 1]
            } else {
                EMPTY as int
            })
        } by {
            assert(lists[x][i] == lx[i]);
            if degree[b] > EMPTY {
                assert(lx[i] != degree[b]);
            }
        }
    }
}

/// Emptying bucket `b`, by unlinking the first column from the head of its degree list
/// or by setting the head to `EMPTY`, leaves every bucket a chain, bucket `b` empty.
pub proof fn lemma_chains_empty(
    cols: Seq<ColamdCol>,
    cols2: Seq<ColamdCol>,
    degree: Seq<i64>,
    degree2: Seq<i64>,
    len: int,
    lists: Seq<Seq<int>>,
    b: int,
)
    requires
        buckets_chained(cols, degree, len, lists),
        0 <= b < degree.len(),
        degree[b] > EMPTY ==> degree2 == degree && cols2 == cols.update(
            degree[b] as int,
            ColamdCol { prev: EMPTY, ..cols[degree[b] as int] },
        ),
        degree[b] <= EMPTY ==> cols2 == cols && degree2 == degree.update(b, EMPTY),
    ensures
        buckets_chained(cols2, degree2, len, lists.update(b, Seq::empty())),
{
    let l2 = lists.update(b, Seq::<int>::empty());
    assert(degree[b] < cols.len());
    assert forall|x: int|
        #![trigger degree2[x]]
        0 <= x < degree2.len() implies degree2[x] < cols2.len() && chain(
        cols2,
        len,
        bucket_first(cols2, degree2, x),
        l2[x],
    ) by {
        if x != b {
            lemma_chain_after_empty(cols, cols2, degree, degree2, len, lists, b, x);
        }
    }
    assert(chains_apart(l2, degree2)) by {
        assert forall|x: int, y: int, i: int, j: int|
            #![trigger l2[x][i], l2[y][j]]
            0 <= x < l2.len() && 0 <= y < l2.len() && x != y && 0 <= i < l2[x].len() && 0 <= j
                < l2[y].len() implies l2[x][i] != l2[y][j] by {
            assert(l2[x][i] == lists[x][i]);
            assert(l2[y][j] == lists[y][j]);
        }
        assert forall|x: int, i: int, g: int|
            #![trigger l2[x][i], degree2[g]]
            0 <= x < l2.len() && 0 <= i < l2[x].len() && 0 <= g < degree2.len() implies l2[x][i]
            != degree2[g] by {
            assert(l2[x][i] == lists[x][i]);
            assert(degree[x] < cols.len() && chain(cols, len, bucket_first(cols, degree, x), lists[x]));
            assert(lists[x][i] >= 0);
        }
    }
}

/// A chain holds at most as many columns as `cols` has.
pub proof fn lemma_chain_short(cols: Seq<ColamdCol>, len: int, first: int, list: Seq<int>)
    requires
        chain(cols, len, first, list),
    ensures
        list.len() <= cols.len(),
{
    list.unique_seq_to_set();
    vstd::set_lib::lemma_int_range(0, cols.len() as int);
    assert(list.to_set().subset_of(vstd::set_lib::set_int_range(0, cols.len() as int))) by {
        assert forall|c: int| list.to_set().contains(c) implies vstd::set_lib::set_int_range(
            0,
            cols.len() as int,
        ).contains(c) by {
            let i = choose|i: int| 0 <= i < list.len() && list[i] == c;
            assert(0 <= list[i] < cols.len());
        }
    }
    vstd::set_lib::lemma_len_subset(list.to_set(), vstd::set_lib::set_int_range(0, cols.len() as int));
}

/// With every alive weight at least one, two distinct alive columns weigh at most the
/// total thickness.
pub proof fn lemma_two_weights(cols: Seq<ColamdCol>, m: int, c: int, d: int)
    requires
        m <= cols.len(),
        weights_positive(cols),
        0 <= c < m,
        0 <= d < m,
        c != d,
        cols[c].start >= 0,
        cols[d].start >= 0,
    ensures
        cols[c].weight + cols[d].weight <= thickness(cols, m),
    decreases m,
{
    lemma_thickness_alive(cols, m - 1, c);
    if c == m - 1 || d == m - 1 {
        let e = if c == m - 1 {
            d
        } else {
            c
        };
        lemma_thickness_one(cols, m - 1, e);
    } else {
        lemma_two_weights(cols, m - 1, c, d);
        assert(thickness_of(cols[m - 1]) >= 0);
    }
}

/// With every alive weight at least one, an alive column weighs at most the total
/// thickness.
pub proof fn lemma_thickness_one(cols: Seq<ColamdCol>, m: int, c: int)
    requires
        m <= cols.len(),
        weights_positive(cols),
        0 <= c < m,
        cols[c].start >= 0,
    ensures
        cols[c].weight <= thickness(cols, m),
    decreases m,
{
    lemma_thickness_alive(cols, m - 1, c);
    if c < m - 1 {
        lemma_thickness_one(cols, m - 1, c);
        assert(thickness_of(cols[m - 1]) >= 0);
    }
}

/// Writing `v` just after the run `a..b` of `s` extends that run by `v`.
pub proof fn lemma_write_run(s: Seq<i64>, a: int, b: int, v: i64)
    requires
        0 <= a <= b < s.len(),
    ensures
        s.update(b, v).subrange(a, b + 1) == s.subrange(a, b).push(v),
{
    assert(s.update(b, v).subrange(a, b + 1) =~= s.subrange(a, b).push(v));
}

impl<I: ColamdInt> Colamd<I> {
    /// Restart the marks when the tag `tag` leaves `1..imax - ncols`: the marks of the
    /// rows alive are reset to `0` and the new tag is `1`; otherwise the tag is kept.
    pub(crate) fn clear(&mut self, tag: i64, ncols: i64, imax: i64) -> (r: i64)
        requires
            old(self).wf(),
            0 <= ncols <= imax,
        ensures
            old(self).same_shape(final(self)),
            final(self).cols == old(self).cols,
            final(self).inds == old(self).inds,
            final(self).degree == old(self).degree,
            final(self).rows@.len() == old(self).rows@.len(),
            r == (if tag <= 0 || tag >= imax - ncols {
                1
            } else {
                tag
            }),
            tag <= 0 || tag >= imax - ncols ==> forall|i: int|
                #![trigger final(self).rows@[i]]
                0 <= i < old(self).rows@.len() ==> final(self).rows@[i] == (if old(
                    self,
                ).rows@[i].mark >= 0 {
                    super::row::ColamdRow { mark: 0, ..old(self).rows@[i] }
                } else {
                    old(self).rows@[i]
                }),
            !(tag <= 0 || tag >= imax - ncols) ==> final(self).rows == old(self).rows,
    {
        if tag <= 0 || tag >= imax - ncols {
            let m = self.rows.length();
            let mut i: usize = 0;
            while i < m
                invariant
                    old(self).same_shape(self),
                    self.cols == old(self).cols,
                    self.inds == old(self).inds,
                    self.degree == old(self).degree,
                    self.rows@.len() == m == old(self).rows@.len(),
                    i <= m,
                    forall|k: int|
                        #![trigger self.rows@[k]]
                        0 <= k < i ==> self.rows@[k] == (if old(self).rows@[k].mark >= 0 {
                            super::row::ColamdRow { mark: 0, ..old(self).rows@[k] }
                        } else {
                            old(self).rows@[k]
                        }),
                    forall|k: int|
                        #![trigger self.rows@[k]]
                        i <= k < m ==> self.rows@[k] == old(self).rows@[k],
                decreases m - i,
            {
                let mut row = self.rows.get(i);
                if row.alive() {
                    row.mark = 0;
                    self.rows.set(i, row);
                }
                i = i + 1;
            }
            1
        } else {
            tag
        }
    }

    /// Move the entries of the alive columns among the first `ncols`, in column order,
    /// to the front of the indices, keeping those that name alive rows, and return
    /// the position after the last entry moved.
    fn pack_columns(&mut self, ncols: i64) -> (r: Result<i64, ColamdError<I>>)
        requires
            old(self).wf(),
        ensures
            old(self).same_shape(final(self)),
            fails_internally(r),
            columns_in_order(old(self).cols@, old(self).inds@, ncols as int) && runs_named(
                old(self).cols@,
                old(self).rows@,
                old(self).inds@,
                ncols as int,
                0,
            ) ==> r is Ok,
            r matches Ok(dst) ==> {
                &&& final(self).rows == old(self).rows
                &&& final(self).degree == old(self).degree
                &&& final(self).cols@.len() == old(self).cols@.len()
                &&& final(self).inds@.len() == old(self).inds@.len()
                &&& 0 <= dst <= old(self).inds@.len()
                &&& forall|p: int| 0 <= p < dst ==> #[trigger] final(self).inds@[p] >= 0
                &&& forall|p: int|
                    dst <= p < old(self).inds@.len() ==> #[trigger] final(self).inds@[p] == old(
                        self,
                    ).inds@[p]
                &&& forall|c: int|
                    #![trigger final(self).cols@[c]]
                    0 <= c < old(self).cols@.len() && (c >= ncols || old(self).cols@[c].start < 0)
                        ==> final(self).cols@[c] == old(self).cols@[c]
                &&& forall|c: int|
                    #![trigger final(self).cols@[c]]
                    0 <= c < ncols && c < old(self).cols@.len() && old(self).cols@[c].start >= 0
                        ==> {
                        &&& moved(final(self).cols@[c], old(self).cols@[c])
                        &&& 0 <= final(self).cols@[c].start
                        &&& 0 <= final(self).cols@[c].length
                        &&& final(self).cols@[c].start + final(self).cols@[c].length <= dst
                    }
                &&& columns_in_order(old(self).cols@, old(self).inds@, ncols as int) ==> {
                    &&& forall|c: int|
                        #![trigger final(self).cols@[c]]
                        0 <= c < ncols && old(self).cols@[c].start >= 0 ==> col_run(
                            final(self).inds@,
                            final(self).cols@[c],
                        ) == live_rows(col_run(old(self).inds@, old(self).cols@[c]), old(self).rows@)
                    &&& forall|x: int|
                        #[trigger] after_columns(old(self).cols@, ncols as int, x) ==> dst <= x
                }
            },
    {
        let ghost cols0 = self.cols@;
        let ghost inds0 = self.inds@;
        let ghost rows0 = self.rows@;
        let ghost cio = columns_in_order(cols0, inds0, ncols as int);
        let ghost named = runs_named(cols0, rows0, inds0, ncols as int, 0);
        let ghost len0 = inds0.len();
        let mut dst: i64 = 0;
        let mut j: i64 = 0;
        while j < ncols
            invariant
                old(self).same_shape(self),
                cols0 == old(self).cols@,
                inds0 == old(self).inds@,
                rows0 == old(self).rows@,
                len0 == inds0.len(),
                cio == columns_in_order(cols0, inds0, ncols as int),
                named == runs_named(cols0, rows0, inds0, ncols as int, 0),
                self.rows == old(self).rows,
                self.degree == old(self).degree,
                self.cols@.len() == cols0.len(),
                self.inds@.len() == len0,
                0 <= j,
                j <= ncols || j == 0,
                0 <= dst <= len0,
                forall|p: int| dst <= p < len0 ==> #[trigger] self.inds@[p] == inds0[p],
                forall|p: int| 0 <= p < dst ==> #[trigger] self.inds@[p] >= 0,
                forall|c: int|
                    #![trigger self.cols@[c]]
                    0 <= c < cols0.len() && (c >= j || cols0[c].start < 0) ==> self.cols@[c]
                        == cols0[c],
                forall|c: int|
                    #![trigger self.cols@[c]]
                    0 <= c < j && c < cols0.len() && cols0[c].start >= 0 ==> {
                        &&& moved(self.cols@[c], cols0[c])
                        &&& 0 <= self.cols@[c].start
                        &&& 0 <= self.cols@[c].length
                        &&& self.cols@[c].start + self.cols@[c].length <= dst
                    },
                cio ==> forall|c: int|
                    #![trigger self.cols@[c]]
                    0 <= c < j && cols0[c].start >= 0 ==> col_run(self.inds@, self.cols@[c])
                        == live_rows(col_run(inds0, cols0[c]), rows0),
                cio ==> forall|c: int|
                    #![trigger cols0[c]]
                    j <= c < ncols && cols0[c].start >= 0 ==> dst <= cols0[c].start,
                cio ==> forall|x: int| #[trigger] after_columns(cols0, ncols as int, x) ==> dst <= x,
            decreases ncols - j,
        {
            let mut col = self.col_at(j)?;
            if col.alive() {
                assert(col == cols0[j as int]);
                let ghost s0 = col.start as int;
                let ghost l0 = col.length as int;
                let ghost dst0 = dst as int;
                let ghost inds_mid = self.inds@;
                let ghost cols_prev = self.cols@;
                let mut src = col.start;
                col.start = dst;
                self.set_col(j, col)?;
                let ghost cols_mid = self.cols@;
                let length = col.length;
                let mut t: i64 = 0;
                while t < length
                    invariant
                        old(self).same_shape(self),
                        self.rows == old(self).rows,
                        self.degree == old(self).degree,
                        self.cols@ == cols_mid,
                        self.inds@.len() == len0,
                        len0 == inds0.len(),
                        inds0 == old(self).inds@,
                        rows0 == old(self).rows@,
                        cols0 == old(self).cols@,
                        cio == columns_in_order(cols0, inds0, ncols as int),
                        named == runs_named(cols0, rows0, inds0, ncols as int, 0),
                        length == l0,
                        0 <= s0,
                        0 <= t,
                        src == s0 + t,
                        0 <= dst0 <= dst <= len0,
                        dst - dst0 <= t,
                        forall|p: int| dst <= p < len0 ==> #[trigger] self.inds@[p] == inds0[p],
                        forall|p: int| 0 <= p < dst0 ==> #[trigger] self.inds@[p] == inds_mid[p],
                        forall|p: int| 0 <= p < dst ==> #[trigger] self.inds@[p] >= 0,
                        cio ==> dst0 <= s0,
                        cio ==> t <= l0 && s0 + l0 <= len0,
                        cio && named ==> run_below(inds0, s0, l0, rows0.len() as int),
                        cio ==> self.inds@.subrange(dst0, dst as int) == live_rows(
                            inds0.subrange(s0, s0 + t),
                            rows0,
                        ),
                    decreases length - t,
                {
                    let i = self.ind_at(src)?;
                    let ghost before = self.inds@;
                    let ghost dst_before = dst as int;
                    proof {
                        if cio {
                            assert(self.inds@[src as int] == inds0[src as int]);
                        }
                    }
                    src = plus(src, 1)?;
                    let alive = self.row_at(i)?.alive();
                    if alive {
                        self.set_ind(dst, i)?;
                        dst = plus(dst, 1)?;
                    }
                    proof {
                        if cio {
                            let prefix = inds0.subrange(s0, s0 + t + 1);
                            assert(prefix.drop_last() =~= inds0.subrange(s0, s0 + t));
                            assert(prefix.last() == i);
                            assert(row_alive(rows0, i) == alive);
                            if alive {
                                lemma_write_run(before, dst0, dst_before, i);
                                assert(self.inds@.subrange(dst0, dst as int) =~= before.subrange(
                                    dst0,
                                    dst_before,
                                ).push(i));
                            } else {
                                assert(self.inds@.subrange(dst0, dst as int) =~= before.subrange(
                                    dst0,
                                    dst_before,
                                ));
                            }
                        }
                    }
                    t = t + 1;
                }
                let mut col = self.col_at(j)?;
                col.length = minus(dst, col.start)?;
                self.set_col(j, col)?;
                proof {
                    if cio {
                        assert(t == l0);
                        assert(col_run(inds0, cols0[j as int]) =~= inds0.subrange(s0, s0 + l0));
                        assert(col_run(self.inds@, self.cols@[j as int]) =~= self.inds@.subrange(
                            dst0,
                            dst as int,
                        ));
                        assert forall|c: int|
                            0 <= c < j && cols0[c].start >= 0 implies #[trigger] col_run(
                            self.inds@,
                            self.cols@[c],
                        ) == live_rows(col_run(inds0, cols0[c]), rows0) by {
                            assert(self.cols@[c] == cols_prev[c]);
                            assert(col_run(self.inds@, self.cols@[c]) =~= col_run(
                                inds_mid,
                                cols_prev[c],
                            ));
                        }
                        assert forall|x: int| #[trigger]
                            after_columns(cols0, ncols as int, x) implies dst <= x by {
                            assert(cols0[j as int].start + cols0[j as int].length <= x);
                        }
                    }
                }
            }
            j = j + 1;
        }
        Ok(dst)
    }

    /// Kill the rows among the first `nrows` that are dead or without entries, and
    /// mark the start of the run of every other one with the row, keeping the entry
    /// that the mark replaces in the row's mark.
    fn mark_rows(&mut self, nrows: i64) -> (r: Result<(), ColamdError<I>>)
        requires
            old(self).wf(),
        ensures
            old(self).same_shape(final(self)),
            fails_internally(r),
            rows_in_order(old(self).rows@, old(self).inds@, nrows as int) && nrows <= old(
                self,
            ).rows@.len() ==> r is Ok,
            r is Ok ==> {
                &&& final(self).cols == old(self).cols
                &&& final(self).degree == old(self).degree
                &&& final(self).rows@.len() == old(self).rows@.len()
                &&& final(self).inds@.len() == old(self).inds@.len()
                &&& nrows <= old(self).rows@.len() || nrows <= 0
                &&& forall|i: int|
                    #![trigger final(self).rows@[i]]
                    0 <= i < old(self).rows@.len() ==> if 0 <= i < nrows && (old(self).rows@[i].mark
                        < 0 || old(self).rows@[i].length == 0) {
                        final(self).rows@[i] == ColamdRow { mark: -1i64, ..old(self).rows@[i] }
                    } else if 0 <= i < nrows {
                        final(self).rows@[i] == ColamdRow {
                            mark: final(self).rows@[i].mark,
                            ..old(self).rows@[i]
                        }
                    } else {
                        final(self).rows@[i] == old(self).rows@[i]
                    }
                &&& rows_in_order(old(self).rows@, old(self).inds@, nrows as int) ==> {
                    &&& forall|i: int|
                        #![trigger final(self).rows@[i]]
                        row_listed(old(self).rows@, nrows as int, i) ==> final(self).rows@[i].mark
                            == old(self).inds@[old(self).rows@[i].start as int] && final(
                            self).inds@[old(self).rows@[i].start as int] == -i - 1
                }
                &&& forall|p: int|
                    0 <= p < old(self).inds@.len() && no_row_starts(old(self).rows@, nrows as int, p)
                        ==> #[trigger] final(self).inds@[p] == old(self).inds@[p]
            },
    {
        let ghost rows0 = self.rows@;
        let ghost inds0 = self.inds@;
        let ghost ro = rows_in_order(rows0, inds0, nrows as int);
        let mut i: i64 = 0;
        while i < nrows
            invariant
                old(self).same_shape(self),
                rows0 == old(self).rows@,
                inds0 == old(self).inds@,
                ro == rows_in_order(rows0, inds0, nrows as int),
                self.cols == old(self).cols,
                self.degree == old(self).degree,
                self.rows@.len() == rows0.len(),
                self.inds@.len() == inds0.len(),
                0 <= i,
                i <= nrows || i == 0,
                i <= rows0.len(),
                forall|k: int|
                    #![trigger self.rows@[k]]
                    0 <= k < rows0.len() ==> if 0 <= k < i && (rows0[k].mark < 0 || rows0[k].length
                        == 0) {
                        self.rows@[k] == ColamdRow { mark: -1i64, ..rows0[k] }
                    } else if 0 <= k < i {
                        self.rows@[k] == ColamdRow { mark: self.rows@[k].mark, ..rows0[k] }
                    } else {
                        self.rows@[k] == rows0[k]
                    },
                ro ==> forall|k: int|
                    #![trigger self.rows@[k]]
                    0 <= k < i && row_listed(rows0, nrows as int, k) ==> self.rows@[k].mark
                        == inds0[rows0[k].start as int] && self.inds@[rows0[k].start as int] == -k
                        - 1,
                forall|p: int|
                    0 <= p < inds0.len() && (forall|k: int|
                        #![trigger rows0[k]]
                        0 <= k < i && row_listed(rows0, nrows as int, k) ==> rows0[k].start != p)
                        ==> #[trigger] self.inds@[p] == inds0[p],
            decreases nrows - i,
        {
            let mut row = self.row_at(i)?;
            if row.dead() || row.length == 0 {
                row.kill();
                self.set_row(i, row)?;
            } else {
                let src = row.start;
                let ghost before = self.inds@;
                proof {
                    if ro {
                        assert(row_listed(rows0, nrows as int, i as int));
                        assert forall|k: int|
                            #![trigger rows0[k]]
                            0 <= k < i && row_listed(rows0, nrows as int, k) implies rows0[k].start != src by {
                            assert(row_listed(rows0, nrows as int, i as int));
                        }
                    }
                }
                row.mark = self.ind_at(src)?;
                proof {
                    if ro {
                        assert(self.inds@[src as int] == inds0[src as int]);
                    }
                }
                let ghost rows_b = self.rows@;
                let ghost inds_b = self.inds@;
                self.set_row(i, row)?;
                self.set_ind(src, -i - 1)?;
                proof {
                    if ro {
                        assert forall|k: int|
                            #![trigger self.rows@[k]]
                            0 <= k < i + 1 && row_listed(rows0, nrows as int, k) implies self.rows@[k].mark
                            == inds0[rows0[k].start as int] && self.inds@[rows0[k].start as int]
                            == -k - 1 by {
                            if k < i {
                                assert(rows0[k].start != src);
                                assert(self.rows@[k] == rows_b[k]);
                                assert(self.inds@[rows0[k].start as int] == inds_b[rows0[k].start as int]);
                            } else {
                                assert(k == i);
                                assert(self.rows@[k] == row);
                                assert(row.start == rows0[k].start);
                            }
                        }
                    }
                }
            }
            i = i + 1;
        }
        proof {
            assert forall|p: int|
                0 <= p < inds0.len() && no_row_starts(rows0, nrows as int, p) implies #[trigger] self.inds@[p]
                == inds0[p] by {
                assert forall|k: int|
                    #![trigger rows0[k]]
                    0 <= k < i && row_listed(rows0, nrows as int, k) implies rows0[k].start != p by {
                }
            }
        }
        Ok(())
    }

    /// Move the entries of the marked rows, in the order of their runs, to the
    /// indices from `dst` on, keeping those that name alive columns, and return the
    /// position after the last entry moved.
    fn pack_rows(
        &mut self,
        from: i64,
        Ghost(rows0): Ghost<Seq<ColamdRow>>,
        Ghost(inds0): Ghost<Seq<i64>>,
        Ghost(nrows): Ghost<int>,
    ) -> (r: Result<i64, ColamdError<I>>)
        requires
            old(self).wf(),
            0 <= from,
        ensures
            old(self).same_shape(final(self)),
            fails_internally(r),
            rows_marked(old(self).rows@, old(self).inds@, rows0, inds0, nrows, from as int) && from
                <= old(self).inds@.len() && (forall|i: int|
                #![trigger rows0[i]]
                row_listed(rows0, nrows, i) ==> run_below(
                    inds0,
                    rows0[i].start as int,
                    rows0[i].length as int,
                    old(self).cols@.len() as int,
                )) ==> r is Ok,
            r matches Ok(end) ==> {
                &&& final(self).cols == old(self).cols
                &&& final(self).degree == old(self).degree
                &&& final(self).rows@.len() == old(self).rows@.len()
                &&& final(self).inds@.len() == old(self).inds@.len()
                &&& from <= end <= old(self).inds@.len()
                &&& forall|p: int| 0 <= p < from ==> #[trigger] final(self).inds@[p] == old(self).inds@[p]
                &&& forall|i: int|
                    #![trigger final(self).rows@[i]]
                    0 <= i < old(self).rows@.len() ==> final(self).rows@[i] == ColamdRow {
                        start: final(self).rows@[i].start,
                        length: final(self).rows@[i].length,
                        ..old(self).rows@[i]
                    }
                &&& rows_marked(old(self).rows@, old(self).inds@, rows0, inds0, nrows, from as int)
                    ==> forall|i: int|
                    #![trigger final(self).rows@[i]]
                    row_listed(rows0, nrows, i) ==> {
                        &&& final(self).rows@[i] == ColamdRow {
                            start: final(self).rows@[i].start,
                            length: final(self).rows@[i].length,
                            ..old(self).rows@[i]
                        }
                        &&& from <= final(self).rows@[i].start
                        &&& 0 <= final(self).rows@[i].length
                        &&& final(self).rows@[i].start + final(self).rows@[i].length <= end
                        &&& row_run(final(self).inds@, final(self).rows@[i]) == live_cols(
                            row_run(inds0, rows0[i]),
                            old(self).cols@,
                        )
                    }
            },
    {
        let ghost rows_in = self.rows@;
        let ghost inds_in = self.inds@;
        let ghost cols = self.cols@;
        let ghost dst0 = from as int;
        let ghost m = rows_marked(rows_in, inds_in, rows0, inds0, nrows, dst0);
        let ghost named = forall|i: int|
            #![trigger rows0[i]]
            row_listed(rows0, nrows, i) ==> run_below(
                inds0,
                rows0[i].start as int,
                rows0[i].length as int,
                cols.len() as int,
            );
        let mut dst = from;
        let mut src = from;
        proof {
            assert(self.rows@.len() <= isize::MAX);
            assert(self.inds@.len() <= isize::MAX);
        }
        let len = self.inds.length();
        if len as u64 > i64::MAX as u64 {
            return Err(inconsistent());
        }
        let lim = len as i64;
        if src > lim {
            return Err(inconsistent());
        }
        proof {
            if m {
                assert forall|i: int|
                    #![trigger rows0[i]]
                    row_listed(rows0, nrows, i) && src <= rows0[i].start implies self.rows@[i]
                    == rows_in[i] && self.inds@[rows0[i].start as int] == -i - 1 by {
                    assert(rows_in[i] == ColamdRow { mark: inds0[rows0[i].start as int], ..rows0[i] });
                }
            }
        }
        while src < lim
            invariant
                old(self).same_shape(self),
                rows_in == old(self).rows@,
                inds_in == old(self).inds@,
                dst0 == from,
                rows_in.len() <= isize::MAX,
                cols == old(self).cols@,
                m == rows_marked(rows_in, inds_in, rows0, inds0, nrows, dst0),
                named == forall|i: int|
                    #![trigger rows0[i]]
                    row_listed(rows0, nrows, i) ==> run_below(
                        inds0,
                        rows0[i].start as int,
                        rows0[i].length as int,
                        cols.len() as int,
                    ),
                self.cols == old(self).cols,
                self.degree == old(self).degree,
                self.rows@.len() == rows_in.len(),
                self.inds@.len() == len == lim == inds_in.len(),
                0 <= dst0 <= dst <= src <= lim,
                forall|p: int| 0 <= p < dst0 ==> #[trigger] self.inds@[p] == inds_in[p],
                forall|i: int|
                    #![trigger self.rows@[i]]
                    0 <= i < rows_in.len() ==> self.rows@[i] == (ColamdRow {
                        start: self.rows@[i].start,
                        length: self.rows@[i].length,
                        ..rows_in[i]
                    }),
                m ==> forall|i: int|
                    #![trigger rows0[i]]
                    row_listed(rows0, nrows, i) && src <= rows0[i].start ==> self.rows@[i]
                        == rows_in[i] && self.inds@[rows0[i].start as int] == -i - 1,
                m ==> forall|p: int|
                    src <= p < lim && no_row_starts(rows0, nrows, p) ==> #[trigger] self.inds@[p]
                        == inds0[p],
                m ==> forall|i: int|
                    #![trigger rows0[i]]
                    row_listed(rows0, nrows, i) && rows0[i].start < src ==> {
                        &&& self.rows@[i] == ColamdRow {
                            start: self.rows@[i].start,
                            length: self.rows@[i].length,
                            ..rows_in[i]
                        }
                        &&& dst0 <= self.rows@[i].start
                        &&& 0 <= self.rows@[i].length
                        &&& self.rows@[i].start + self.rows@[i].length <= dst
                        &&& row_run(self.inds@, self.rows@[i]) == live_cols(
                            row_run(inds0, rows0[i]),
                            cols,
                        )
                    },
            decreases lim - src,
        {
            let v = self.ind_at(src)?;
            if v < 0 {
                proof {
                    if m {
                        if no_row_starts(rows0, nrows, src as int) {
                            assert(inds0[src as int] >= 0);
                        }
                        let w = choose|w: int| row_listed(rows0, nrows, w) && rows0[w].start == src;
                        assert(row_listed(rows0, nrows, w) && rows0[w].start == src);
                        assert(self.rows@[w] == rows_in[w]);
                        assert(self.inds@[src as int] == -w - 1);
                    }
                }
                let i = minus(minus(0, v)?, 1)?;
                proof {
                    if m {
                        let w = choose|w: int| row_listed(rows0, nrows, w) && rows0[w].start == src;
                        assert(w == i);
                    }
                }
                let mark = self.row_at(i)?.mark;
                let ghost before_set = self.inds@;
                self.set_ind(src, mark)?;
                let mut row = self.row_at(i)?;
                let ghost rows_mid = self.rows@;
                row.start = dst;
                self.set_row(i, row)?;
                let length = row.length;
                if length < 1 {
                    return Err(inconsistent());
                }
                let src0 = src;
                let ghost dst_r = dst as int;
                let ghost inds_mid = self.inds@;
                proof {
                    if m {
                        assert(rows0[i as int].start == src0);
                        assert(length == rows0[i as int].length);
                        assert(self.inds@[src0 as int] == inds0[src0 as int]);
                        assert forall|p: int| src0 <= p < lim && !(exists|w: int| row_listed(rows0, nrows, w) && rows0[w].start == p && w != i) implies #[trigger] self.inds@[p] == inds0[p] by {
                            if p != src0 {
                                if !no_row_starts(rows0, nrows, p) {
                                    let w = choose|w: int| row_listed(rows0, nrows, w) && rows0[w].start == p;
                                    assert(w != i);
                                }
                                assert(before_set[p] == inds0[p]);
                            }
                        }
                    }
                }
                let mut t: i64 = 0;
                while t < length
                    invariant
                        old(self).same_shape(self),
                        cols == old(self).cols@,
                        self.cols == old(self).cols,
                        self.degree == old(self).degree,
                        self.rows@ == rows_mid.update(i as int, row),
                        rows_mid.len() == rows_in.len(),
                        self.inds@.len() == len == lim == inds_in.len(),
                        m ==> inds0.len() == inds_in.len(),
                        m == rows_marked(rows_in, inds_in, rows0, inds0, nrows, dst0),
                        named == forall|i: int|
                            #![trigger rows0[i]]
                            row_listed(rows0, nrows, i) ==> run_below(
                                inds0,
                                rows0[i].start as int,
                                rows0[i].length as int,
                                cols.len() as int,
                            ),
                        length == row.length,
                        0 <= t <= length,
                        src == src0 + t,
                        src <= lim,
                        0 <= dst0 <= dst_r <= dst <= src,
                        dst - dst_r <= t,
                        0 <= src0,
                        forall|p: int| 0 <= p < dst_r ==> #[trigger] self.inds@[p] == inds_mid[p],
                        forall|p: int| src <= p < lim ==> #[trigger] self.inds@[p] == inds_mid[p],
                        m ==> src0 + length <= lim,
                        rows_in == old(self).rows@,
                        inds_in == old(self).inds@,
                        dst0 == from,
                        m && named ==> run_below(inds0, src0 as int, length as int, cols.len() as int),
                        m ==> forall|p: int|
                            src0 <= p < src0 + length ==> #[trigger] inds_mid[p] == inds0[p],
                        m ==> self.inds@.subrange(dst_r, dst as int) == live_cols(
                            inds0.subrange(src0 as int, src0 + t),
                            cols,
                        ),
                    decreases length - t,
                {
                    let j = self.ind_at(src)?;
                    let ghost before = self.inds@;
                    let ghost dst_before = dst as int;
                    src = plus(src, 1)?;
                    let alive = self.col_at(j)?.alive();
                    if alive {
                        self.set_ind(dst, j)?;
                        dst = plus(dst, 1)?;
                    }
                    proof {
                        if m {
                            let prefix = inds0.subrange(src0 as int, src0 + t + 1);
                            assert(prefix.drop_last() =~= inds0.subrange(src0 as int, src0 + t));
                            assert(prefix.last() == j);
                            assert(col_alive_in(cols, j) == alive);
                            if alive {
                                lemma_write_run(before, dst_r, dst_before, j);
                                assert(self.inds@.subrange(dst_r, dst as int) =~= before.subrange(
                                    dst_r,
                                    dst_before,
                                ).push(j));
                            } else {
                                assert(self.inds@.subrange(dst_r, dst as int) =~= before.subrange(
                                    dst_r,
                                    dst_before,
                                ));
                            }
                        }
                    }
                    t = t + 1;
                }
                let mut row = self.row_at(i)?;
                row.length = minus(dst, row.start)?;
                self.set_row(i, row)?;
            } else {
                src = src + 1;
            }
        }
        Ok(dst)
    }

    /// Garbage collection: move the entries of the alive columns, then those of the
    /// alive rows, to the front of the indices, dropping dead rows and columns, and
    /// kill the rows without entries. Alive columns keep all but their position and
    /// length, rows with entries all but their position, length and mark. Laid out as
    /// the elimination keeps the workspace, each alive column names afterwards the
    /// entries of its run that named alive rows, and each alive row with entries the
    /// entries of its run that named alive columns, in their order. It succeeds when
    /// the workspace is so laid out and its runs name rows and columns in range.
    pub(crate) fn compact(&mut self, nrows: i64, ncols: i64) -> (r: Result<(), ColamdError<I>>)
        requires
            old(self).wf(),
        ensures
            old(self).same_shape(final(self)),
            fails_internally(r),
            packable(old(self).cols@, old(self).rows@, old(self).inds@, ncols as int, nrows as int)
                && rows_in_order(old(self).rows@, old(self).inds@, nrows as int) && runs_named(
                old(self).cols@,
                old(self).rows@,
                old(self).inds@,
                ncols as int,
                nrows as int,
            ) ==> r is Ok,
            r is Ok ==> {
                &&& final(self).degree == old(self).degree
                &&& final(self).cols@.len() == old(self).cols@.len()
                &&& final(self).rows@.len() == old(self).rows@.len()
                &&& final(self).inds@.len() <= old(self).inds@.len()
                &&& forall|c: int|
                    #![trigger final(self).cols@[c]]
                    0 <= c < old(self).cols@.len() && (c >= ncols || old(self).cols@[c].start < 0)
                        ==> final(self).cols@[c] == old(self).cols@[c]
                &&& forall|c: int|
                    #![trigger final(self).cols@[c]]
                    0 <= c < ncols && c < old(self).cols@.len() && old(self).cols@[c].start >= 0
                        ==> {
                        &&& moved(final(self).cols@[c], old(self).cols@[c])
                        &&& 0 <= final(self).cols@[c].start
                        &&& 0 <= final(self).cols@[c].length
                        &&& final(self).cols@[c].start + final(self).cols@[c].length
                            <= final(self).inds@.len()
                    }
                &&& forall|i: int|
                    #![trigger final(self).rows@[i]]
                    0 <= i < nrows && i < old(self).rows@.len() && (old(self).rows@[i].mark < 0
                        || old(self).rows@[i].length == 0) ==> final(self).rows@[i].mark == -1
                &&& forall|i: int|
                    #![trigger final(self).rows@[i]]
                    row_listed(old(self).rows@, nrows as int, i) ==> final(self).rows@[i]
                        == ColamdRow {
                        start: final(self).rows@[i].start,
                        length: final(self).rows@[i].length,
                        mark: final(self).rows@[i].mark,
                        ..old(self).rows@[i]
                    }
                &&& packable(
                    old(self).cols@,
                    old(self).rows@,
                    old(self).inds@,
                    ncols as int,
                    nrows as int,
                ) ==> forall|c: int|
                    #![trigger final(self).cols@[c]]
                    0 <= c < ncols && old(self).cols@[c].start >= 0 ==> col_run(
                        final(self).inds@,
                        final(self).cols@[c],
                    ) == live_rows(col_run(old(self).inds@, old(self).cols@[c]), old(self).rows@)
                &&& packable(
                    old(self).cols@,
                    old(self).rows@,
                    old(self).inds@,
                    ncols as int,
                    nrows as int,
                ) && rows_in_order(old(self).rows@, old(self).inds@, nrows as int) ==> forall|
                    i: int,
                |
                    #![trigger final(self).rows@[i]]
                    row_listed(old(self).rows@, nrows as int, i) ==> {
                        &&& 0 <= final(self).rows@[i].start
                        &&& 0 <= final(self).rows@[i].length
                        &&& final(self).rows@[i].start + final(self).rows@[i].length
                            <= final(self).inds@.len()
                        &&& row_run(final(self).inds@, final(self).rows@[i]) == live_cols(
                            row_run(old(self).inds@, old(self).rows@[i]),
                            old(self).cols@,
                        )
                    }
            },
    {
        let ghost cols0 = self.cols@;
        let ghost inds0 = self.inds@;
        let ghost rows0 = self.rows@;
        let ghost pk = packable(cols0, rows0, inds0, ncols as int, nrows as int);
        let ghost ro = rows_in_order(rows0, inds0, nrows as int);
        let ghost named = runs_named(cols0, rows0, inds0, ncols as int, nrows as int);
        proof {
            if named {
                assert(runs_named(cols0, rows0, inds0, ncols as int, 0));
            }
        }
        // Defragment the columns.
        let dst = self.pack_columns(ncols)?;
        let ghost inds1 = self.inds@;
        let ghost cols1 = self.cols@;
        // Mark the rows.
        self.mark_rows(nrows)?;
        let ghost rows2 = self.rows@;
        let ghost inds2 = self.inds@;
        proof {
            if pk && ro {
                assert forall|i: int|
                    #![trigger rows0[i]]
                    row_listed(rows0, nrows as int, i) implies dst <= rows0[i].start by {
                    assert(after_columns(cols0, ncols as int, rows0[i].start as int));
                }
                assert(rows_in_order(rows0, inds1, nrows as int)) by {
                    assert forall|p: int| 0 <= p < inds1.len() implies #[trigger] inds1[p] >= 0 by {
                        if p >= dst {
                            assert(inds1[p] == inds0[p]);
                        }
                    }
                }
                assert(rows_marked(rows2, inds2, rows0, inds1, nrows as int, dst as int)) by {
                    assert forall|i: int|
                        #![trigger rows2[i]]
                        row_listed(rows0, nrows as int, i) implies {
                        &&& rows2[i] == ColamdRow { mark: inds1[rows0[i].start as int], ..rows0[i] }
                        &&& inds2[rows0[i].start as int] == -i - 1
                        &&& dst <= rows0[i].start
                    } by {
                        assert(rows2[i] == ColamdRow { mark: rows2[i].mark, ..rows0[i] });
                    }
                }
                if named {
                    assert forall|i: int|
                        #![trigger rows0[i]]
                        row_listed(rows0, nrows as int, i) implies run_below(
                        inds1,
                        rows0[i].start as int,
                        rows0[i].length as int,
                        self.cols@.len() as int,
                    ) by {
                        assert(run_below(
                            inds0,
                            rows0[i].start as int,
                            rows0[i].length as int,
                            cols0.len() as int,
                        ));
                        assert forall|p: int|
                            rows0[i].start <= p < rows0[i].start + rows0[i].length implies 0
                            <= #[trigger] inds1[p] < self.cols@.len() by {
                            assert(inds1[p] == inds0[p]);
                        }
                    }
                }
            }
        }
        // Defragment the rows.
        let end = self.pack_rows(dst, Ghost(rows0), Ghost(inds1), Ghost(nrows as int))?;
        let ghost inds3 = self.inds@;
        let ghost rows3 = self.rows@;
        let len = self.inds.length();
        let keep = position(end, len + 1)?;
        self.inds.truncate(keep);
        proof {
            assert forall|c: int|
                0 <= c < ncols && c < cols0.len() && cols0[c].start >= 0 implies #[trigger] self.cols@[c].start
                + self.cols@[c].length <= self.inds@.len() by {
                assert(self.cols@[c] == cols1[c]);
            }
            assert forall|i: int|
                #![trigger self.rows@[i]]
                0 <= i < nrows && i < rows0.len() && (rows0[i].mark < 0 || rows0[i].length == 0) implies self.rows@[i].mark
                == -1 by {
                assert(rows2[i] == ColamdRow { mark: -1i64, ..rows0[i] });
                assert(self.rows@[i].mark == rows2[i].mark);
            }
            assert forall|j: i64| col_alive_in(cols1, j) == col_alive_in(cols0, j) by {
                if 0 <= j < cols0.len() {
                    assert(cols1[j as int].start >= 0 <==> cols0[j as int].start >= 0);
                }
            }
            if pk {
                assert forall|c: int|
                    #![trigger self.cols@[c]]
                    0 <= c < ncols && cols0[c].start >= 0 implies col_run(self.inds@, self.cols@[c])
                    == live_rows(col_run(inds0, cols0[c]), rows0) by {
                    assert(col_run(self.inds@, self.cols@[c]) =~= col_run(inds1, cols1[c]));
                }
            }
            if pk && ro {
                assert forall|i: int|
                    #![trigger self.rows@[i]]
                    row_listed(rows0, nrows as int, i) implies {
                    &&& 0 <= self.rows@[i].start
                    &&& 0 <= self.rows@[i].length
                    &&& self.rows@[i].start + self.rows@[i].length <= self.inds@.len()
                    &&& row_run(self.inds@, self.rows@[i]) == live_cols(row_run(inds0, rows0[i]), cols0)
                } by {
                    assert(row_run(self.inds@, self.rows@[i]) =~= row_run(inds3, rows3[i]));
                    assert(row_run(inds1, rows0[i]) =~= row_run(inds0, rows0[i]));
                    lemma_live_cols_same(row_run(inds0, rows0[i]), cols1, cols0);
                }
            }
        }
        Ok(())
    }

    /// Merge column `next`, alive with the length, score and rows of column `q`, into
    /// `q`: `q` takes on its weight, `next` dies naming `q`, and `next` leaves the chain
    /// `cur[h]` after `prev`. Return the column that followed `next`.
    #[verifier::spinoff_prover]
    fn absorb(
        &mut self,
        q: i64,
        next: i64,
        prev: i64,
        Ghost(cols0): Ghost<Seq<ColamdCol>>,
        Ghost(cur): Ghost<Seq<Seq<int>>>,
        Ghost(h): Ghost<int>,
        Ghost(ip): Ghost<int>,
        Ghost(ilen): Ghost<int>,
        Ghost(ready): Ghost<bool>,
    ) -> (r: Result<i64, ColamdError<I>>)
        requires
            old(self).wf(),
            old(self).cols@.len() == cols0.len(),
            0 <= q < cols0.len(),
            0 <= next < cols0.len(),
            next != q,
            cols0[q as int].start >= 0,
            cols0[next as int].start >= 0,
            same_entries(old(self).cols@[q as int], cols0[q as int]),
            same_entries(old(self).cols@[next as int], cols0[next as int]),
            cols0[next as int].length == cols0[q as int].length,
            cols0[next as int].rank == cols0[q as int].rank,
            same_run(
                old(self).inds@,
                cols0[q as int].start as int,
                cols0[next as int].start as int,
                cols0[next as int].length as int,
            ),
            forall|c: int|
                #![trigger old(self).cols@[c]]
                0 <= c < cols0.len() ==> detected(cols0, old(self).cols@[c], old(self).inds@, c),
            ready ==> {
                &&& buckets_chained(old(self).cols@, old(self).degree@, ilen, cur)
                &&& 0 <= h < cur.len()
                &&& 0 <= ip
                &&& ip + 1 < cur[h].len()
                &&& cur[h][ip] == prev as int
                &&& cur[h][ip + 1] == next as int
                &&& weights_positive(old(self).cols@)
                &&& thickness(old(self).cols@, cols0.len() as int) <= i64::MAX
            },
        ensures
            old(self).same_shape(final(self)),
            fails_internally(r),
            ready ==> r is Ok,
            r matches Ok(after) ==> {
                &&& final(self).rows == old(self).rows
                &&& final(self).inds == old(self).inds
                &&& final(self).degree == old(self).degree
                &&& final(self).cols@.len() == old(self).cols@.len()
                &&& forall|c: int|
                    #![trigger final(self).cols@[c]]
                    0 <= c < cols0.len() ==> detected(cols0, final(self).cols@[c], old(self).inds@, c)
                &&& thickness(final(self).cols@, cols0.len() as int) == thickness(
                    old(self).cols@,
                    cols0.len() as int,
                )
                &&& weights_positive(old(self).cols@) ==> weights_positive(final(self).cols@)
                &&& forall|c: int|
                    #![trigger final(self).cols@[c]]
                    0 <= c < cols0.len() && old(self).cols@[c].start < 0 ==> final(self).cols@[c].start
                        == old(self).cols@[c].start && final(self).cols@[c].weight == old(
                        self,
                    ).cols@[c].weight
                &&& forall|c: int|
                    #![trigger final(self).cols@[c]]
                    0 <= c < cols0.len() && final(self).cols@[c].start >= 0 ==> old(self).cols@[c].start
                        >= 0 && final(self).cols@[c].prev == old(self).cols@[c].prev
                &&& final(self).cols@[next as int].start < 0
                &&& same_entries(final(self).cols@[q as int], cols0[q as int])
                &&& ready ==> buckets_chained(
                    final(self).cols@,
                    final(self).degree@,
                    ilen,
                    cur.update(h, cur[h].remove(ip + 1)),
                )
                &&& ready ==> after == (if ip + 2 < cur[h].len() {
                    cur[h][ip + 2]
                } else {
                    EMPTY as int
                })
            },
    {
        let ghost c0 = self.cols@;
        let ghost n = c0.len() as int;
        let nc = self.col_at(next)?;
        let weight = nc.weight;
        proof {
            if ready {
                assert(chain(c0, ilen, bucket_first(c0, self.degree@, h), cur[h]));
                lemma_two_weights(c0, n, q as int, next as int);
            }
        }
        let mut qc2 = self.col_at(q)?;
        qc2.weight = plus(qc2.weight, weight)?;
        let ghost before = self.cols@;
        self.set_col(q, qc2)?;
        proof {
            lemma_thickness_update(before, q as int, qc2, n);
        }
        let mut nc2 = self.col_at(next)?;
        nc2.weight = q;
        nc2.kill_non_principal();
        nc2.rank = EMPTY;
        let ghost before = self.cols@;
        self.set_col(next, nc2)?;
        proof {
            lemma_thickness_update(before, next as int, nc2, n);
        }
        assert(merged_into(cols0, nc2, self.inds@, next as int));
        let after = self.col_at(next)?.next;
        let mut pc = self.col_at(prev)?;
        pc.next = after;
        let ghost before = self.cols@;
        self.set_col(prev, pc)?;
        proof {
            lemma_thickness_update(before, prev as int, pc, n);
            if ready {
                lemma_chains_remove(c0, self.cols@, self.degree@, ilen, cur, h, ip + 1);
            }
        }
        Ok(after)
    }

    /// Whether the runs of `len` indices from `a` and from `b` are equal.
    fn same_rows(&self, a: i64, b: i64, len: i64) -> (r: Result<bool, ColamdError<I>>)
        requires
            self.wf(),
        ensures
            fails_internally(r),
            0 <= a && 0 <= b && a + len <= self.inds@.len() && b + len <= self.inds@.len()
                ==> r is Ok,
            r matches Ok(x) ==> x == same_run(self.inds@, a as int, b as int, len as int),
    {
        let mut p1 = a;
        let mut p2 = b;
        let mut t: i64 = 0;
        while t < len
            invariant
                self.wf(),
                0 <= t,
                p1 == a + t,
                p2 == b + t,
                forall|u: int| 0 <= u < t ==> #[trigger] run_at(self.inds@, a as int, u) == run_at(
                    self.inds@,
                    b as int,
                    u,
                ),
            decreases len - t,
        {
            let v1 = self.ind_at(p1)?;
            let v2 = self.ind_at(p2)?;
            if v1 != v2 {
                assert(run_at(self.inds@, a as int, t as int) != run_at(self.inds@, b as int, t as int));
                return Ok(false);
            }
            assert(run_at(self.inds@, a as int, t as int) == v1);
            assert(run_at(self.inds@, b as int, t as int) == v2);
            p1 = plus(p1, 1)?;
            p2 = plus(p2, 1)?;
            t = t + 1;
        }
        Ok(true)
    }

    /// Detect super columns: among the columns of the pivot row
    /// `inds[start..start + length]`, merge each column whose rows are those of an
    /// earlier column of the same hash bucket into that column. Every column keeps
    /// its position, length and score, or is merged as `merged_into` says; rows and
    /// indices are left as they are. It succeeds when the hash buckets are chains of
    /// the alive columns of the pivot row, as `buckets_ready` says, and then leaves
    /// alive no two columns of one bucket with the same length, score and rows.
    #[verifier::loop_isolation(false)]
    #[verifier::rlimit(100)]
    #[verifier::spinoff_prover]
    pub(crate) fn detect(&mut self, start: i64, length: i64) -> (r: Result<(), ColamdError<I>>)
        requires
            old(self).wf(),
        ensures
            old(self).same_shape(final(self)),
            fails_internally(r),
            (exists|lists: Seq<Seq<int>>|
                buckets_ready(
                    old(self).cols@,
                    old(self).degree@,
                    old(self).inds@,
                    start as int,
                    length as int,
                    lists,
                )) ==> r is Ok,
            (exists|lists: Seq<Seq<int>>|
                buckets_ready(
                    old(self).cols@,
                    old(self).degree@,
                    old(self).inds@,
                    start as int,
                    length as int,
                    lists,
                )) ==> (r is Ok ==> no_twins_left(
                old(self).cols@,
                final(self).cols@,
                old(self).inds@,
                start as int,
                start + length,
            )),
            r is Ok ==> {
                &&& final(self).rows == old(self).rows
                &&& final(self).inds == old(self).inds
                &&& final(self).cols@.len() == old(self).cols@.len()
                &&& forall|c: int|
                    #![trigger final(self).cols@[c]]
                    0 <= c < old(self).cols@.len() ==> detected(
                        old(self).cols@,
                        final(self).cols@[c],
                        old(self).inds@,
                        c,
                    )
                &&& thickness(final(self).cols@, old(self).cols@.len() as int) == thickness(
                    old(self).cols@,
                    old(self).cols@.len() as int,
                )
                &&& weights_positive(old(self).cols@) ==> weights_positive(final(self).cols@)
                &&& forall|c: int|
                    #![trigger final(self).cols@[c]]
                    0 <= c < old(self).cols@.len() && old(self).cols@[c].start < 0 ==> final(self).cols@[c].weight == old(self).cols@[c].weight
            },
    {
        let ghost cols0 = self.cols@;
        let ghost inds0 = self.inds@;
        let ghost deg0 = self.degree@;
        let ghost ilen = inds0.len() as int;
        let ghost ready = exists|lists: Seq<Seq<int>>|
            buckets_ready(cols0, deg0, inds0, start as int, length as int, lists);
        let ghost mut cur: Seq<Seq<int>> = choose|lists: Seq<Seq<int>>|
            buckets_ready(cols0, deg0, inds0, start as int, length as int, lists);
        let ghost lists0 = cur;
        let ghost mut done: Seq<Seq<int>> = cur;
        let ghost mut visited: Seq<bool> = Seq::new(cur.len(), |b: int| false);
        let n = self.cols.length();
        let stop = plus(start, length)?;
        proof {
            if ready {
                assert(buckets_ready(cols0, deg0, inds0, start as int, length as int, cur));
                assert(buckets_chained(self.cols@, self.degree@, ilen, cur));
            }
        }
        let mut ptr = start;
        while ptr < stop
            invariant
                old(self).same_shape(self),
                self.cols@.len() == n,
                self.rows == old(self).rows,
                self.inds == old(self).inds,
                forall|c: int|
                    #![trigger self.cols@[c]]
                    0 <= c < n ==> detected(cols0, self.cols@[c], inds0, c),
                thickness(self.cols@, n as int) == thickness(cols0, n as int),
                weights_positive(cols0) ==> weights_positive(self.cols@),
                start <= ptr,
                self.degree@.len() == deg0.len(),
                ready ==> buckets_chained(self.cols@, self.degree@, ilen, cur),
                ready ==> weights_positive(self.cols@) && thickness(cols0, n as int) <= i64::MAX,
                ready ==> 0 <= start && stop == start + length <= ilen,
                ready ==> forall|p: int|
                    #![trigger inds0[p]]
                    start <= p < stop ==> 0 <= inds0[p] < n && (self.cols@[inds0[p] as int].start
                        >= 0 ==> 0 <= self.cols@[inds0[p] as int].prev < self.degree@.len()
                        && forall|h: int|
                        #![trigger self.degree@[h]]
                        0 <= h < self.degree@.len() ==> self.degree@[h] != inds0[p]),
                forall|c: int|
                    #![trigger self.cols@[c]]
                    0 <= c < n && cols0[c].start < 0 ==> self.cols@[c].weight == cols0[c].weight,
                ready ==> buckets_ready(cols0, deg0, inds0, start as int, length as int, lists0),
                ready ==> done.len() == lists0.len() && visited.len() == lists0.len() && cur.len()
                    == lists0.len(),
                ready ==> forall|b: int|
                    #![trigger done[b]]
                    0 <= b < done.len() && visited[b] ==> twins_apart(
                        cols0,
                        inds0,
                        done[b],
                        done[b].len() as int,
                    ),
                ready ==> forall|b: int|
                    #![trigger cur[b]]
                    0 <= b < cur.len() ==> (if visited[b] {
                        cur[b].len() == 0
                    } else {
                        cur[b] == lists0[b]
                    }),
                ready ==> forall|b: int, k: int|
                    #![trigger lists0[b][k]]
                    0 <= b < lists0.len() && visited[b] && 0 <= k < lists0[b].len()
                        && self.cols@[lists0[b][k]].start >= 0 ==> done[b].contains(lists0[b][k]),
                ready ==> forall|p: int|
                    #![trigger inds0[p]]
                    start <= p < ptr && self.cols@[inds0[p] as int].start >= 0 ==> visited[cols0[inds0[p] as int].prev as int],
                ready ==> forall|p: int|
                    #![trigger inds0[p]]
                    start <= p < stop && self.cols@[inds0[p] as int].start >= 0
                        ==> self.cols@[inds0[p] as int].prev == cols0[inds0[p] as int].prev,
            decreases stop - ptr,
        {
            // Retrieve column index.
            let col = self.ind_at(ptr)?;
            if self.col_at(col)?.alive() {
                let hash = self.col_at(col)?.prev;
                let head = self.deg_at(hash)?;
                let mut q = if head > EMPTY {
                    self.col_at(head)?.prev
                } else {
                    minus(0, plus(head, 2)?)?
                };
                let mut outer: usize = n;
                let ghost mut iq: int = 0;
                let ghost cols_m = self.cols@;
                let ghost cur_m = cur;
                let ghost fresh = ready && !visited[hash as int];
                proof {
                    if ready {
                        assert(hash == cols0[inds0[ptr as int] as int].prev);
                        if fresh {
                            let l = cur[hash as int];
                            assert forall|k: int|
                                #![trigger lists0[hash as int][k]]
                                0 <= k < lists0[hash as int].len() implies l.contains(
                                lists0[hash as int][k],
                            ) by {
                                assert(l[k] == lists0[hash as int][k]);
                            }
                            assert(deg0[hash as int] < n && chain(
                                cols0,
                                ilen,
                                bucket_first(cols0, deg0, hash as int),
                                lists0[hash as int],
                            ));
                        }
                    }
                }
                proof {
                    if ready {
                        let h0 = self.degree@[hash as int];
                        assert(h0 < n && chain(
                            self.cols@,
                            ilen,
                            bucket_first(self.cols@, self.degree@, hash as int),
                            cur[hash as int],
                        ));
                        assert(cur[hash as int].len() <= n) by {
                            lemma_chain_short(self.cols@, ilen, bucket_first(self.cols@, self.degree@, hash as int), cur[hash as int]);
                        }
                    }
                }
                #[verifier::loop_isolation(true)]
                while q != EMPTY
                    invariant
                        cols0 == old(self).cols@,
                        inds0 == old(self).inds@,
                        deg0 == old(self).degree@,
                        ilen == inds0.len(),
                        ready == (exists|lists: Seq<Seq<int>>|
                            buckets_ready(cols0, deg0, inds0, start as int, length as int, lists)),
                        fresh ==> ready,
                        n == cols0.len(),
                        fresh ==> forall|k: int|
                            #![trigger lists0[hash as int][k]]
                            0 <= k < lists0[hash as int].len() ==> 0 <= lists0[hash as int][k] < n,
                        old(self).same_shape(self),
                        self.cols@.len() == n,
                        self.rows == old(self).rows,
                        self.inds == old(self).inds,
                        forall|c: int|
                            #![trigger self.cols@[c]]
                            0 <= c < n ==> detected(cols0, self.cols@[c], inds0, c),
                        thickness(self.cols@, n as int) == thickness(cols0, n as int),
                        weights_positive(cols0) ==> weights_positive(self.cols@),
                        self.degree@.len() == deg0.len(),
                        ready ==> buckets_chained(self.cols@, self.degree@, ilen, cur),
                        ready ==> weights_positive(self.cols@) && thickness(cols0, n as int) <= i64::MAX,
                        ready ==> 0 <= start && stop == start + length <= ilen,
                        ready ==> forall|p: int|
                            #![trigger inds0[p]]
                            start <= p < stop ==> 0 <= inds0[p] < n && (self.cols@[inds0[p] as int].start
                                >= 0 ==> 0 <= self.cols@[inds0[p] as int].prev < self.degree@.len()
                                && forall|h: int|
                                #![trigger self.degree@[h]]
                                0 <= h < self.degree@.len() ==> self.degree@[h] != inds0[p]),
                        ready ==> 0 <= hash < self.degree@.len() && head == self.degree@[hash as int],
                        ready ==> 0 <= iq <= cur[hash as int].len() && q == (if iq < cur[hash as int].len() {
                            cur[hash as int][iq]
                        } else {
                            EMPTY as int
                        }) && outer >= cur[hash as int].len() - iq,
                        forall|c: int|
                            #![trigger self.cols@[c]]
                            0 <= c < n && cols0[c].start < 0 ==> self.cols@[c].weight == cols0[c].weight,
                        ready ==> forall|c: int|
                            #![trigger self.cols@[c]]
                            0 <= c < n && self.cols@[c].start >= 0 ==> cols_m[c].start >= 0
                                && self.cols@[c].prev == cols_m[c].prev,
                        ready ==> cur.len() == cur_m.len(),
                        ready ==> forall|b: int|
                            #![trigger cur[b]]
                            0 <= b < cur.len() && b != hash ==> cur[b] == cur_m[b],
                        ready && !fresh ==> cur[hash as int] == cur_m[hash as int],
                        ready && !fresh ==> cur_m[hash as int].len() == 0,
                        fresh ==> twins_apart(cols0, inds0, cur[hash as int], iq),
                        fresh ==> forall|k: int|
                            #![trigger lists0[hash as int][k]]
                            0 <= k < lists0[hash as int].len() && self.cols@[lists0[hash as int][k]].start
                                >= 0 ==> cur[hash as int].contains(lists0[hash as int][k]),
                    decreases outer,
                {
                    if outer == 0 {
                        return Err(inconsistent());
                    }
                    outer = outer - 1;
                    let qc = self.col_at(q)?;
                    // The columns of a hash bucket are alive.
                    if !qc.alive() {
                        return Err(inconsistent());
                    }
                    let len = qc.length;
                    let score = qc.rank;
                    assert(same_entries(qc, cols0[q as int]));
                    let mut prev = q;
                    let mut next = qc.next;
                    let mut inner: usize = n;
                    let ghost mut ip: int = iq;
                    proof {
                        if ready {
                            assert(chain(
                                self.cols@,
                                ilen,
                                bucket_first(self.cols@, self.degree@, hash as int),
                                cur[hash as int],
                            ));
                            assert(cur[hash as int].len() <= n) by {
                                lemma_chain_short(self.cols@, ilen, bucket_first(self.cols@, self.degree@, hash as int), cur[hash as int]);
                            }
                        }
                    }
                    #[verifier::loop_isolation(true)]
                    while next != EMPTY
                        invariant
                            cols0 == old(self).cols@,
                            inds0 == old(self).inds@,
                            deg0 == old(self).degree@,
                            ilen == inds0.len(),
                            ready == (exists|lists: Seq<Seq<int>>|
                                buckets_ready(cols0, deg0, inds0, start as int, length as int, lists)),
                            fresh ==> ready,
                            n == cols0.len(),
                            fresh ==> forall|k: int|
                                #![trigger lists0[hash as int][k]]
                                0 <= k < lists0[hash as int].len() ==> 0 <= lists0[hash as int][k] < n,
                            old(self).same_shape(self),
                            self.cols@.len() == n,
                            self.rows == old(self).rows,
                            self.inds == old(self).inds,
                            forall|c: int|
                                #![trigger self.cols@[c]]
                                0 <= c < n ==> detected(cols0, self.cols@[c], inds0, c),
                            thickness(self.cols@, n as int) == thickness(cols0, n as int),
                            weights_positive(cols0) ==> weights_positive(self.cols@),
                            self.degree@.len() == deg0.len(),
                            ready ==> buckets_chained(self.cols@, self.degree@, ilen, cur),
                            ready ==> weights_positive(self.cols@) && thickness(cols0, n as int) <= i64::MAX,
                            ready ==> 0 <= start && stop == start + length <= ilen,
                            ready ==> forall|p: int|
                                #![trigger inds0[p]]
                                start <= p < stop ==> 0 <= inds0[p] < n && (self.cols@[inds0[p] as int].start
                                    >= 0 ==> 0 <= self.cols@[inds0[p] as int].prev < self.degree@.len()
                                    && forall|h: int|
                                    #![trigger self.degree@[h]]
                                    0 <= h < self.degree@.len() ==> self.degree@[h] != inds0[p]),
                            ready ==> 0 <= hash < self.degree@.len() && head == self.degree@[hash as int],
                            ready ==> 0 <= iq <= ip < cur[hash as int].len() && q == cur[hash as int][iq]
                                && prev == cur[hash as int][ip] && next == (if ip + 1 < cur[hash as int].len() {
                                cur[hash as int][ip + 1]
                            } else {
                                EMPTY as int
                            }) && inner >= cur[hash as int].len() - ip - 1 && outer + 1
                                >= cur[hash as int].len() - iq,
                            forall|c: int|
                                #![trigger self.cols@[c]]
                                0 <= c < n && cols0[c].start < 0 ==> self.cols@[c].weight == cols0[c].weight,
                            0 <= q < n,
                            cols0[q as int].start >= 0,
                            same_entries(self.cols@[q as int], cols0[q as int]),
                            len == cols0[q as int].length,
                            score == cols0[q as int].rank,
                            ready ==> forall|c: int|
                                #![trigger self.cols@[c]]
                                0 <= c < n && self.cols@[c].start >= 0 ==> cols_m[c].start >= 0
                                    && self.cols@[c].prev == cols_m[c].prev,
                            ready ==> cur.len() == cur_m.len(),
                            ready ==> forall|b: int|
                                #![trigger cur[b]]
                                0 <= b < cur.len() && b != hash ==> cur[b] == cur_m[b],
                            ready && !fresh ==> cur[hash as int] == cur_m[hash as int],
                            ready && !fresh ==> cur_m[hash as int].len() == 0,
                            fresh ==> twins_apart(cols0, inds0, cur[hash as int], iq),
                            fresh ==> forall|k: int|
                                #![trigger lists0[hash as int][k]]
                                0 <= k < lists0[hash as int].len() && self.cols@[lists0[hash as int][k]].start
                                    >= 0 ==> cur[hash as int].contains(lists0[hash as int][k]),
                            fresh ==> first_apart(cols0, inds0, cur[hash as int], iq, ip),
                        decreases inner,
                    {
                        if inner == 0 {
                            return Err(inconsistent());
                        }
                        inner = inner - 1;
                        let nc = self.col_at(next)?;
                        proof {
                            if ready {
                                let l = cur[hash as int];
                                assert(chain(
                                    self.cols@,
                                    ilen,
                                    bucket_first(self.cols@, self.degree@, hash as int),
                                    l,
                                ));
                                assert(l[ip + 1] == next);
                                assert(self.cols@[next as int].start >= 0);
                                assert(same_entries(nc, cols0[next as int]));
                            }
                        }
                        if nc.length != len || nc.rank != score {
                            proof {
                                if fresh {
                                    let l = cur[hash as int];
                                    assert(!identical(cols0, inds0, q as int, next as int));
                                    assert(first_apart(cols0, inds0, l, iq, ip + 1));
                                }
                            }
                            prev = next;
                            next = nc.next;
                            proof {
                                ip = ip + 1;
                            }
                            continue ;
                        }
                        // The columns of a hash bucket are alive and distinct.
                        if !nc.alive() || next == q {
                            return Err(inconsistent());
                        }
                        assert(same_entries(nc, cols0[next as int]));
                        proof {
                            if ready {
                                let l = cur[hash as int];
                                assert(chain(
                                    self.cols@,
                                    ilen,
                                    bucket_first(self.cols@, self.degree@, hash as int),
                                    l,
                                ));
                                assert(l[iq] == q);
                                assert(self.cols@[q as int].start + self.cols@[q as int].length <= ilen);
                                assert(nc.start + nc.length <= ilen);
                            }
                        }
                        let same = self.same_rows(self.col_at(q)?.start, nc.start, len)?;
                        if !same {
                            proof {
                                if fresh {
                                    let l = cur[hash as int];
                                    assert(!same_run(
                                        inds0,
                                        cols0[q as int].start as int,
                                        cols0[next as int].start as int,
                                        cols0[q as int].length as int,
                                    ));
                                    assert(!identical(cols0, inds0, q as int, next as int));
                                    assert(first_apart(cols0, inds0, l, iq, ip + 1));
                                }
                            }
                            prev = next;
                            next = nc.next;
                            proof {
                                ip = ip + 1;
                            }
                            continue ;
                        }
                        let ghost before_all = self.cols@;
                        let after = self.absorb(
                            q,
                            next,
                            prev,
                            Ghost(cols0),
                            Ghost(cur),
                            Ghost(hash as int),
                            Ghost(ip),
                            Ghost(ilen),
                            Ghost(ready),
                        )?;
                        proof {
                            if ready {
                                if fresh {
                                    let l = cur[hash as int];
                                    lemma_twins_remove(cols0, inds0, l, iq, ip);
                                    lemma_members_kept(l, ip + 1, lists0[hash as int], before_all, self.cols@);
                                }
                                cur = cur.update(hash as int, cur[hash as int].remove(ip + 1));
                            }
                        }
                        next = after;
                    }
                    proof {
                        if ready {
                            let l = cur[hash as int];
                            assert(chain(
                                self.cols@,
                                ilen,
                                bucket_first(self.cols@, self.degree@, hash as int),
                                l,
                            ));
                            if ip + 1 < l.len() {
                                assert(l[ip + 1] >= 0);
                            }
                            assert(l[iq] == q);
                            if fresh {
                                lemma_twins_next(cols0, inds0, l, iq);
                            }
                        }
                    }
                    q = self.col_at(q)?.next;
                    proof {
                        iq = iq + 1;
                    }
                }
                let ghost cols_b = self.cols@;
                let ghost deg_b = self.degree@;
                if head > EMPTY {
                    let mut hc = self.col_at(head)?;
                    hc.prev = EMPTY;
                    let ghost before = self.cols@;
                    self.set_col(head, hc)?;
                    proof {
                        lemma_thickness_update(before, head as int, hc, n as int);
                    }
                } else {
                    self.set_deg(hash, EMPTY)?;
                }
                proof {
                    if ready {
                        lemma_chains_empty(
                            cols_b,
                            self.cols@,
                            deg_b,
                            self.degree@,
                            ilen,
                            cur,
                            hash as int,
                        );
                        let ghost done_t = done;
                        let ghost visited_t = visited;
                        if fresh {
                            let l = cur[hash as int];
                            assert(deg_b[hash as int] < n && chain(
                                cols_b,
                                ilen,
                                bucket_first(cols_b, deg_b, hash as int),
                                l,
                            ));
                            if iq < l.len() {
                                assert(l[iq] >= 0);
                            }
                            done = done.update(hash as int, l);
                            visited = visited.update(hash as int, true);
                        }
                        cur = cur.update(hash as int, Seq::empty());
                        assert forall|b: int, k: int|
                            #![trigger lists0[b][k]]
                            0 <= b < lists0.len() && visited[b] && 0 <= k < lists0[b].len()
                                && self.cols@[lists0[b][k]].start >= 0 implies done[b].contains(
                            lists0[b][k],
                        ) by {
                            let x = lists0[b][k];
                            assert(deg0[b] < n && chain(cols0, ilen, bucket_first(cols0, deg0, b), lists0[b]));
                            assert(cols_b[x].start >= 0);
                            assert(cols_m[x].start >= 0);
                        }
                    }
                }
            }
            ptr = ptr + 1;
        }
        proof {
            if ready {
                assert forall|c: int|
                    #![trigger self.cols@[c]]
                    0 <= c < self.cols@.len() && self.cols@[c].start >= 0 implies cols0[c].start >= 0 by {
                    assert(detected(cols0, self.cols@[c], inds0, c));
                }
                lemma_twins_left(
                    cols0,
                    self.cols@,
                    deg0,
                    inds0,
                    start as int,
                    stop as int,
                    lists0,
                    done,
                    visited,
                );
            }
        }
        Ok(())
    }
}

} // verus!
