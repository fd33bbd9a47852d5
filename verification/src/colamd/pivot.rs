//! Elimination loop of COLAMD: each step selects the column of minimum score,
//! forms the pivot row, updates the approximate degrees and scores of the columns
//! it touches and merges indistinguishable columns.
use vstd::prelude::*;

use super::col::ColamdCol;
use super::row::ColamdRow;
use super::ordering::{
    bucket_first, detected, lemma_thickness_alive, lemma_thickness_same, lemma_thickness_update, merged_into,
    thickness, weights_positive,
};
use super::access::{fails_internally, inconsistent, minus, plus};
use super::error::ColamdError;
use super::integer::ColamdInt;
use super::{array_error, Colamd, EMPTY};

verus! {

/// The first non empty degree list from list `s` on, or the number of lists when
/// there is none.
pub open spec fn first_list(degree: Seq<i64>, s: int) -> int
    decreases degree.len() - s,
{
    if s < 0 || s >= degree.len() || degree[s] != EMPTY {
        s
    } else {
        first_list(degree, s + 1)
    }
}

/// Some position in `a..b` of `inds` holds `v`.
pub open spec fn listed(inds: Seq<i64>, a: int, b: int, v: int) -> bool {
    exists|p: int| a <= p < b && #[trigger] inds[p] == v
}

/// The `length` entries of `inds` from `start` on are positions of `inds` that hold
/// indices below `n`, and `start + length` fits in an `i64`.
pub open spec fn entries_valid(inds: Seq<i64>, start: int, length: int, n: nat) -> bool {
    &&& i64::MIN <= start + length <= i64::MAX
    &&& forall|p: int| start <= p < start + length ==> #[trigger] entry_valid(inds, p, n)
}

/// Position `p` of `inds` exists and holds an index below `n`.
pub open spec fn entry_valid(inds: Seq<i64>, p: int, n: nat) -> bool {
    0 <= p < inds.len() && 0 <= inds[p] < n
}

/// The weight of column `c` once the pivot column is marked: negated for the pivot.
pub open spec fn marked_weight(cols: Seq<ColamdCol>, pivot: int, c: int) -> int {
    if c == pivot {
        -(cols[c].weight as int)
    } else {
        cols[c].weight as int
    }
}

/// Column `c` belongs in the pivot row: it is a column, alive, of positive weight
/// once the pivot column is marked.
pub open spec fn eligible(cols: Seq<ColamdCol>, pivot: int, c: i64) -> bool {
    &&& 0 <= c < cols.len()
    &&& cols[c as int].start >= 0
    &&& marked_weight(cols, pivot, c as int) > 0
}

/// The entries of `s` after its first `n0`.
pub open spec fn appended(s: Seq<i64>, n0: int) -> Seq<i64> {
    s.subrange(n0, s.len() as int)
}

/// The sum of the weights, once the pivot column is marked, of the columns `a`.
pub open spec fn sum_marked(a: Seq<i64>, cols: Seq<ColamdCol>, pivot: int) -> int
    decreases a.len(),
{
    if a.len() == 0 {
        0
    } else {
        sum_marked(a.drop_last(), cols, pivot) + marked_weight(cols, pivot, a.last() as int)
    }
}

/// Column `c` is in the entries of `s` after its first `n0` when it belongs in the
/// pivot row.
pub open spec fn covered(s: Seq<i64>, n0: int, cols: Seq<ColamdCol>, pivot: int, c: i64) -> bool {
    eligible(cols, pivot, c) ==> appended(s, n0).contains(c)
}

/// Every column listed at positions `a..b` of `s` is covered.
pub open spec fn row_covered(
    s: Seq<i64>,
    n0: int,
    cols: Seq<ColamdCol>,
    pivot: int,
    a: int,
    b: int,
) -> bool {
    forall|q: int| a <= q < b ==> #[trigger] entry_covered(s, n0, cols, pivot, q)
}

/// Position `q` of `s` exists and holds a covered column.
pub open spec fn entry_covered(s: Seq<i64>, n0: int, cols: Seq<ColamdCol>, pivot: int, q: int) -> bool {
    0 <= q < s.len() && covered(s, n0, cols, pivot, s[q])
}

/// Position `p` of `s` exists and holds a row whose columns are covered if alive.
pub open spec fn row_entry_covered(
    s: Seq<i64>,
    n0: int,
    rows: Seq<ColamdRow>,
    cols: Seq<ColamdCol>,
    pivot: int,
    p: int,
) -> bool {
    &&& 0 <= p < s.len()
    &&& 0 <= s[p] < rows.len()
    &&& rows[s[p] as int].mark >= 0 ==> row_covered(
        s,
        n0,
        cols,
        pivot,
        rows[s[p] as int].start as int,
        rows[s[p] as int].start + rows[s[p] as int].length,
    )
}

/// Every row listed at positions `a..b` of `s` is a row, and the columns of those
/// alive are covered.
pub open spec fn pivot_covered(
    s: Seq<i64>,
    n0: int,
    rows: Seq<ColamdRow>,
    cols: Seq<ColamdCol>,
    pivot: int,
    a: int,
    b: int,
) -> bool {
    forall|p: int| a <= p < b ==> #[trigger] row_entry_covered(s, n0, rows, cols, pivot, p)
}

/// While the pivot row is built: `s` extends `inds0`, the columns appended are
/// distinct and belong in the pivot row, their weights are negated, those of the
/// other columns are their marked weights, and `degree` sums the appended weights.
pub open spec fn building(
    s: Seq<i64>,
    cols: Seq<ColamdCol>,
    n0: int,
    inds0: Seq<i64>,
    cols0: Seq<ColamdCol>,
    pivot: int,
    degree: int,
) -> bool {
    let a = appended(s, n0);
    &&& n0 == inds0.len()
    &&& s.len() >= n0
    &&& forall|p: int| 0 <= p < n0 ==> #[trigger] s[p] == inds0[p]
    &&& cols.len() == cols0.len()
    &&& forall|c: int|
        #![trigger cols[c]]
        0 <= c < cols0.len() ==> cols[c] == ColamdCol { weight: cols[c].weight, ..cols0[c] }
            && cols[c].weight == (if a.contains(c as i64) {
            -marked_weight(cols0, pivot, c)
        } else {
            marked_weight(cols0, pivot, c)
        })
    &&& a.no_duplicates()
    &&& forall|k: int| 0 <= k < a.len() ==> eligible(cols0, pivot, #[trigger] a[k])
    &&& degree == sum_marked(a, cols0, pivot)
}

/// Appending to `s` keeps the columns covered.
pub proof fn lemma_row_covered_push(
    s: Seq<i64>,
    x: i64,
    n0: int,
    cols: Seq<ColamdCol>,
    pivot: int,
    a: int,
    b: int,
)
    requires
        0 <= n0 <= s.len(),
        row_covered(s, n0, cols, pivot, a, b),
    ensures
        row_covered(s.push(x), n0, cols, pivot, a, b),
{
    let t = s.push(x);
    assert(appended(t, n0) =~= appended(s, n0).push(x));
    assert forall|q: int| a <= q < b implies #[trigger] entry_covered(t, n0, cols, pivot, q) by {
        assert(entry_covered(s, n0, cols, pivot, q));
        assert(t[q] == s[q]);
        if eligible(cols, pivot, s[q]) {
            let k = choose|k: int| 0 <= k < appended(s, n0).len() && appended(s, n0)[k] == s[q];
            assert(appended(t, n0)[k] == s[q]);
        }
    }
}

/// Appending to `s` keeps the rows covered.
pub proof fn lemma_pivot_covered_push(
    s: Seq<i64>,
    x: i64,
    n0: int,
    rows: Seq<ColamdRow>,
    cols: Seq<ColamdCol>,
    pivot: int,
    a: int,
    b: int,
)
    requires
        0 <= n0 <= s.len(),
        pivot_covered(s, n0, rows, cols, pivot, a, b),
    ensures
        pivot_covered(s.push(x), n0, rows, cols, pivot, a, b),
{
    let t = s.push(x);
    assert forall|p: int| a <= p < b implies #[trigger] row_entry_covered(t, n0, rows, cols, pivot, p) by {
        assert(row_entry_covered(s, n0, rows, cols, pivot, p));
        assert(t[p] == s[p]);
        let r = rows[s[p] as int];
        if r.mark >= 0 {
            lemma_row_covered_push(s, x, n0, cols, pivot, r.start as int, r.start + r.length);
        }
    }
}

/// Appending a column that belongs in the pivot row and is not there yet keeps the
/// pivot row being built, with its weight negated and added to the degree.
pub proof fn lemma_building_push(
    s: Seq<i64>,
    x: i64,
    n0: int,
    inds0: Seq<i64>,
    cols0: Seq<ColamdCol>,
    pivot: int,
)
    requires
        n0 == inds0.len(),
        s.len() >= n0,
    ensures
        appended(s.push(x), n0) == appended(s, n0).push(x),
        forall|p: int| 0 <= p < s.len() ==> #[trigger] s.push(x)[p] == s[p],
        sum_marked(appended(s, n0).push(x), cols0, pivot) == sum_marked(appended(s, n0), cols0, pivot)
            + marked_weight(cols0, pivot, x as int),
{
    assert(appended(s.push(x), n0) =~= appended(s, n0).push(x));
    assert(appended(s, n0).push(x).drop_last() =~= appended(s, n0));
}

/// The number of positions in `a..b` of `s` that hold `v`.
pub open spec fn count_in(s: Seq<i64>, a: int, b: int, v: int) -> nat
    decreases b - a,
{
    if b <= a {
        0
    } else {
        count_in(s, a, b - 1, v) + if s[b - 1] == v {
            1nat
        } else {
            0nat
        }
    }
}

/// In a run of `s` without repeated entries, a value occurs once when the run holds
/// it and not at all otherwise.
pub proof fn lemma_count_distinct(s: Seq<i64>, a: int, b: int, v: i64)
    requires
        0 <= a <= b <= s.len(),
        s.subrange(a, b).no_duplicates(),
    ensures
        count_in(s, a, b, v as int) == (if s.subrange(a, b).contains(v) {
            1nat
        } else {
            0nat
        }),
    decreases b - a,
{
    if b > a {
        let whole = s.subrange(a, b);
        let sub = s.subrange(a, b - 1);
        assert(whole =~= sub.push(s[b - 1]));
        assert(sub.no_duplicates()) by {
            assert forall|i: int, j: int|
                0 <= i < sub.len() && 0 <= j < sub.len() && i != j implies sub[i] != sub[j] by {
                assert(sub[i] == whole[i] && sub[j] == whole[j]);
            }
        }
        lemma_count_distinct(s, a, b - 1, v);
        if s[b - 1] == v {
            assert(!sub.contains(v)) by {
                if sub.contains(v) {
                    let i = choose|i: int| 0 <= i < sub.len() && sub[i] == v;
                    assert(whole[i] == whole[b - 1 - a]);
                }
            }
            assert(whole.contains(v)) by {
                assert(whole[b - 1 - a] == v);
            }
        } else {
            assert(whole.contains(v) == sub.contains(v)) by {
                if whole.contains(v) {
                    let i = choose|i: int| 0 <= i < whole.len() && whole[i] == v;
                    assert(i < sub.len());
                    assert(sub[i] == v);
                }
                if sub.contains(v) {
                    let i = choose|i: int| 0 <= i < sub.len() && sub[i] == v;
                    assert(whole[i] == v);
                }
            }
        }
    } else {
        assert(!s.subrange(a, b).contains(v));
    }
}

/// Intervals `[r1, r1 + w1)` and `[r2, r2 + w2)` do not overlap.
pub open spec fn apart(r1: int, w1: int, r2: int, w2: int) -> bool {
    r1 + w1 <= r2 || r2 + w2 <= r1
}

/// Column `c` was alive in `first` and is dead and principal in `now`.
pub open spec fn eliminated(first: Seq<ColamdCol>, now: Seq<ColamdCol>, c: int) -> bool {
    0 <= c < first.len() && c < now.len() && first[c].start >= 0 && now[c].start == -1
}

/// Each column alive in `first` and eliminated in `now` holds the ranks from its rank
/// on, as many as its weight, within `0..k`; no two of them share a rank.
pub open spec fn ranked(first: Seq<ColamdCol>, now: Seq<ColamdCol>, k: int) -> bool {
    &&& forall|c: int|
        #![trigger now[c]]
        eliminated(first, now, c) ==> 0 <= now[c].rank && now[c].rank + now[c].weight <= k
    &&& forall|c: int, d: int|
        #![trigger now[c], now[d]]
        eliminated(first, now, c) && eliminated(first, now, d) && c != d ==> apart(
            now[c].rank as int,
            now[c].weight as int,
            now[d].rank as int,
            now[d].weight as int,
        )
}

/// Rank `r` is held by a column alive in `first` and eliminated in `now`: one whose
/// rank is at most `r` and whose rank plus weight exceeds it.
pub open spec fn held(first: Seq<ColamdCol>, now: Seq<ColamdCol>, r: int) -> bool {
    exists|c: int|
        #![trigger now[c]]
        eliminated(first, now, c) && now[c].rank <= r < now[c].rank + now[c].weight
}

/// Every rank in `lo..hi` is held by a column alive in `first` and eliminated in
/// `now`.
pub open spec fn ranks_held(first: Seq<ColamdCol>, now: Seq<ColamdCol>, lo: int, hi: int) -> bool {
    forall|r: int| lo <= r < hi ==> #[trigger] held(first, now, r)
}

/// A step that keeps the dead columns as they were keeps the ranks held.
pub proof fn lemma_held_keep(
    first: Seq<ColamdCol>,
    now: Seq<ColamdCol>,
    now2: Seq<ColamdCol>,
    lo: int,
    hi: int,
)
    requires
        ranks_held(first, now, lo, hi),
        now2.len() == now.len(),
        forall|c: int|
            #![trigger now2[c]]
            0 <= c < now.len() && now[c].start < 0 ==> now2[c].start == now[c].start
                && now2[c].rank == now[c].rank && now2[c].weight == now[c].weight,
    ensures
        ranks_held(first, now2, lo, hi),
{
    assert forall|r: int| lo <= r < hi implies #[trigger] held(first, now2, r) by {
        assert(held(first, now, r));
        let c = choose|c: int|
            #![trigger now[c]]
            eliminated(first, now, c) && now[c].rank <= r < now[c].rank + now[c].weight;
        assert(eliminated(first, now2, c) && now2[c].rank <= r < now2[c].rank + now2[c].weight);
    }
}

/// Ranks `lo..mid` held, and a column eliminated that holds `mid..hi`, hold `lo..hi`.
pub proof fn lemma_held_extend(
    first: Seq<ColamdCol>,
    now: Seq<ColamdCol>,
    lo: int,
    mid: int,
    hi: int,
    c: int,
)
    requires
        ranks_held(first, now, lo, mid),
        eliminated(first, now, c),
        now[c].rank == mid,
        now[c].rank + now[c].weight == hi,
    ensures
        ranks_held(first, now, lo, hi),
{
    assert forall|r: int| lo <= r < hi implies #[trigger] held(first, now, r) by {
        if r >= mid {
            assert(eliminated(first, now, c) && now[c].rank <= r < now[c].rank + now[c].weight);
        }
    }
}

/// Ranks held over two adjacent ranges are held over both.
pub proof fn lemma_held_join(
    first: Seq<ColamdCol>,
    now: Seq<ColamdCol>,
    lo: int,
    mid: int,
    hi: int,
)
    requires
        ranks_held(first, now, lo, mid),
        ranks_held(first, now, mid, hi),
    ensures
        ranks_held(first, now, lo, hi),
{
    assert forall|r: int| lo <= r < hi implies #[trigger] held(first, now, r) by {
        if r < mid {
            assert(lo <= r < mid);
        } else {
            assert(mid <= r < hi);
        }
    }
}

/// Ranks held by columns eliminated since `mid` are held by columns eliminated since
/// `first`, when every column alive in `mid` was alive in `first`.
pub proof fn lemma_held_since(
    first: Seq<ColamdCol>,
    mid: Seq<ColamdCol>,
    now: Seq<ColamdCol>,
    lo: int,
    hi: int,
)
    requires
        ranks_held(mid, now, lo, hi),
        mid.len() == first.len(),
        forall|c: int| #![trigger mid[c]] 0 <= c < mid.len() && mid[c].start >= 0 ==> first[c].start >= 0,
    ensures
        ranks_held(first, now, lo, hi),
{
    assert forall|r: int| lo <= r < hi implies #[trigger] held(first, now, r) by {
        assert(held(mid, now, r));
        let d = choose|d: int|
            #![trigger now[d]]
            eliminated(mid, now, d) && now[d].rank <= r < now[d].rank + now[d].weight;
        assert(mid[d].start >= 0);
        assert(eliminated(first, now, d) && now[d].rank <= r < now[d].rank + now[d].weight);
    }
}

/// Every column alive in `first` and eliminated in `now` holds ranks ending at or
/// before `a`, or starting at or after `b`.
pub open spec fn outside(first: Seq<ColamdCol>, now: Seq<ColamdCol>, a: int, b: int) -> bool {
    forall|c: int|
        #![trigger now[c]]
        eliminated(first, now, c) ==> now[c].rank + now[c].weight <= a || now[c].rank >= b
}

/// A step that keeps the dead columns and eliminates new ones only with ranks within
/// `lo..hi`, apart from each other and from those of the columns already eliminated,
/// keeps the eliminated columns ranked.
pub proof fn lemma_ranked_add(
    first: Seq<ColamdCol>,
    before: Seq<ColamdCol>,
    now: Seq<ColamdCol>,
    k: int,
    lo: int,
    hi: int,
    k2: int,
    a: int,
    b: int,
)
    requires
        ranked(first, before, k),
        outside(first, before, a, b),
        k <= k2,
        hi <= k2,
        0 <= lo,
        first.len() == before.len(),
        now.len() == before.len(),
        forall|c: int|
            #![trigger now[c]]
            0 <= c < before.len() && before[c].start < 0 ==> now[c].start == before[c].start
                && now[c].rank == before[c].rank && now[c].weight == before[c].weight,
        forall|c: int|
            #![trigger now[c]]
            0 <= c < before.len() && before[c].start >= 0 ==> first[c].start >= 0,
        forall|c: int|
            #![trigger now[c]]
            0 <= c < before.len() && before[c].start >= 0 && now[c].start == -1 ==> {
                &&& lo <= now[c].rank
                &&& now[c].rank + now[c].weight <= hi
                &&& (hi <= a || lo >= b)
                &&& forall|d: int|
                    #![trigger before[d]]
                    eliminated(first, before, d) ==> before[d].rank + before[d].weight <= lo
                        || before[d].rank >= hi
            },
        forall|c: int, d: int|
            #![trigger now[c], now[d]]
            0 <= c < before.len() && 0 <= d < before.len() && c != d && before[c].start >= 0
                && now[c].start == -1 && before[d].start >= 0 && now[d].start == -1 ==> apart(
                now[c].rank as int,
                now[c].weight as int,
                now[d].rank as int,
                now[d].weight as int,
            ),
    ensures
        ranked(first, now, k2),
        outside(first, now, a, b),
{
    assert forall|c: int|
        #![trigger now[c]]
        eliminated(first, now, c) implies 0 <= now[c].rank && now[c].rank + now[c].weight <= k2
        && (now[c].rank + now[c].weight <= a || now[c].rank >= b) by {
        if before[c].start < 0 {
            assert(eliminated(first, before, c));
        }
    }
    assert forall|c: int, d: int|
        #![trigger now[c], now[d]]
        eliminated(first, now, c) && eliminated(first, now, d) && c != d implies apart(
        now[c].rank as int,
        now[c].weight as int,
        now[d].rank as int,
        now[d].weight as int,
    ) by {
        if before[c].start < 0 {
            assert(eliminated(first, before, c));
        }
        if before[d].start < 0 {
            assert(eliminated(first, before, d));
        }
    }
}

/// From `before` to `now`, every dead column keeps its position, score and weight,
/// and every alive column stays alive or becomes dead and principal.
pub open spec fn steady(before: Seq<ColamdCol>, now: Seq<ColamdCol>) -> bool {
    &&& now.len() == before.len()
    &&& forall|c: int|
        #![trigger now[c]]
        0 <= c < before.len() ==> if before[c].start < 0 {
            &&& now[c].start == before[c].start
            &&& now[c].rank == before[c].rank
            &&& now[c].weight == before[c].weight
        } else {
            now[c].start >= 0 || now[c].start == -1
        }
}

/// The columns dead and principal in `first` keep their position, score and weight
/// in `now`, and every column of `now` merged into another one has no rank and names
/// none of them.
pub open spec fn first_dead_kept(first: Seq<ColamdCol>, now: Seq<ColamdCol>) -> bool {
    &&& now.len() == first.len()
    &&& forall|p: int|
        #![trigger now[p]]
        0 <= p < first.len() && first[p].start == -1 ==> {
            &&& now[p].start == -1
            &&& now[p].rank == first[p].rank
            &&& now[p].weight == first[p].weight
        }
    &&& forall|c: int|
        #![trigger now[c]]
        0 <= c < now.len() && now[c].start < -1 ==> {
            let w = now[c].weight as int;
            &&& now[c].rank == EMPTY
            &&& !(0 <= w < first.len() && first[w].start == -1)
        }
}

/// A steady step keeps the columns dead and principal at first as they were.
pub proof fn lemma_steady_kept(first: Seq<ColamdCol>, before: Seq<ColamdCol>, now: Seq<ColamdCol>)
    requires
        first_dead_kept(first, before),
        steady(before, now),
    ensures
        first_dead_kept(first, now),
{
    assert forall|p: int|
        #![trigger now[p]]
        0 <= p < first.len() && first[p].start == -1 implies {
        &&& now[p].start == -1
        &&& now[p].rank == first[p].rank
        &&& now[p].weight == first[p].weight
    } by {
        assert(before[p].start == -1);
    }
    assert forall|c: int|
        #![trigger now[c]]
        0 <= c < now.len() && now[c].start < -1 implies {
        let w = now[c].weight as int;
        &&& now[c].rank == EMPTY
        &&& !(0 <= w < first.len() && first[w].start == -1)
    } by {
        if before[c].start >= 0 {
            assert(now[c].start >= 0 || now[c].start == -1);
        } else {
            assert(now[c].start == before[c].start);
        }
    }
}

/// Detecting super columns keeps the columns dead and principal at first as they
/// were: it merges only columns alive, into columns alive.
pub proof fn lemma_detect_kept(
    first: Seq<ColamdCol>,
    before: Seq<ColamdCol>,
    now: Seq<ColamdCol>,
    inds: Seq<i64>,
)
    requires
        first_dead_kept(first, before),
        now.len() == before.len(),
        forall|c: int| #![trigger now[c]] 0 <= c < before.len() ==> detected(before, now[c], inds, c),
        forall|c: int|
            #![trigger now[c]]
            0 <= c < before.len() && before[c].start < 0 ==> now[c].weight == before[c].weight,
    ensures
        first_dead_kept(first, now),
{
    assert forall|p: int|
        #![trigger now[p]]
        0 <= p < first.len() && first[p].start == -1 implies {
        &&& now[p].start == -1
        &&& now[p].rank == first[p].rank
        &&& now[p].weight == first[p].weight
    } by {
        assert(before[p].start == -1);
        assert(detected(before, now[p], inds, p));
    }
    assert forall|c: int|
        #![trigger now[c]]
        0 <= c < now.len() && now[c].start < -1 implies {
        let w = now[c].weight as int;
        &&& now[c].rank == EMPTY
        &&& !(0 <= w < first.len() && first[w].start == -1)
    } by {
        assert(detected(before, now[c], inds, c));
        if merged_into(before, now[c], inds, c) {
            let w = now[c].weight as int;
            if 0 <= w < first.len() && first[w].start == -1 {
                assert(before[w].start == -1);
            }
        } else {
            assert(before[c].start == now[c].start);
        }
    }
}

/// `w`, negated when `n` is odd.
pub open spec fn flipped(w: int, n: nat) -> int {
    if n % 2 == 1 {
        -w
    } else {
        w
    }
}

/// `now` and `before` agree on the position, length and rank of a column.
pub open spec fn same_place(now: ColamdCol, before: ColamdCol) -> bool {
    &&& now.start == before.start
    &&& now.length == before.length
    &&& now.rank == before.rank
}

/// `now` and `before` agree on the position, length and degree of a row.
pub open spec fn same_row_shape(now: ColamdRow, before: ColamdRow) -> bool {
    &&& now.start == before.start
    &&& now.length == before.length
    &&& now.degree == before.degree
}

/// `p` is a link of a list over `n` columns: a column or `EMPTY`.
pub open spec fn valid_link(p: i64, n: nat) -> bool {
    p == EMPTY || 0 <= p < n
}

/// The score a column of score `score` and thickness `weight` takes once a pivot row
/// of degree `degree` is added to it, after `k` columns are ordered among `ncols`:
/// its score plus the pivot row degree less its own thickness, at most the
/// thickness of the columns left besides it.
pub open spec fn new_score(score: int, degree: int, weight: int, ncols: int, k: int) -> int {
    let s = score + degree - weight;
    let limit = ncols - k - weight;
    if limit < s {
        limit
    } else {
        s
    }
}

/// The pivot row `inds[start..stop]` lists distinct columns of `cols`.
pub open spec fn distinct_columns(cols: Seq<ColamdCol>, inds: Seq<i64>, start: int, stop: int) -> bool {
    &&& 0 <= start <= stop <= inds.len()
    &&& forall|p: int| #![trigger inds[p]] start <= p < stop ==> 0 <= inds[p] < cols.len()
    &&& forall|p: int, q: int|
        #![trigger inds[p], inds[q]]
        start <= p < stop && start <= q < stop && p != q ==> inds[p] != inds[q]
}

/// The pivot row `inds[start..stop]` lists distinct columns of `cols`, and the slot
/// after the run of each of them lies outside the pivot row.
pub open spec fn pivot_row_apart(cols: Seq<ColamdCol>, inds: Seq<i64>, start: int, stop: int) -> bool {
    &&& distinct_columns(cols, inds, start, stop)
    &&& forall|p: int|
        #![trigger inds[p]]
        start <= p < stop ==> !(start <= cols[inds[p] as int].start + cols[inds[p] as int].length
            < stop)
}

/// The pivot row `inds[start..stop]` is apart as `pivot_row_apart` says, the slots
/// after the runs of its columns are distinct, and no list of `degree` starts with
/// one of its columns.
pub open spec fn finalize_ready(
    cols: Seq<ColamdCol>,
    inds: Seq<i64>,
    degree: Seq<i64>,
    start: int,
    stop: int,
) -> bool {
    &&& pivot_row_apart(cols, inds, start, stop)
    &&& forall|p: int, q: int|
        #![trigger inds[p], inds[q]]
        start <= p < stop && start <= q < stop && p != q ==> cols[inds[p] as int].start
            + cols[inds[p] as int].length != cols[inds[q] as int].start + cols[inds[q] as int].length
    &&& forall|b: int, p: int|
        #![trigger degree[b], inds[p]]
        0 <= b < degree.len() && start <= p < stop ==> degree[b] != inds[p]
}

/// The number of alive columns of `cols` among `inds[start..p]`.
pub open spec fn alive_listed(cols: Seq<ColamdCol>, inds: Seq<i64>, start: int, p: int) -> int
    decreases p - start,
{
    if p <= start {
        0
    } else {
        alive_listed(cols, inds, start, p - 1) + if cols[inds[p - 1] as int].start >= 0 {
            1int
        } else {
            0int
        }
    }
}

/// Counting alive columns further on counts at least as many.
pub proof fn lemma_alive_listed_mono(cols: Seq<ColamdCol>, inds: Seq<i64>, start: int, p: int, q: int)
    requires
        start <= p <= q,
    ensures
        alive_listed(cols, inds, start, p) <= alive_listed(cols, inds, start, q),
    decreases q - p,
{
    if p < q {
        lemma_alive_listed_mono(cols, inds, start, p, q - 1);
    }
}

/// Column record `col`, of rank `s`, is filed in the degree list `s` of `degree`:
/// it starts the list, or follows a column of the same rank.
pub open spec fn filed(cols: Seq<ColamdCol>, degree: Seq<i64>, c: int) -> bool {
    let col = cols[c];
    &&& col.prev == EMPTY ==> 0 <= col.rank < degree.len() && degree[col.rank as int] == c
    &&& col.prev != EMPTY ==> 0 <= col.prev < cols.len() && cols[col.prev as int].next == c
        && cols[col.prev as int].rank == col.rank
}

/// The degree lists of `degree` are doubly linked lists, each of the alive columns of
/// its score, holding every alive column but those of `inds[start..p]`.
pub open spec fn lists_linked(
    cols: Seq<ColamdCol>,
    degree: Seq<i64>,
    inds: Seq<i64>,
    start: int,
    p: int,
) -> bool {
    &&& forall|c: int|
        #![trigger cols[c]]
        0 <= c < cols.len() && cols[c].start >= 0 && count_in(inds, start, p, c) == 0 ==> {
            let col = cols[c];
            &&& col.next != EMPTY ==> 0 <= col.next < cols.len() && cols[col.next as int].start >= 0
                && count_in(inds, start, p, col.next as int) == 0 && cols[col.next as int].prev == c
                && cols[col.next as int].rank == col.rank
            &&& col.prev != EMPTY ==> 0 <= col.prev < cols.len() && cols[col.prev as int].start >= 0
                && count_in(inds, start, p, col.prev as int) == 0 && cols[col.prev as int].next == c
                && cols[col.prev as int].rank == col.rank
            &&& col.prev == EMPTY ==> 0 <= col.rank < degree.len() && degree[col.rank as int] == c
        }
    &&& forall|b: int|
        #![trigger degree[b]]
        0 <= b < degree.len() && degree[b] != EMPTY ==> {
            let h = degree[b] as int;
            &&& 0 <= h < cols.len()
            &&& cols[h].start >= 0
            &&& count_in(inds, start, p, h) == 0
            &&& cols[h].prev == EMPTY
            &&& cols[h].rank == b
        }
}

/// The pivot row `inds[start..stop]` lists distinct alive columns, and the degree
/// lists are doubly linked lists of the alive columns.
pub open spec fn lists_ready(
    cols: Seq<ColamdCol>,
    degree: Seq<i64>,
    inds: Seq<i64>,
    start: int,
    stop: int,
) -> bool {
    &&& distinct_columns(cols, inds, start, stop)
    &&& forall|p: int| #![trigger inds[p]] start <= p < stop ==> cols[inds[p] as int].start >= 0
    &&& lists_linked(cols, degree, inds, start, start)
}

/// The records `cols` and lists `degree` once column `j`, of links `prev` and `next`
/// and score `score`, is taken out of its degree list, its record replaced by `cj`.
pub open spec fn unlinked_cols(cols: Seq<ColamdCol>, j: int, cj: ColamdCol, prev: int, next: int) -> Seq<ColamdCol> {
    let c1 = cols.update(j, cj);
    let c2 = if prev == EMPTY {
        c1
    } else {
        c1.update(prev, ColamdCol { next: next as i64, ..c1[prev] })
    };
    if next == EMPTY {
        c2
    } else {
        c2.update(next, ColamdCol { prev: prev as i64, ..c2[next] })
    }
}

/// Taking column `inds[p]`, alive and on its degree list, out of that list keeps the
/// lists linked without it.
pub proof fn lemma_unlink(
    cols: Seq<ColamdCol>,
    degree: Seq<i64>,
    inds: Seq<i64>,
    start: int,
    p: int,
    cj: ColamdCol,
)
    requires
        start <= p < inds.len(),
        lists_linked(cols, degree, inds, start, p),
        0 <= inds[p] < cols.len(),
        cols[inds[p] as int].start >= 0,
        count_in(inds, start, p, inds[p] as int) == 0,
        cj.start == cols[inds[p] as int].start,
    ensures
        ({
            let j = inds[p] as int;
            let col = cols[j];
            lists_linked(
                unlinked_cols(cols, j, cj, col.prev as int, col.next as int),
                if col.prev == EMPTY {
                    degree.update(col.rank as int, col.next)
                } else {
                    degree
                },
                inds,
                start,
                p + 1,
            )
        }),
{
    let j = inds[p] as int;
    let col = cols[j];
    let c2 = unlinked_cols(cols, j, cj, col.prev as int, col.next as int);
    let d2 = if col.prev == EMPTY {
        degree.update(col.rank as int, col.next)
    } else {
        degree
    };
    assert forall|c: int| 0 <= c < cols.len() implies #[trigger] count_in(inds, start, p + 1, c) == count_in(
        inds,
        start,
        p,
        c,
    ) + if c == j {
        1nat
    } else {
        0nat
    } by {}
    assert forall|c: int|
        #![trigger c2[c]]
        0 <= c < c2.len() && c2[c].start >= 0 && count_in(inds, start, p + 1, c) == 0 implies {
        let cc = c2[c];
        &&& cc.next != EMPTY ==> 0 <= cc.next < c2.len() && c2[cc.next as int].start >= 0
            && count_in(inds, start, p + 1, cc.next as int) == 0 && c2[cc.next as int].prev == c
            && c2[cc.next as int].rank == cc.rank
        &&& cc.prev != EMPTY ==> 0 <= cc.prev < c2.len() && c2[cc.prev as int].start >= 0
            && count_in(inds, start, p + 1, cc.prev as int) == 0 && c2[cc.prev as int].next == c
            && c2[cc.prev as int].rank == cc.rank
        &&& cc.prev == EMPTY ==> 0 <= cc.rank < d2.len() && d2[cc.rank as int] == c
    } by {
        assert(cols[c].start >= 0);
        let o = cols[c];
        if o.next != EMPTY {
            assert(cols[o.next as int].prev == c);
        }
        if o.prev != EMPTY {
            assert(cols[o.prev as int].next == c);
        }
        if col.next != EMPTY {
            assert(cols[col.next as int].prev == j);
        }
        if col.prev != EMPTY {
            assert(cols[col.prev as int].next == j);
        }
    }
    assert forall|b: int|
        #![trigger d2[b]]
        0 <= b < d2.len() && d2[b] != EMPTY implies {
        let h = d2[b] as int;
        &&& 0 <= h < c2.len()
        &&& c2[h].start >= 0
        &&& count_in(inds, start, p + 1, h) == 0
        &&& c2[h].prev == EMPTY
        &&& c2[h].rank == b
    } by {
        if col.next != EMPTY {
            assert(cols[col.next as int].prev == j);
        }
        if degree[b] != EMPTY {
            assert(cols[degree[b] as int].prev == EMPTY);
        }
    }
}

/// The thickness `w` counted once for each entry of `inds[a..a + n]` naming row `i`.
pub open spec fn run_weight(inds: Seq<i64>, a: int, n: int, i: int, w: int) -> int
    decreases n,
{
    if n <= 0 {
        0
    } else {
        run_weight(inds, a, n - 1, i, w) + if inds[a + n - 1] == i {
            w
        } else {
            0
        }
    }
}

/// The total thickness of the columns of the pivot row `inds[start..p]` that hold
/// row `i`, each column counted once for each entry of its run naming `i`; the
/// columns of the pivot row carry their thickness negated in `cols`.
pub open spec fn met_weight(cols: Seq<ColamdCol>, inds: Seq<i64>, start: int, p: int, i: int) -> int
    decreases p - start,
{
    if p <= start {
        0
    } else {
        let c = inds[p - 1] as int;
        met_weight(cols, inds, start, p - 1, i) + run_weight(
            inds,
            cols[c].start as int,
            cols[c].length as int,
            i,
            -cols[c].weight,
        )
    }
}

/// A value that no entry of `s[a..b]` holds is counted there zero times.
pub proof fn lemma_count_absent(s: Seq<i64>, a: int, b: int, v: int)
    requires
        forall|x: int| a <= x < b ==> #[trigger] s[x] != v,
    ensures
        count_in(s, a, b, v) == 0,
    decreases b - a,
{
    if b > a {
        lemma_count_absent(s, a, b - 1, v);
    }
}

/// A run counts no more of a row than a longer run from the same start.
pub proof fn lemma_run_weight_mono(inds: Seq<i64>, a: int, m: int, n: int, i: int, w: int)
    requires
        0 <= w,
        m <= n,
    ensures
        0 <= run_weight(inds, a, m, i, w) <= run_weight(inds, a, n, i, w),
    decreases n - m,
{
    if m < n {
        lemma_run_weight_mono(inds, a, m, n - 1, i, w);
    } else {
        lemma_run_weight_nonneg(inds, a, n, i, w);
    }
}

/// A run counts a row a nonnegative number of times.
pub proof fn lemma_run_weight_nonneg(inds: Seq<i64>, a: int, n: int, i: int, w: int)
    requires
        0 <= w,
    ensures
        0 <= run_weight(inds, a, n, i, w),
    decreases n,
{
    if n > 0 {
        lemma_run_weight_nonneg(inds, a, n - 1, i, w);
    }
}

/// With the pivot row columns marked by a negative thickness, a prefix of the pivot
/// row meets a row with no more thickness than a longer prefix.
pub proof fn lemma_met_weight_mono(cols: Seq<ColamdCol>, inds: Seq<i64>, start: int, p: int, q: int, i: int)
    requires
        start <= p <= q,
        forall|x: int| #![trigger inds[x]] start <= x < q ==> cols[inds[x] as int].weight <= -1,
    ensures
        0 <= met_weight(cols, inds, start, p, i) <= met_weight(cols, inds, start, q, i),
    decreases q - start,
{
    if q > start {
        let c = inds[q - 1] as int;
        lemma_run_weight_nonneg(inds, cols[c].start as int, cols[c].length as int, i, -cols[c].weight);
        if p < q {
            lemma_met_weight_mono(cols, inds, start, p, q - 1, i);
        } else {
            lemma_met_weight_mono(cols, inds, start, q - 1, q - 1, i);
        }
    }
}

/// The pivot row `inds[start..stop]` lists distinct columns marked by a negative
/// thickness, every alive row is unmarked with respect to `tag`, and no alive row
/// meets the pivot row with more thickness than its degree.
pub open spec fn degrees_ready(
    cols: Seq<ColamdCol>,
    rows: Seq<ColamdRow>,
    inds: Seq<i64>,
    start: int,
    stop: int,
    tag: int,
) -> bool {
    &&& distinct_columns(cols, inds, start, stop)
    &&& forall|p: int|
        #![trigger inds[p]]
        start <= p < stop ==> cols[inds[p] as int].weight <= -1 && cols[inds[p] as int].length >= 0
    &&& forall|i: int|
        #![trigger rows[i]]
        0 <= i < rows.len() && rows[i].mark >= 0 ==> rows[i].mark < tag && met_weight(
            cols,
            inds,
            start,
            stop,
            i,
        ) <= rows[i].degree
}

/// Row `now`, alive as `before` was, met the pivot row with thickness `w`: unchanged
/// when `w` is zero, dead when `w` is its degree, and else marked `tag` plus its
/// degree less `w`.
pub open spec fn row_reduced(now: ColamdRow, before: ColamdRow, w: int, tag: int) -> bool {
    &&& w == 0 ==> now == before
    &&& 0 < w < before.degree ==> now.mark == tag + before.degree - w
    &&& 0 < w && w == before.degree ==> now.mark < 0
}

/// `s` plus `e`, or `ncols` when that exceeds `ncols`.
pub open spec fn sat_add(s: int, e: int, ncols: int) -> int {
    if ncols - e < s {
        ncols
    } else {
        s + e
    }
}

/// The score of a column whose rows are listed in `inds[a..a + n]`: the sum, saturated
/// at `ncols`, over its alive rows of their external degree, the mark above `tag`.
pub open spec fn col_score(rows: Seq<ColamdRow>, inds: Seq<i64>, a: int, n: int, tag: int, ncols: int) -> int
    decreases n,
{
    if n <= 0 {
        0
    } else {
        let s = col_score(rows, inds, a, n - 1, tag, ncols);
        let i = inds[a + n - 1] as int;
        if rows[i].mark >= 0 {
            sat_add(s, rows[i].mark - tag, ncols)
        } else {
            s
        }
    }
}

/// The wrapping sum of the alive rows listed in `inds[a..a + n]`.
pub open spec fn col_hash(rows: Seq<ColamdRow>, inds: Seq<i64>, a: int, n: int) -> usize
    decreases n,
{
    if n <= 0 {
        0usize
    } else {
        let h = col_hash(rows, inds, a, n - 1);
        let i = inds[a + n - 1];
        if rows[i as int].mark >= 0 {
            vstd::wrapping::usize_specs::wrapping_add(h, i as usize)
        } else {
            h
        }
    }
}

/// The number of alive rows listed in `inds[a..a + n]`.
pub open spec fn alive_count(rows: Seq<ColamdRow>, inds: Seq<i64>, a: int, n: int) -> int
    decreases n,
{
    if n <= 0 {
        0
    } else {
        alive_count(rows, inds, a, n - 1) + if rows[inds[a + n - 1] as int].mark >= 0 {
            1int
        } else {
            0int
        }
    }
}

/// The alive rows listed in `inds[a..a + n]`, in their order.
pub open spec fn alive_rows(rows: Seq<ColamdRow>, inds: Seq<i64>, a: int, n: int) -> Seq<i64>
    decreases n,
{
    if n <= 0 {
        Seq::empty()
    } else {
        let s = alive_rows(rows, inds, a, n - 1);
        let i = inds[a + n - 1];
        if rows[i as int].mark >= 0 {
            s.push(i)
        } else {
            s
        }
    }
}

/// As many rows are alive as listed by `alive_rows`, and no more than listed in all.
pub proof fn lemma_alive_rows_len(rows: Seq<ColamdRow>, inds: Seq<i64>, a: int, n: int)
    ensures
        alive_rows(rows, inds, a, n).len() == alive_count(rows, inds, a, n),
        n >= 0 ==> alive_count(rows, inds, a, n) <= n,
        0 <= alive_count(rows, inds, a, n),
    decreases n,
{
    if n > 0 {
        lemma_alive_rows_len(rows, inds, a, n - 1);
    }
}

/// The hash bucket among `ncols + 1` of a column whose rows are listed in
/// `inds[a..a + n]`: a function of its alive rows only.
pub open spec fn col_bucket(rows: Seq<ColamdRow>, inds: Seq<i64>, a: int, n: int, ncols: int) -> int {
    col_hash(rows, inds, a, n) as int % (ncols + 1)
}

/// Two columns whose runs list the same rows in the same order have the same number
/// of alive rows, the same score and the same hash bucket: the bucket a column is
/// filed in depends on its rows only.
pub proof fn lemma_same_rows_same_bucket(
    rows: Seq<ColamdRow>,
    inds: Seq<i64>,
    a: int,
    b: int,
    n: int,
    tag: int,
    ncols: int,
)
    requires
        forall|u: int| 0 <= u < n ==> #[trigger] inds[a + u] == inds[b + u],
    ensures
        alive_count(rows, inds, a, n) == alive_count(rows, inds, b, n),
        col_score(rows, inds, a, n, tag, ncols) == col_score(rows, inds, b, n, tag, ncols),
        col_hash(rows, inds, a, n) == col_hash(rows, inds, b, n),
        col_bucket(rows, inds, a, n, ncols) == col_bucket(rows, inds, b, n, ncols),
    decreases n,
{
    if n > 0 {
        assert(inds[a + (n - 1)] == inds[b + (n - 1)]);
        lemma_same_rows_same_bucket(rows, inds, a, b, n - 1, tag, ncols);
    }
}

/// Column `c` heads a list of `degree`.
pub open spec fn heads(degree: Seq<i64>, c: int) -> bool {
    exists|b: int| 0 <= b < degree.len() && degree[b] == c
}

/// The runs of the distinct columns listed in the pivot row `inds[start..stop]` lie
/// apart from each other and from the pivot row.
pub open spec fn runs_apart(cols: Seq<ColamdCol>, inds: Seq<i64>, start: int, stop: int) -> bool {
    &&& distinct_columns(cols, inds, start, stop)
    &&& forall|p: int|
        #![trigger inds[p]]
        start <= p < stop ==> {
            let c = cols[inds[p] as int];
            &&& 0 <= c.start
            &&& 0 <= c.length
            &&& c.start + c.length <= inds.len()
            &&& c.start + c.length <= start || stop <= c.start
        }
    &&& forall|p: int, q: int|
        #![trigger inds[p], inds[q]]
        start <= p < stop && start <= q < stop && p != q ==> {
            let c = cols[inds[p] as int];
            let d = cols[inds[q] as int];
            c.start + c.length <= d.start || d.start + d.length <= c.start
        }
}

/// The record `now` of a column of the pivot row whose rows `inds[a..a + n]` were
/// scored: dead when none of them is alive, and else holding as many rows as are
/// alive, scored by them and filed in their hash bucket, unless it heads a list of
/// `degree`.
pub open spec fn col_scored_by(
    now: ColamdCol,
    c: int,
    rows: Seq<ColamdRow>,
    inds: Seq<i64>,
    a: int,
    n: int,
    tag: int,
    ncols: int,
    degree: Seq<i64>,
) -> bool {
    &&& (now.start < 0) == (alive_count(rows, inds, a, n) == 0)
    &&& now.start >= 0 ==> {
        &&& now.length == alive_count(rows, inds, a, n)
        &&& now.rank == col_score(rows, inds, a, n, tag, ncols)
        &&& now.prev == col_bucket(rows, inds, a, n, ncols) || heads(degree, c)
    }
}

/// Column `c` lies on the chain of its hash bucket, the one its `prev` names: it is
/// the first column of that bucket, or follows an alive column of the pivot row
/// `inds[start..p]` filed in the same bucket.
pub open spec fn in_bucket(
    cols: Seq<ColamdCol>,
    degree: Seq<i64>,
    inds: Seq<i64>,
    start: int,
    p: int,
    c: int,
) -> bool {
    let b = cols[c].prev as int;
    &&& 0 <= b < degree.len()
    &&& (bucket_first(cols, degree, b) == c || exists|d: int|
        #![trigger cols[d]]
        0 <= d < cols.len() && count_in(inds, start, p, d) > 0 && cols[d].start >= 0 && cols[d].next
            == c && cols[d].prev == b)
}

/// Every hash bucket is empty or starts with an alive column of the pivot row
/// `inds[start..p]` filed in it.
pub open spec fn buckets_started(
    cols: Seq<ColamdCol>,
    degree: Seq<i64>,
    inds: Seq<i64>,
    start: int,
    p: int,
) -> bool {
    forall|b: int|
        #![trigger degree[b]]
        0 <= b < degree.len() ==> {
            let f = bucket_first(cols, degree, b);
            f == EMPTY || (0 <= f < cols.len() && count_in(inds, start, p, f) > 0 && cols[f].start
                >= 0 && cols[f].prev == b)
        }
}

/// Every list head of `degree` is a head of `degree0`, a column of `cols0` of that
/// rank outside the pivot row `inds[start..stop]`; every other entry is `EMPTY` or
/// below it.
pub open spec fn heads_kept(
    degree: Seq<i64>,
    degree0: Seq<i64>,
    cols0: Seq<ColamdCol>,
    inds: Seq<i64>,
    start: int,
    stop: int,
) -> bool {
    &&& degree.len() == degree0.len()
    &&& forall|b: int|
        #![trigger degree[b]]
        0 <= b < degree.len() && degree[b] >= 0 ==> degree[b] == degree0[b] && 0 <= degree0[b]
            < cols0.len() && cols0[degree0[b] as int].rank == b && count_in(
            inds,
            start,
            stop,
            degree0[b] as int,
        ) == 0
}

/// A value found among `s[a..b]` is counted there.
pub proof fn lemma_count_present(s: Seq<i64>, a: int, b: int, x: int)
    requires
        a <= x < b,
    ensures
        count_in(s, a, b, s[x] as int) > 0,
    decreases b - a,
{
    if x < b - 1 {
        lemma_count_present(s, a, b - 1, x);
    }
}

/// Counting over a longer range counts at least as many.
pub proof fn lemma_count_mono(s: Seq<i64>, a: int, b: int, c: int, v: int)
    requires
        a <= b <= c,
    ensures
        count_in(s, a, b, v) <= count_in(s, a, c, v),
    decreases c - b,
{
    if b < c {
        lemma_count_mono(s, a, b, c - 1, v);
    }
}

/// Filing the alive column `j = inds[p]`, not yet counted, first in hash bucket `b`,
/// ahead of the bucket's former first column, keeps the buckets started and every
/// filed column on its bucket's chain.
pub proof fn lemma_file_bucket(
    cols: Seq<ColamdCol>,
    degree: Seq<i64>,
    cols2: Seq<ColamdCol>,
    degree2: Seq<i64>,
    degree0: Seq<i64>,
    cols0: Seq<ColamdCol>,
    inds: Seq<i64>,
    start: int,
    p: int,
    stop: int,
    b: int,
)
    requires
        start <= p < stop <= inds.len(),
        0 <= b < degree.len(),
        cols.len() == cols0.len(),
        cols2.len() == cols.len(),
        degree2.len() == degree.len(),
        0 <= inds[p] < cols.len(),
        degree[b] <= EMPTY ==> -(inds[p] + 2) >= i64::MIN,
        count_in(inds, start, p, inds[p] as int) == 0,
        count_in(inds, start, stop, inds[p] as int) > 0,
        heads_kept(degree, degree0, cols0, inds, start, stop),
        heads_kept(degree2, degree0, cols0, inds, start, stop),
        buckets_started(cols, degree, inds, start, p),
        forall|c: int|
            #![trigger cols[c]]
            0 <= c < cols.len() && count_in(inds, start, p, c) > 0 && cols[c].start >= 0 ==> in_bucket(
                cols,
                degree,
                inds,
                start,
                p,
                c,
            ),
        cols2[inds[p] as int].start >= 0,
        cols2[inds[p] as int].prev == b,
        cols2[inds[p] as int].next == bucket_first(cols, degree, b),
        degree[b] > EMPTY ==> degree2 == degree && cols2[degree[b] as int].prev == inds[p],
        degree[b] <= EMPTY ==> degree2 == degree.update(b, (-(inds[p] + 2)) as i64),
        forall|c: int|
            #![trigger cols2[c]]
            0 <= c < cols.len() && c != inds[p] && (degree[b] <= EMPTY || c != degree[b]) ==> cols2[c]
                == cols[c],
        degree[b] > EMPTY ==> cols2[degree[b] as int].start == cols[degree[b] as int].start
            && cols2[degree[b] as int].next == cols[degree[b] as int].next,
    ensures
        buckets_started(cols2, degree2, inds, start, p + 1),
        forall|c: int|
            #![trigger cols2[c]]
            0 <= c < cols2.len() && count_in(inds, start, p + 1, c) > 0 && cols2[c].start >= 0
                ==> in_bucket(cols2, degree2, inds, start, p + 1, c),
{
    let j = inds[p] as int;
    let f = bucket_first(cols, degree, b);
    assert forall|c: int| 0 <= c < cols.len() implies #[trigger] count_in(inds, start, p + 1, c) == count_in(
        inds,
        start,
        p,
        c,
    ) + if c == j {
        1nat
    } else {
        0nat
    } by {}
    assert(bucket_first(cols2, degree2, b) == j);
    assert forall|b2: int| 0 <= b2 < degree.len() && b2 != b implies #[trigger] bucket_first(
        cols2,
        degree2,
        b2,
    ) == bucket_first(cols, degree, b2) by {
        if degree2[b2] > EMPTY {
            assert(degree2[b2] == degree[b2]);
            assert(degree[b2] != j) by {
                lemma_count_mono(inds, start, p, stop, j);
            }
            if degree[b] > EMPTY {
                assert(cols0[degree0[b2] as int].rank == b2);
                assert(cols0[degree0[b] as int].rank == b);
            }
        }
    }
    assert forall|b2: int|
        #![trigger degree2[b2]]
        0 <= b2 < degree2.len() implies {
            let f2 = bucket_first(cols2, degree2, b2);
            f2 == EMPTY || (0 <= f2 < cols2.len() && count_in(inds, start, p + 1, f2) > 0 && cols2[f2].start
                >= 0 && cols2[f2].prev == b2)
        } by {
        if b2 != b {
            let f2 = bucket_first(cols, degree, b2);
            assert(degree[b2] == degree[b2]);
            if f2 != EMPTY {
                assert(f2 != j);
                if degree[b] > EMPTY {
                    assert(f2 != degree[b]) by {
                        lemma_count_mono(inds, start, p, stop, f2);
                    }
                }
            }
        }
    }
    assert forall|c: int|
        #![trigger cols2[c]]
        0 <= c < cols2.len() && count_in(inds, start, p + 1, c) > 0 && cols2[c].start >= 0
            implies in_bucket(cols2, degree2, inds, start, p + 1, c) by {
        if c != j {
            if degree[b] > EMPTY {
                assert(c != degree[b]) by {
                    lemma_count_mono(inds, start, p, stop, c);
                }
            }
            assert(cols2[c] == cols[c]);
            assert(in_bucket(cols, degree, inds, start, p, c));
            let bc = cols[c].prev as int;
            assert(degree[bc] == degree[bc]);
            if bucket_first(cols, degree, bc) == c {
                if bc == b {
                    assert(cols2[j].next == c);
                    assert(cols2[j].start >= 0 && cols2[j].prev == bc);
                }
            } else {
                let d = choose|d: int|
                    #![trigger cols[d]]
                    0 <= d < cols.len() && count_in(inds, start, p, d) > 0 && cols[d].start >= 0
                        && cols[d].next == c && cols[d].prev == bc;
                assert(d != j);
                if degree[b] > EMPTY {
                    assert(d != degree[b]) by {
                        lemma_count_mono(inds, start, p, stop, d);
                    }
                }
                assert(cols2[d] == cols[d]);
            }
        }
    }
}

/// Killing the column `j = inds[p]`, not yet counted and heading no list, keeps the
/// buckets started and every filed column on its bucket's chain.
pub proof fn lemma_skip_bucket(
    cols: Seq<ColamdCol>,
    degree: Seq<i64>,
    cols2: Seq<ColamdCol>,
    degree0: Seq<i64>,
    cols0: Seq<ColamdCol>,
    inds: Seq<i64>,
    start: int,
    p: int,
    stop: int,
)
    requires
        start <= p < stop <= inds.len(),
        cols.len() == cols0.len(),
        0 <= inds[p] < cols.len(),
        count_in(inds, start, p, inds[p] as int) == 0,
        count_in(inds, start, stop, inds[p] as int) > 0,
        heads_kept(degree, degree0, cols0, inds, start, stop),
        buckets_started(cols, degree, inds, start, p),
        forall|c: int|
            #![trigger cols[c]]
            0 <= c < cols.len() && count_in(inds, start, p, c) > 0 && cols[c].start >= 0 ==> in_bucket(
                cols,
                degree,
                inds,
                start,
                p,
                c,
            ),
        cols2 == cols.update(inds[p] as int, ColamdCol { start: -1i64, ..cols2[inds[p] as int] }),
    ensures
        buckets_started(cols2, degree, inds, start, p + 1),
        forall|c: int|
            #![trigger cols2[c]]
            0 <= c < cols2.len() && count_in(inds, start, p + 1, c) > 0 && cols2[c].start >= 0
                ==> in_bucket(cols2, degree, inds, start, p + 1, c),
{
    let j = inds[p] as int;
    assert forall|c: int| 0 <= c < cols.len() implies #[trigger] count_in(inds, start, p + 1, c) == count_in(
        inds,
        start,
        p,
        c,
    ) + if c == j {
        1nat
    } else {
        0nat
    } by {}
    assert forall|b2: int| 0 <= b2 < degree.len() implies #[trigger] bucket_first(cols2, degree, b2)
        == bucket_first(cols, degree, b2) by {
        if degree[b2] > EMPTY {
            assert(degree[b2] != j) by {
                lemma_count_mono(inds, start, p, stop, j);
            }
        }
    }
    assert forall|b2: int|
        #![trigger degree[b2]]
        0 <= b2 < degree.len() implies {
            let f2 = bucket_first(cols2, degree, b2);
            f2 == EMPTY || (0 <= f2 < cols2.len() && count_in(inds, start, p + 1, f2) > 0 && cols2[f2].start
                >= 0 && cols2[f2].prev == b2)
        } by {
        let f2 = bucket_first(cols, degree, b2);
        assert(degree[b2] == degree[b2]);
        if f2 != EMPTY {
            assert(f2 != j);
        }
    }
    assert forall|c: int|
        #![trigger cols2[c]]
        0 <= c < cols2.len() && count_in(inds, start, p + 1, c) > 0 && cols2[c].start >= 0
            implies in_bucket(cols2, degree, inds, start, p + 1, c) by {
        assert(c != j);
        assert(cols2[c] == cols[c]);
        assert(in_bucket(cols, degree, inds, start, p, c));
        let bc = cols[c].prev as int;
        assert(degree[bc] == degree[bc]);
        if bucket_first(cols, degree, bc) != c {
            let d = choose|d: int|
                #![trigger cols[d]]
                0 <= d < cols.len() && count_in(inds, start, p, d) > 0 && cols[d].start >= 0
                    && cols[d].next == c && cols[d].prev == bc;
            assert(d != j);
            assert(cols2[d] == cols[d]);
        }
    }
}

/// A column that heads a list keeps heading one when no head is overwritten.
pub proof fn lemma_heads_kept(d1: Seq<i64>, d2: Seq<i64>, c: int)
    requires
        0 <= c,
        heads(d1, c),
        d2.len() == d1.len(),
        forall|b: int| 0 <= b < d1.len() && d1[b] >= 0 ==> #[trigger] d2[b] == d1[b],
    ensures
        heads(d2, c),
{
    let b = choose|b: int| 0 <= b < d1.len() && d1[b] == c;
    assert(d2[b] == c);
}

impl<I: ColamdInt> Colamd<I> {
    /// Take the first column of the first non empty degree list from `min_score` on
    /// out of its list; return it with the score of that list.
    fn select_pivot(&mut self, min_score: i64) -> (r: Result<(i64, i64), ColamdError<I>>)
        requires
            old(self).wf(),
        ensures
            old(self).same_shape(final(self)),
            fails_internally(r),
            r is Ok <==> {
                let s = first_list(old(self).degree@, min_score as int);
                &&& 0 <= min_score
                &&& s < old(self).degree@.len()
                &&& 0 <= old(self).degree@[s] < old(self).cols@.len()
                &&& valid_link(old(self).cols@[old(self).degree@[s] as int].next, old(self).cols@.len())
            },
            r matches Ok((head, score)) ==> {
                let next = old(self).cols@[head as int].next;
                &&& score == first_list(old(self).degree@, min_score as int)
                &&& head == old(self).degree@[score as int]
                &&& final(self).degree@ == old(self).degree@.update(score as int, next)
                &&& final(self).rows == old(self).rows
                &&& final(self).inds == old(self).inds
                &&& final(self).cols@ == (if next == EMPTY {
                    old(self).cols@
                } else {
                    old(self).cols@.update(next as int, ColamdCol { prev: EMPTY, ..old(self).cols@[next as int] })
                })
            },
    {
        let mut score = min_score;
        let mut head = self.deg_at(score)?;
        while head == EMPTY
            invariant
                old(self).same_shape(self),
                self.degree == old(self).degree,
                self.cols == old(self).cols,
                self.rows == old(self).rows,
                self.inds == old(self).inds,
                0 <= min_score <= score < self.degree@.len(),
                head == self.degree@[score as int],
                first_list(old(self).degree@, score as int) == first_list(
                    old(self).degree@,
                    min_score as int,
                ),
            decreases self.degree@.len() - score,
        {
            assert(first_list(old(self).degree@, score as int) == first_list(
                old(self).degree@,
                score + 1,
            ));
            score = score + 1;
            head = self.deg_at(score)?;
        }
        // Remove the pivot column from its degree list.
        let next = self.col_at(head)?.next;
        self.set_deg(score, next)?;
        if next != EMPTY {
            let mut nc = self.col_at(next)?;
            nc.prev = EMPTY;
            self.set_col(next, nc)?;
        }
        Ok((head, score))
    }

    /// Append to the indices the pivot row, the union of the rows alive of column
    /// `pivot`: every column alive met for the first time. Return the sum of the
    /// thicknesses of these columns.
    fn build_pivot_row(&mut self, pivot: i64) -> (r: Result<i64, ColamdError<I>>)
        requires
            old(self).wf(),
        ensures
            old(self).same_shape(final(self)),
            fails_internally(r),
            r matches Ok(d) ==> {
                let n0 = old(self).inds@.len() as int;
                let s = final(self).inds@;
                let a = appended(s, n0);
                let c0 = old(self).cols@[pivot as int];
                &&& 0 <= pivot < old(self).cols@.len()
                &&& s.len() >= n0
                &&& s.subrange(0, n0) == old(self).inds@
                &&& final(self).rows == old(self).rows
                &&& final(self).degree == old(self).degree
                &&& final(self).cols@.len() == old(self).cols@.len()
                &&& forall|c: int|
                    #![trigger final(self).cols@[c]]
                    0 <= c < old(self).cols@.len() ==> final(self).cols@[c] == ColamdCol {
                        weight: final(self).cols@[c].weight,
                        ..old(self).cols@[c]
                    } && final(self).cols@[c].weight == (if c != pivot && a.contains(c as i64) {
                        -old(self).cols@[c].weight
                    } else {
                        old(self).cols@[c].weight as int
                    })
                &&& a.no_duplicates()
                &&& forall|k: int| 0 <= k < a.len() ==> eligible(old(self).cols@, pivot as int, #[trigger] a[k])
                &&& d == sum_marked(a, old(self).cols@, pivot as int)
                &&& pivot_covered(
                    s,
                    n0,
                    old(self).rows@,
                    old(self).cols@,
                    pivot as int,
                    c0.start as int,
                    c0.start + c0.length,
                )
            },
    {
        let ghost cols0 = self.cols@;
        let ghost rows0 = self.rows@;
        let ghost inds0 = self.inds@;
        let ghost n0 = inds0.len() as int;
        let pc = self.col_at(pivot)?;
        let thickness = pc.weight;
        let mut marked = pc;
        marked.weight = minus(0, thickness)?;
        self.set_col(pivot, marked)?;
        let mut degree: i64 = 0;
        let stop = plus(pc.start, pc.length)?;
        let mut ptr = pc.start;
        proof {
            assert(appended(self.inds@, n0) =~= Seq::<i64>::empty());
        }
        while ptr < stop
            invariant
                old(self).same_shape(self),
                cols0 == old(self).cols@,
                rows0 == old(self).rows@,
                inds0 == old(self).inds@,
                n0 == inds0.len(),
                0 <= pivot < cols0.len(),
                pc == cols0[pivot as int],
                thickness == pc.weight,
                stop == pc.start + pc.length,
                pc.start <= ptr,
                ptr <= stop || ptr == pc.start,
                self.rows == old(self).rows,
                self.degree == old(self).degree,
                building(self.inds@, self.cols@, n0, inds0, cols0, pivot as int, degree as int),
                pivot_covered(self.inds@, n0, rows0, cols0, pivot as int, pc.start as int, ptr as int),
            decreases stop - ptr,
        {
            let i = self.ind_at(ptr)?;
            let row = self.row_at(i)?;
            assert(row == rows0[i as int]);
            if row.alive() {
                let rstop = plus(row.start, row.length)?;
                let mut q = row.start;
                while q < rstop
                    invariant
                        old(self).same_shape(self),
                        cols0 == old(self).cols@,
                        rows0 == old(self).rows@,
                        inds0 == old(self).inds@,
                        n0 == inds0.len(),
                        0 <= pivot < cols0.len(),
                        self.rows == old(self).rows,
                        self.degree == old(self).degree,
                        building(self.inds@, self.cols@, n0, inds0, cols0, pivot as int, degree as int),
                        pivot_covered(self.inds@, n0, rows0, cols0, pivot as int, pc.start as int, ptr as int),
                        0 <= ptr < self.inds@.len(),
                        self.inds@[ptr as int] == i,
                        0 <= i < rows0.len(),
                        row == rows0[i as int],
                        row.mark >= 0,
                        rstop == row.start + row.length,
                        row.start <= q,
                        q <= rstop || q == row.start,
                        row_covered(self.inds@, n0, cols0, pivot as int, row.start as int, q as int),
                    decreases rstop - q,
                {
                    let j = self.ind_at(q)?;
                    let mut col = self.col_at(j)?;
                    let w = col.weight;
                    let ghost before = self.inds@;
                    let ghost cb = self.cols@;
                    // Ignore dead columns and columns already visited (negative thickness).
                    if col.alive() && w > 0 {
                        col.weight = -w;
                        self.set_col(j, col)?;
                        match self.inds.push(j) {
                            Ok(()) => {},
                            Err(e) => return Err(array_error(e)),
                        }
                        degree = plus(degree, w)?;
                        proof {
                            let a0 = appended(before, n0);
                            assert(!a0.contains(j)) by {
                                if a0.contains(j) {
                                    let k = choose|k: int| 0 <= k < a0.len() && a0[k] == j;
                                    assert(eligible(cols0, pivot as int, a0[k]));
                                    assert(cb[j as int].weight == -marked_weight(cols0, pivot as int, j as int));
                                }
                            }
                            assert(cb[j as int].weight == marked_weight(cols0, pivot as int, j as int));
                            lemma_building_push(before, j, n0, inds0, cols0, pivot as int);
                            let a1 = appended(self.inds@, n0);
                            assert(a1 == a0.push(j));
                            assert forall|c: int|
                                #![trigger self.cols@[c]]
                                0 <= c < cols0.len() && c != j implies (a1.contains(c as i64)
                                    == a0.contains(c as i64)) by {
                                if a1.contains(c as i64) {
                                    let k = choose|k: int| 0 <= k < a1.len() && a1[k] == c as i64;
                                    assert(k < a0.len());
                                    assert(a0[k] == c as i64);
                                }
                                if a0.contains(c as i64) {
                                    let k = choose|k: int| 0 <= k < a0.len() && a0[k] == c as i64;
                                    assert(a1[k] == c as i64);
                                }
                            }
                            assert(a1[a1.len() - 1] == j);
                            assert(a1.no_duplicates()) by {
                                assert forall|x: int, y: int|
                                    0 <= x < a1.len() && 0 <= y < a1.len() && x != y implies a1[x]
                                    != a1[y] by {
                                    if x < a0.len() && y < a0.len() {
                                        assert(a1[x] == a0[x] && a1[y] == a0[y]);
                                    } else if x < a0.len() {
                                        assert(a1[x] == a0[x]);
                                        assert(a0.contains(a0[x]));
                                    } else if y < a0.len() {
                                        assert(a1[y] == a0[y]);
                                        assert(a0.contains(a0[y]));
                                    }
                                }
                            }
                            assert forall|k: int| 0 <= k < a1.len() implies eligible(
                                cols0,
                                pivot as int,
                                #[trigger] a1[k],
                            ) by {
                                if k < a0.len() {
                                    assert(a1[k] == a0[k]);
                                }
                            }
                            assert(building(self.inds@, self.cols@, n0, inds0, cols0, pivot as int, degree as int));
                            lemma_pivot_covered_push(before, j, n0, rows0, cols0, pivot as int, pc.start as int, ptr as int);
                            lemma_row_covered_push(before, j, n0, cols0, pivot as int, row.start as int, q as int);
                            assert(appended(self.inds@, n0).contains(j)) by {
                                assert(appended(self.inds@, n0)[appended(self.inds@, n0).len() - 1] == j);
                            }
                        }
                    }
                    proof {
                        assert(covered(self.inds@, n0, cols0, pivot as int, j));
                        assert(self.inds@[q as int] == j);
                        assert(entry_covered(self.inds@, n0, cols0, pivot as int, q as int));
                    }
                    q = q + 1;
                }
            }
            assert(row_entry_covered(self.inds@, n0, rows0, cols0, pivot as int, ptr as int));
            ptr = ptr + 1;
        }
        // Clear the mark of the pivot column.
        let mut cleared = self.col_at(pivot)?;
        cleared.weight = thickness;
        self.set_col(pivot, cleared)?;
        proof {
            assert(self.inds@.subrange(0, n0) =~= inds0);
        }
        Ok(degree)
    }

    /// Kill every row of column `pivot`.
    fn kill_pivot_rows(&mut self, pivot: i64) -> (r: Result<(), ColamdError<I>>)
        requires
            old(self).wf(),
        ensures
            old(self).same_shape(final(self)),
            fails_internally(r),
            r is Ok <==> {
                &&& 0 <= pivot < old(self).cols@.len()
                &&& entries_valid(
                    old(self).inds@,
                    old(self).cols@[pivot as int].start as int,
                    old(self).cols@[pivot as int].length as int,
                    old(self).rows@.len(),
                )
            },
            r is Ok ==> {
                let c = old(self).cols@[pivot as int];
                &&& final(self).cols == old(self).cols
                &&& final(self).inds == old(self).inds
                &&& final(self).degree == old(self).degree
                &&& final(self).rows@.len() == old(self).rows@.len()
                &&& forall|i: int|
                    #![trigger final(self).rows@[i]]
                    0 <= i < old(self).rows@.len() ==> final(self).rows@[i] == (if listed(
                        old(self).inds@,
                        c.start as int,
                        c.start + c.length,
                        i,
                    ) {
                        ColamdRow { mark: -1i64, ..old(self).rows@[i] }
                    } else {
                        old(self).rows@[i]
                    })
            },
    {
        let ghost inds0 = self.inds@;
        let ghost rows0 = self.rows@;
        let pc = self.col_at(pivot)?;
        let stop = plus(pc.start, pc.length)?;
        let mut ptr = pc.start;
        while ptr < stop
            invariant
                old(self).same_shape(self),
                self.cols == old(self).cols,
                self.inds == old(self).inds,
                self.degree == old(self).degree,
                inds0 == old(self).inds@,
                rows0 == old(self).rows@,
                self.inds@ == inds0,
                self.rows@.len() == rows0.len(),
                0 <= pivot < old(self).cols@.len(),
                pc == old(self).cols@[pivot as int],
                stop == pc.start + pc.length,
                pc.start <= ptr,
                ptr <= stop || ptr == pc.start,
                entries_valid(inds0, pc.start as int, ptr - pc.start, rows0.len()),
                forall|i: int|
                    #![trigger self.rows@[i]]
                    0 <= i < rows0.len() ==> self.rows@[i] == (if listed(
                        inds0,
                        pc.start as int,
                        ptr as int,
                        i,
                    ) {
                        ColamdRow { mark: -1i64, ..rows0[i] }
                    } else {
                        rows0[i]
                    }),
            decreases stop - ptr,
        {
            let i = match self.ind_at(ptr) {
                Ok(i) => i,
                Err(e) => {
                    assert(!entry_valid(inds0, ptr as int, rows0.len()));
                    return Err(e);
                },
            };
            let mut row = match self.row_at(i) {
                Ok(row) => row,
                Err(e) => {
                    assert(!entry_valid(inds0, ptr as int, rows0.len()));
                    return Err(e);
                },
            };
            row.kill();
            self.set_row(i, row)?;
            proof {
                assert(inds0[ptr as int] == i);
                assert forall|v: int| 0 <= v < rows0.len() implies listed(
                    inds0,
                    pc.start as int,
                    ptr + 1,
                    v,
                ) == (listed(inds0, pc.start as int, ptr as int, v) || v == i) by {
                    if v == i {
                        assert(inds0[ptr as int] == v);
                    }
                    if listed(inds0, pc.start as int, ptr as int, v) {
                        let w = choose|w: int| pc.start <= w < ptr && #[trigger] inds0[w] == v;
                        assert(inds0[w] == v);
                    }
                }
                assert(entry_valid(inds0, ptr as int, rows0.len()));
            }
            ptr = ptr + 1;
        }
        Ok(())
    }

    /// Approximate degree computation: take each column of the pivot row
    /// `inds[start..stop]` out of its degree list and, for each row alive of such a
    /// column, record in its mark (relative to `tag`) the part of the row outside
    /// the pivot row; a row found inside the pivot row entirely is killed. On a
    /// pivot row of distinct marked columns, with fresh marks and degrees that bound
    /// what the pivot row meets (`degrees_ready`), each alive row ends marked `tag`
    /// plus its degree less the thickness of its pivot row columns, or dead when that
    /// is all of it (`row_reduced`); on doubly linked degree lists (`lists_ready`),
    /// the lists stay linked without the pivot row columns.
    #[verifier::rlimit(80)]
    #[verifier::spinoff_prover]
    fn update_degrees(&mut self, start: i64, stop: i64, tag: i64) -> (r: Result<
        (),
        ColamdError<I>,
    >)
        requires
            old(self).wf(),
        ensures
            old(self).same_shape(final(self)),
            fails_internally(r),
            r is Ok ==> {
                &&& final(self).inds == old(self).inds
                &&& final(self).cols@.len() == old(self).cols@.len()
                &&& final(self).rows@.len() == old(self).rows@.len()
                &&& forall|c: int|
                    #![trigger final(self).cols@[c]]
                    0 <= c < old(self).cols@.len() ==> same_place(
                        final(self).cols@[c],
                        old(self).cols@[c],
                    ) && final(self).cols@[c].weight == flipped(
                        old(self).cols@[c].weight as int,
                        count_in(old(self).inds@, start as int, stop as int, c),
                    )
                &&& forall|i: int|
                    #![trigger final(self).rows@[i]]
                    0 <= i < old(self).rows@.len() ==> same_row_shape(
                        final(self).rows@[i],
                        old(self).rows@[i],
                    ) && (old(self).rows@[i].mark < 0 ==> final(self).rows@[i] == old(
                        self,
                    ).rows@[i])
            },
            r is Ok && degrees_ready(
                old(self).cols@,
                old(self).rows@,
                old(self).inds@,
                start as int,
                stop as int,
                tag as int,
            ) ==> forall|i: int|
                #![trigger final(self).rows@[i]]
                0 <= i < old(self).rows@.len() && old(self).rows@[i].mark >= 0 ==> row_reduced(
                    final(self).rows@[i],
                    old(self).rows@[i],
                    met_weight(old(self).cols@, old(self).inds@, start as int, stop as int, i),
                    tag as int,
                ),
            r is Ok && lists_ready(
                old(self).cols@,
                old(self).degree@,
                old(self).inds@,
                start as int,
                stop as int,
            ) ==> lists_linked(
                final(self).cols@,
                final(self).degree@,
                old(self).inds@,
                start as int,
                stop as int,
            ),
    {
        let ghost cols0 = self.cols@;
        let ghost rows0 = self.rows@;
        let ghost inds0 = self.inds@;
        let ghost ready = degrees_ready(cols0, rows0, inds0, start as int, stop as int, tag as int);
        let ghost deg0 = self.degree@;
        let ghost lready = lists_ready(cols0, deg0, inds0, start as int, stop as int);
        let mut ptr = start;
        while ptr < stop
            invariant
                old(self).same_shape(self),
                cols0 == old(self).cols@,
                rows0 == old(self).rows@,
                inds0 == old(self).inds@,
                self.inds == old(self).inds,
                self.cols@.len() == cols0.len(),
                self.rows@.len() == rows0.len(),
                start <= ptr,
                ptr <= stop || ptr == start,
                forall|c: int|
                    #![trigger self.cols@[c]]
                    0 <= c < cols0.len() ==> same_place(self.cols@[c], cols0[c])
                        && self.cols@[c].weight == flipped(
                        cols0[c].weight as int,
                        count_in(inds0, start as int, ptr as int, c),
                    ),
                forall|i: int|
                    #![trigger self.rows@[i]]
                    0 <= i < rows0.len() ==> same_row_shape(self.rows@[i], rows0[i]) && (
                    rows0[i].mark < 0 ==> self.rows@[i] == rows0[i]),
                ready == degrees_ready(cols0, rows0, inds0, start as int, stop as int, tag as int),
                ready ==> ptr <= stop,
                deg0 == old(self).degree@,
                lready == lists_ready(cols0, deg0, inds0, start as int, stop as int),
                lready ==> ptr <= stop && lists_linked(self.cols@, self.degree@, inds0, start as int, ptr as int),
                ready ==> forall|i: int|
                    #![trigger self.rows@[i]]
                    0 <= i < rows0.len() && rows0[i].mark >= 0 ==> row_reduced(
                        self.rows@[i],
                        rows0[i],
                        met_weight(cols0, inds0, start as int, ptr as int, i),
                        tag as int,
                    ),
            decreases stop - ptr,
        {
            let ghost cols_b = self.cols@;
            let ghost deg_b = self.degree@;
            let j = self.ind_at(ptr)?;
            let mut col = self.col_at(j)?;
            let weight = minus(0, col.weight)?;
            let score = col.rank;
            let prev = col.prev;
            let next = col.next;
            // Clear the mark of the column.
            col.weight = weight;
            self.set_col(j, col)?;
            // Remove the column from its degree list.
            if prev == EMPTY {
                self.set_deg(score, next)?;
            } else {
                let mut pc = self.col_at(prev)?;
                pc.next = next;
                self.set_col(prev, pc)?;
            }
            if next != EMPTY {
                let mut nc = self.col_at(next)?;
                nc.prev = prev;
                self.set_col(next, nc)?;
            }
            proof {
                assert forall|c: int| 0 <= c < cols0.len() implies #[trigger] count_in(
                    inds0,
                    start as int,
                    ptr + 1,
                    c,
                ) == count_in(inds0, start as int, ptr as int, c) + if c == j {
                    1nat
                } else {
                    0nat
                } by {
                    assert(inds0[ptr as int] == j);
                }
            }
            proof {
                if lready {
                    assert(j == inds0[ptr as int]);
                    assert forall|x: int| start <= x < ptr implies #[trigger] inds0[x] != j by {
                        assert(inds0[ptr as int] == j);
                    }
                    lemma_count_absent(inds0, start as int, ptr as int, j as int);
                    let cj = ColamdCol { weight: weight, ..cols_b[j as int] };
                    assert(self.cols@ == unlinked_cols(cols_b, j as int, cj, prev as int, next as int));
                    lemma_unlink(cols_b, deg_b, inds0, start as int, ptr as int, cj);
                }
            }
            let ghost deg_c = self.degree@;
            // Scan the column.
            let col = self.col_at(j)?;
            let cstop = plus(col.start, col.length)?;
            let mut q = col.start;
            let ghost cols1 = self.cols@;
            let ghost w = -cols0[j as int].weight;
            proof {
                if ready {
                    assert(j == inds0[ptr as int]);
                    assert(count_in(inds0, start as int, ptr as int, j as int) == 0) by {
                        assert forall|x: int| start <= x < ptr implies #[trigger] inds0[x] != j by {
                            assert(inds0[ptr as int] == j);
                        }
                        lemma_count_absent(inds0, start as int, ptr as int, j as int);
                    }
                    assert(col.weight == w);
                    assert(w >= 1);
                }
            }
            while q < cstop
                invariant
                    old(self).same_shape(self),
                    self.cols@ == cols1,
                    self.degree@ == deg_c,
                    self.inds == old(self).inds,
                    self.rows@.len() == rows0.len(),
                    forall|i: int|
                        #![trigger self.rows@[i]]
                        0 <= i < rows0.len() ==> same_row_shape(self.rows@[i], rows0[i]) && (
                        rows0[i].mark < 0 ==> self.rows@[i] == rows0[i]),
                    col.start <= q,
                    cols0 == old(self).cols@,
                    rows0 == old(self).rows@,
                    inds0 == old(self).inds@,
                    ready == degrees_ready(cols0, rows0, inds0, start as int, stop as int, tag as int),
                    cstop == col.start + col.length,
                    ready ==> q <= cstop,
                    ready ==> col.start == cols0[j as int].start && col.length == cols0[j as int].length,
                    ready ==> cols1[j as int].weight == w && w >= 1,
                    w == -cols0[j as int].weight,
                    ready ==> start <= ptr < stop && j == inds0[ptr as int],
                    ready ==> forall|i: int|
                        #![trigger self.rows@[i]]
                        0 <= i < rows0.len() && rows0[i].mark >= 0 ==> row_reduced(
                            self.rows@[i],
                            rows0[i],
                            met_weight(cols0, inds0, start as int, ptr as int, i) + run_weight(
                                inds0,
                                col.start as int,
                                q - col.start,
                                i,
                                w,
                            ),
                            tag as int,
                        ),
                decreases cstop - q,
            {
                let i = self.ind_at(q)?;
                let mut row = self.row_at(i)?;
                let ghost rows_b = self.rows@;
                proof {
                    if ready && rows0[i as int].mark >= 0 {
                        let ii = i as int;
                        let m = q - col.start;
                        assert(inds0[q as int] == i);
                        assert(run_weight(inds0, col.start as int, m + 1, ii, w) == run_weight(
                            inds0,
                            col.start as int,
                            m,
                            ii,
                            w,
                        ) + w);
                        lemma_run_weight_mono(inds0, col.start as int, m + 1, col.length as int, ii, w);
                        assert(inds0[ptr as int] as int == j as int);
                        assert(cols0[j as int].start == col.start && cols0[j as int].length == col.length);
                        assert(met_weight(cols0, inds0, start as int, ptr + 1, ii) == met_weight(
                            cols0,
                            inds0,
                            start as int,
                            ptr + 1 - 1,
                            ii,
                        ) + run_weight(
                            inds0,
                            cols0[inds0[ptr + 1 - 1] as int].start as int,
                            cols0[inds0[ptr + 1 - 1] as int].length as int,
                            ii,
                            -cols0[inds0[ptr + 1 - 1] as int].weight,
                        ));
                        lemma_met_weight_mono(cols0, inds0, start as int, ptr as int, ptr + 1, ii);
                        lemma_met_weight_mono(cols0, inds0, start as int, ptr + 1, stop as int, ii);
                        assert(met_weight(cols0, inds0, start as int, ptr + 1, ii) == met_weight(
                            cols0,
                            inds0,
                            start as int,
                            ptr as int,
                            ii,
                        ) + run_weight(inds0, col.start as int, col.length as int, ii, w));
                        assert(rows0[ii].mark >= 0);
                    }
                }
                if row.alive() {
                    // Compute the set difference.
                    let mut diff = minus(row.mark, tag)?;
                    if diff < 0 {
                        diff = row.degree;
                    }
                    diff = minus(diff, self.col_at(j)?.weight)?;
                    if diff == 0 {
                        row.kill();
                    } else {
                        row.mark = plus(diff, tag)?;
                    }
                    self.set_row(i, row)?;
                }
                proof {
                    if ready {
                        assert forall|x: int|
                            0 <= x < rows0.len() && rows0[x].mark >= 0 implies #[trigger] row_reduced(
                            self.rows@[x],
                            rows0[x],
                            met_weight(cols0, inds0, start as int, ptr as int, x) + run_weight(
                                inds0,
                                col.start as int,
                                q + 1 - col.start,
                                x,
                                w,
                            ),
                            tag as int,
                        ) by {
                            assert(row_reduced(
                                rows_b[x],
                                rows0[x],
                                met_weight(cols0, inds0, start as int, ptr as int, x) + run_weight(
                                    inds0,
                                    col.start as int,
                                    q - col.start,
                                    x,
                                    w,
                                ),
                                tag as int,
                            ));
                            assert(run_weight(inds0, col.start as int, q + 1 - col.start, x, w)
                                == run_weight(inds0, col.start as int, q - col.start, x, w) + if inds0[q as int]
                                == x {
                                w
                            } else {
                                0
                            });
                            if x != i {
                                assert(self.rows@[x] == rows_b[x]);
                            } else {
                                lemma_run_weight_nonneg(inds0, col.start as int, q - col.start, x, w);
                                lemma_met_weight_mono(cols0, inds0, start as int, ptr as int, ptr as int, x);
                                assert(inds0[q as int] == i);
                                assert(rows0[x].mark < tag);
                                assert(rows_b[x].degree == rows0[x].degree);
                            }
                        }
                    }
                }
                q = q + 1;
            }
            ptr = ptr + 1;
        }
        Ok(())
    }

    /// Score each column of the pivot row `inds[start..stop]`: compact it to its
    /// rows alive, sum (saturating at `ncols`) the external degrees of these rows,
    /// and file the column in a hash bucket of its rows; a column left empty is
    /// killed and ordered at `k`. Return the new `k` and pivot row degree: the
    /// thickness of the killed columns leaves the degree as it joins `k`. When the
    /// runs of the pivot row columns lie apart (`runs_apart`), each column ends as
    /// `col_scored_by` says of its alive rows, its run compacted to them; on linked
    /// degree lists, each alive column lies on the chain of its hash bucket.
    #[verifier::rlimit(80)]
    #[verifier::spinoff_prover]
    fn score_pivot_row(
        &mut self,
        start: i64,
        stop: i64,
        tag: i64,
        ncols: i64,
        k: i64,
        degree: i64,
    ) -> (r: Result<(i64, i64), ColamdError<I>>)
        requires
            old(self).wf(),
            0 <= ncols < usize::MAX,
        ensures
            old(self).same_shape(final(self)),
            fails_internally(r),
            r matches Ok((k2, d2)) ==> {
                &&& final(self).rows == old(self).rows
                &&& final(self).cols@.len() == old(self).cols@.len()
                &&& k2 + d2 == k + degree
                &&& forall|c: int|
                    #![trigger final(self).cols@[c]]
                    0 <= c < old(self).cols@.len() ==> final(self).cols@[c].weight == old(
                        self,
                    ).cols@[c].weight && (final(self).cols@[c].start == old(self).cols@[c].start
                        || (old(self).cols@[c].start >= 0 && final(self).cols@[c].start == -1))
                &&& k2 + thickness(final(self).cols@, old(self).cols@.len() as int) == k
                    + thickness(old(self).cols@, old(self).cols@.len() as int)
                &&& forall|c: int|
                    #![trigger final(self).cols@[c]]
                    0 <= c < old(self).cols@.len() && old(self).cols@[c].start < 0 ==> final(self).cols@[c].rank == old(self).cols@[c].rank
                &&& weights_positive(old(self).cols@) ==> k <= k2
                &&& weights_positive(old(self).cols@) ==> forall|c: int|
                    #![trigger final(self).cols@[c]]
                    eliminated(old(self).cols@, final(self).cols@, c) ==> k <= final(self).cols@[c].rank
                        && final(self).cols@[c].rank + final(self).cols@[c].weight <= k2
                &&& weights_positive(old(self).cols@) ==> forall|c: int, d: int|
                    #![trigger final(self).cols@[c], final(self).cols@[d]]
                    eliminated(old(self).cols@, final(self).cols@, c) && eliminated(
                        old(self).cols@,
                        final(self).cols@,
                        d,
                    ) && c != d ==> apart(
                        final(self).cols@[c].rank as int,
                        final(self).cols@[c].weight as int,
                        final(self).cols@[d].rank as int,
                        final(self).cols@[d].weight as int,
                    )
                &&& weights_positive(old(self).cols@) ==> ranks_held(old(self).cols@, final(self).cols@, k as int, k2 as int)
            },
            r is Ok && runs_apart(old(self).cols@, old(self).inds@, start as int, stop as int)
                ==> forall|p: int|
                #![trigger old(self).inds@[p]]
                start <= p < stop ==> col_scored_by(
                    final(self).cols@[old(self).inds@[p] as int],
                    old(self).inds@[p] as int,
                    old(self).rows@,
                    old(self).inds@,
                    old(self).cols@[old(self).inds@[p] as int].start as int,
                    old(self).cols@[old(self).inds@[p] as int].length as int,
                    tag as int,
                    ncols as int,
                    final(self).degree@,
                ),
            r is Ok && runs_apart(old(self).cols@, old(self).inds@, start as int, stop as int)
                ==> forall|p: int|
                #![trigger old(self).inds@[p]]
                start <= p < stop && final(self).cols@[old(self).inds@[p] as int].start >= 0 ==> {
                    let c = old(self).inds@[p] as int;
                    let a = old(self).cols@[c].start as int;
                    final(self).inds@.subrange(a, a + final(self).cols@[c].length) == alive_rows(
                        old(self).rows@,
                        old(self).inds@,
                        a,
                        old(self).cols@[c].length as int,
                    )
                },
            r is Ok && runs_apart(old(self).cols@, old(self).inds@, start as int, stop as int)
                && lists_linked(old(self).cols@, old(self).degree@, old(self).inds@, start as int, stop as int)
                ==> {
                &&& buckets_started(final(self).cols@, final(self).degree@, old(self).inds@, start as int, stop as int)
                &&& forall|p: int|
                    #![trigger old(self).inds@[p]]
                    start <= p < stop && final(self).cols@[old(self).inds@[p] as int].start >= 0 ==> in_bucket(
                        final(self).cols@,
                        final(self).degree@,
                        old(self).inds@,
                        start as int,
                        stop as int,
                        old(self).inds@[p] as int,
                    )
            },
    {
        let ghost cols0 = self.cols@;
        let ghost n = cols0.len() as int;
        let ghost k0 = k as int;
        let ghost d0 = degree as int;
        let ghost inds0 = self.inds@;
        let ghost rows0 = self.rows@;
        let ghost sep = runs_apart(cols0, inds0, start as int, stop as int);
        let ghost deg0 = self.degree@;
        let ghost sready = sep && lists_linked(cols0, deg0, inds0, start as int, stop as int);
        proof {
            if sready {
                assert forall|b: int|
                    #![trigger deg0[b]]
                    0 <= b < deg0.len() implies {
                        let f = bucket_first(cols0, deg0, b);
                        f == EMPTY || (0 <= f < cols0.len() && count_in(inds0, start as int, start as int, f)
                            > 0 && cols0[f].start >= 0 && cols0[f].prev == b)
                    } by {
                    if deg0[b] != EMPTY {
                        assert(cols0[deg0[b] as int].prev == EMPTY);
                    }
                }
            }
        }
        let mut k = k;
        let mut degree = degree;
        let buckets = ncols as usize + 1;
        let mut ptr = start;
        while ptr < stop
            invariant
                old(self).same_shape(self),
                0 <= ncols,
                buckets == ncols + 1,
                cols0 == old(self).cols@,
                n == cols0.len(),
                self.rows == old(self).rows,
                self.cols@.len() == n,
                forall|c: int|
                    #![trigger self.cols@[c]]
                    0 <= c < n ==> self.cols@[c].weight == cols0[c].weight && (self.cols@[c].start
                        == cols0[c].start || (cols0[c].start >= 0 && self.cols@[c].start == -1)),
                k + thickness(self.cols@, n) == k0 + thickness(cols0, n),
                forall|c: int|
                    #![trigger self.cols@[c]]
                    0 <= c < n && cols0[c].start < 0 ==> self.cols@[c].rank == cols0[c].rank,
                weights_positive(cols0) ==> k0 <= k,
                weights_positive(cols0) ==> forall|c: int|
                    #![trigger self.cols@[c]]
                    eliminated(cols0, self.cols@, c) ==> k0 <= self.cols@[c].rank
                        && self.cols@[c].rank + self.cols@[c].weight <= k,
                weights_positive(cols0) ==> forall|c: int, d: int|
                    #![trigger self.cols@[c], self.cols@[d]]
                    eliminated(cols0, self.cols@, c) && eliminated(cols0, self.cols@, d) && c != d
                        ==> apart(
                        self.cols@[c].rank as int,
                        self.cols@[c].weight as int,
                        self.cols@[d].rank as int,
                        self.cols@[d].weight as int,
                    ),
                weights_positive(cols0) ==> ranks_held(cols0, self.cols@, k0, k as int),
                k + degree == k0 + d0,
                inds0 == old(self).inds@,
                rows0 == old(self).rows@,
                self.inds@.len() == inds0.len(),
                sep == runs_apart(cols0, inds0, start as int, stop as int),
                start <= ptr,
                sep ==> ptr <= stop,
                sep ==> forall|x: int| start <= x < stop ==> #[trigger] self.inds@[x] == inds0[x],
                sep ==> forall|p: int, x: int|
                    #![trigger inds0[p], self.inds@[x]]
                    ptr <= p < stop && cols0[inds0[p] as int].start <= x < cols0[inds0[p] as int].start
                        + cols0[inds0[p] as int].length ==> self.inds@[x] == inds0[x],
                sep ==> forall|p: int|
                    #![trigger inds0[p]]
                    ptr <= p < stop ==> self.cols@[inds0[p] as int].start == cols0[inds0[p] as int].start
                        && self.cols@[inds0[p] as int].length == cols0[inds0[p] as int].length,
                sep ==> forall|p: int|
                    #![trigger inds0[p]]
                    start <= p < ptr ==> col_scored_by(
                        self.cols@[inds0[p] as int],
                        inds0[p] as int,
                        rows0,
                        inds0,
                        cols0[inds0[p] as int].start as int,
                        cols0[inds0[p] as int].length as int,
                        tag as int,
                        ncols as int,
                        self.degree@,
                    ),
                sep ==> forall|p: int|
                    #![trigger inds0[p]]
                    start <= p < ptr && self.cols@[inds0[p] as int].start >= 0 ==> {
                        let c = inds0[p] as int;
                        let a = cols0[c].start as int;
                        self.inds@.subrange(a, a + self.cols@[c].length) == alive_rows(
                            rows0,
                            inds0,
                            a,
                            cols0[c].length as int,
                        )
                    },
                deg0 == old(self).degree@,
                sready == (sep && lists_linked(cols0, deg0, inds0, start as int, stop as int)),
                sready ==> heads_kept(self.degree@, deg0, cols0, inds0, start as int, stop as int),
                sready ==> buckets_started(self.cols@, self.degree@, inds0, start as int, ptr as int),
                sready ==> forall|c: int|
                    #![trigger self.cols@[c]]
                    0 <= c < n && count_in(inds0, start as int, ptr as int, c) > 0 && self.cols@[c].start
                        >= 0 ==> in_bucket(self.cols@, self.degree@, inds0, start as int, ptr as int, c),
            decreases stop - ptr,
        {
            let j = self.ind_at(ptr)?;
            let col = self.col_at(j)?;
            // The columns of the pivot row are alive.
            if !col.alive() {
                return Err(inconsistent());
            }
            let ghost cols_it = self.cols@;
            let ghost deg_it = self.degree@;
            let ghost i_it = self.inds@;
            let cstart = col.start;
            let cstop = plus(cstart, col.length)?;
            let mut pos = cstart;
            let mut hash: usize = 0;
            let mut score: i64 = 0;
            let mut q = cstart;
            proof {
                if sep {
                    assert(j == inds0[ptr as int]);
                }
                if sready {
                    assert forall|x: int| start <= x < ptr implies #[trigger] inds0[x] != j by {
                        assert(inds0[ptr as int] == j);
                    }
                    lemma_count_absent(inds0, start as int, ptr as int, j as int);
                    lemma_count_present(inds0, start as int, stop as int, ptr as int);
                }
            }
            while q < cstop
                invariant
                    old(self).same_shape(self),
                    0 <= ncols,
                    self.cols@ == cols_it,
                    self.rows == old(self).rows,
                    self.degree@ == deg_it,
                    cols0 == old(self).cols@,
                    inds0 == old(self).inds@,
                    rows0 == old(self).rows@,
                    sep == runs_apart(cols0, inds0, start as int, stop as int),
                    sep ==> start <= ptr < stop && j == inds0[ptr as int],
                    sep ==> cstart == cols0[j as int].start && cstop == cstart + cols0[j as int].length,
                    cstart <= pos <= q,
                    sep ==> q <= cstop,
                    self.inds@.len() == inds0.len(),
                    i_it.len() == inds0.len(),
                    forall|x: int| 0 <= x < inds0.len() && !(cstart <= x < pos) ==> #[trigger] self.inds@[x] == i_it[x],
                    sep ==> forall|x: int| cstart <= x < cstop ==> #[trigger] i_it[x] == inds0[x],
                    sep ==> pos - cstart == alive_count(rows0, inds0, cstart as int, q - cstart),
                    sep ==> score == col_score(rows0, inds0, cstart as int, q - cstart, tag as int, ncols as int),
                    sep ==> hash == col_hash(rows0, inds0, cstart as int, q - cstart),
                    sep ==> self.inds@.subrange(cstart as int, pos as int) == alive_rows(
                        rows0,
                        inds0,
                        cstart as int,
                        q - cstart,
                    ),
                decreases cstop - q,
            {
                let i = self.ind_at(q)?;
                let row = self.row_at(i)?;
                if row.alive() {
                    // Compact the column.
                    self.set_ind(pos, i)?;
                    pos = plus(pos, 1)?;
                    hash = hash.wrapping_add(i as usize);
                    // Increment the score, saturating at `ncols`.
                    let ext = minus(row.mark, tag)?;
                    let room = minus(ncols, ext)?;
                    if room < score {
                        score = ncols;
                    } else {
                        score = plus(score, ext)?;
                    }
                }
                q = q + 1;
            }
            let ghost inds_a = self.inds@;
            let ghost mut hd: int = -1;
            let ghost mut hb: int = -1;
            let mut col = self.col_at(j)?;
            col.length = minus(pos, cstart)?;
            if col.length == 0 {
                col.kill();
                degree = minus(degree, col.weight)?;
                let ghost kold = k as int;
                col.rank = k;
                k = plus(k, col.weight)?;
                let ghost before = self.cols@;
                self.set_col(j, col)?;
                proof {
                    lemma_thickness_update(before, j as int, col, n);
                    if weights_positive(cols0) {
                        lemma_held_keep(cols0, before, self.cols@, k0, kold);
                        lemma_held_extend(cols0, self.cols@, k0, kold, k as int, j as int);
                    }
                    if sready {
                        assert(self.cols@ == cols_it.update(
                            inds0[ptr as int] as int,
                            ColamdCol { start: -1i64, ..self.cols@[inds0[ptr as int] as int] },
                        ));
                        lemma_skip_bucket(
                            cols_it,
                            deg_it,
                            self.cols@,
                            deg0,
                            cols0,
                            inds0,
                            start as int,
                            ptr as int,
                            stop as int,
                        );
                    }
                }
            } else {
                col.rank = score;
                let ghost before = self.cols@;
                self.set_col(j, col)?;
                proof {
                    lemma_thickness_update(before, j as int, col, n);
                    if weights_positive(cols0) {
                        lemma_held_keep(cols0, before, self.cols@, k0, k as int);
                    }
                }
                let bucket = hash % buckets;
                let b = bucket as i64;
                let head = self.deg_at(b)?;
                let first = if head > EMPTY {
                    let mut hc = self.col_at(head)?;
                    let first = hc.prev;
                    hc.prev = j;
                    let ghost before = self.cols@;
                    self.set_col(head, hc)?;
                    proof {
                        hd = head as int;
                        hb = b as int;
                        lemma_thickness_update(before, head as int, hc, n);
                        if weights_positive(cols0) {
                            lemma_held_keep(cols0, before, self.cols@, k0, k as int);
                        }
                    }
                    first
                } else {
                    self.set_deg(b, minus(minus(0, j)?, 2)?)?;
                    proof {
                        assert(deg_it[b as int] <= -1);
                    }
                    minus(0, plus(head, 2)?)?
                };
                let mut col = self.col_at(j)?;
                col.next = first;
                col.prev = b;
                let ghost before = self.cols@;
                self.set_col(j, col)?;
                proof {
                    lemma_thickness_update(before, j as int, col, n);
                    if weights_positive(cols0) {
                        lemma_held_keep(cols0, before, self.cols@, k0, k as int);
                    }
                    if sready {
                        assert(j == inds0[ptr as int]);
                        assert forall|b2: int|
                            #![trigger self.degree@[b2]]
                            0 <= b2 < self.degree@.len() && self.degree@[b2] >= 0 implies self.degree@[b2]
                            == deg0[b2] && 0 <= deg0[b2] < cols0.len() && cols0[deg0[b2] as int].rank == b2
                            && count_in(inds0, start as int, stop as int, deg0[b2] as int) == 0 by {
                            assert(deg_it[b2] == deg_it[b2]);
                        }
                        if head > EMPTY {
                            assert(head != j) by {
                                assert(deg_it[b as int] == head);
                            }
                        }
                        lemma_file_bucket(
                            cols_it,
                            deg_it,
                            self.cols@,
                            self.degree@,
                            deg0,
                            cols0,
                            inds0,
                            start as int,
                            ptr as int,
                            stop as int,
                            b as int,
                        );
                    }
                }
            }
            proof {
                if sep {
                    assert(self.inds@ == inds_a);
                    assert(q - cstart == cols0[j as int].length);
                    assert forall|b2: int|
                        0 <= b2 < deg_it.len() && deg_it[b2] >= 0 implies #[trigger] self.degree@[b2]
                        == deg_it[b2] by {}
                    assert forall|p: int|
                        #![trigger inds0[p]]
                        start <= p < ptr + 1 implies col_scored_by(
                        self.cols@[inds0[p] as int],
                        inds0[p] as int,
                        rows0,
                        inds0,
                        cols0[inds0[p] as int].start as int,
                        cols0[inds0[p] as int].length as int,
                        tag as int,
                        ncols as int,
                        self.degree@,
                    ) by {
                        let c = inds0[p] as int;
                        if p < ptr {
                            assert(inds0[p] != inds0[ptr as int]);
                            assert(col_scored_by(
                                cols_it[c],
                                c,
                                rows0,
                                inds0,
                                cols0[c].start as int,
                                cols0[c].length as int,
                                tag as int,
                                ncols as int,
                                deg_it,
                            ));
                            if c == hd {
                                assert(0 <= hb < self.degree@.len() && self.degree@[hb] == c);
                            }
                            if heads(deg_it, c) {
                                lemma_heads_kept(deg_it, self.degree@, c);
                            }
                        }
                    }
                    assert forall|x: int| start <= x < stop implies #[trigger] self.inds@[x] == inds0[x] by {
                        assert(i_it[x] == inds0[x]);
                    }
                    assert forall|p: int|
                        #![trigger inds0[p]]
                        start <= p < ptr + 1 && self.cols@[inds0[p] as int].start >= 0 implies {
                            let c = inds0[p] as int;
                            let a = cols0[c].start as int;
                            self.inds@.subrange(a, a + self.cols@[c].length) == alive_rows(
                                rows0,
                                inds0,
                                a,
                                cols0[c].length as int,
                            )
                        } by {
                        let c = inds0[p] as int;
                        let a = cols0[c].start as int;
                        if p < ptr {
                            assert(inds0[p] != inds0[ptr as int]);
                            assert(self.cols@[c].length == cols_it[c].length);
                            lemma_alive_rows_len(rows0, inds0, a, cols0[c].length as int);
                            assert(col_scored_by(
                                cols_it[c],
                                c,
                                rows0,
                                inds0,
                                a,
                                cols0[c].length as int,
                                tag as int,
                                ncols as int,
                                deg_it,
                            ));
                            assert(self.inds@.subrange(a, a + self.cols@[c].length) =~= i_it.subrange(
                                a,
                                a + self.cols@[c].length,
                            ));
                        } else {
                            assert(c == j);
                            assert(self.inds@.subrange(a, a + self.cols@[c].length) =~= inds_a.subrange(
                                cstart as int,
                                pos as int,
                            ));
                        }
                    }
                    assert forall|p: int, x: int|
                        #![trigger inds0[p], self.inds@[x]]
                        ptr + 1 <= p < stop && cols0[inds0[p] as int].start <= x < cols0[inds0[p] as int].start
                            + cols0[inds0[p] as int].length implies self.inds@[x] == inds0[x] by {
                        assert(inds0[p] != inds0[ptr as int]);
                        assert(i_it[x] == inds0[x]);
                    }
                }
            }
            ptr = ptr + 1;
        }
        proof {
            if sready {
                assert forall|p: int|
                    #![trigger inds0[p]]
                    start <= p < stop && self.cols@[inds0[p] as int].start >= 0 implies in_bucket(
                    self.cols@,
                    self.degree@,
                    inds0,
                    start as int,
                    stop as int,
                    inds0[p] as int,
                ) by {
                    lemma_count_present(inds0, start as int, stop as int, p);
                }
            }
        }
        Ok((k, degree))
    }

    /// Finalize the scores of the columns alive of the pivot row
    /// `inds[start..stop]`: compact the pivot row to them, add the pivot row
    /// `pivot_row` to each, and file each in the degree list of its new score.
    /// Return the end of the compacted pivot row and the new minimum score. With the
    /// pivot row apart, each alive column takes the score `new_score` gives, one more
    /// row, and its place in its degree list, and the minimum score is lowered to the
    /// least of them.
    #[verifier::rlimit(80)]
    #[verifier::spinoff_prover]
    fn finalize_scores(
        &mut self,
        start: i64,
        stop: i64,
        pivot_row: i64,
        degree: i64,
        ncols: i64,
        k: i64,
        min_score: i64,
    ) -> (r: Result<(i64, i64), ColamdError<I>>)
        requires
            old(self).wf(),
        ensures
            old(self).same_shape(final(self)),
            fails_internally(r),
            r is Ok ==> {
                &&& final(self).rows == old(self).rows
                &&& final(self).cols@.len() == old(self).cols@.len()
                &&& forall|c: int|
                    #![trigger final(self).cols@[c]]
                    0 <= c < old(self).cols@.len() ==> final(self).cols@[c].start == old(
                        self,
                    ).cols@[c].start && final(self).cols@[c].weight == old(self).cols@[c].weight
                        && (old(self).cols@[c].start < 0 ==> final(self).cols@[c].rank == old(
                        self,
                    ).cols@[c].rank)
            },
            r matches Ok((_, ms)) ==> pivot_row_apart(
                old(self).cols@,
                old(self).inds@,
                start as int,
                stop as int,
            ) ==> {
                &&& forall|p: int|
                    #![trigger old(self).inds@[p]]
                    start <= p < stop && old(self).cols@[old(self).inds@[p] as int].start >= 0 ==> {
                        let c = old(self).inds@[p] as int;
                        &&& final(self).cols@[c].rank == new_score(
                            old(self).cols@[c].rank as int,
                            degree as int,
                            old(self).cols@[c].weight as int,
                            ncols as int,
                            k as int,
                        )
                        &&& final(self).cols@[c].length == old(self).cols@[c].length + 1
                        &&& ms <= final(self).cols@[c].rank
                    }
                &&& ms <= min_score
                &&& ms == min_score || exists|p: int|
                    #![trigger old(self).inds@[p]]
                    start <= p < stop && old(self).cols@[old(self).inds@[p] as int].start >= 0
                        && ms == final(self).cols@[old(self).inds@[p] as int].rank
            },
            r matches Ok((end, _)) ==> finalize_ready(
                old(self).cols@,
                old(self).inds@,
                old(self).degree@,
                start as int,
                stop as int,
            ) ==> {
                &&& end == start + alive_listed(old(self).cols@, old(self).inds@, start as int, stop as int)
                &&& forall|p: int|
                    #![trigger old(self).inds@[p]]
                    start <= p < stop && old(self).cols@[old(self).inds@[p] as int].start >= 0 ==> {
                        let c = old(self).inds@[p] as int;
                        &&& final(self).inds@[start + alive_listed(
                            old(self).cols@,
                            old(self).inds@,
                            start as int,
                            p,
                        )] == c
                        &&& final(self).inds@[old(self).cols@[c].start + old(self).cols@[c].length]
                            == pivot_row
                        &&& filed(final(self).cols@, final(self).degree@, c)
                    }
            },
    {
        let ghost cols0 = self.cols@;
        let ghost inds0 = self.inds@;
        let ghost apart = pivot_row_apart(cols0, inds0, start as int, stop as int);
        let ghost deg0 = self.degree@;
        let ghost ready = finalize_ready(cols0, inds0, deg0, start as int, stop as int);
        let ghost old_min = min_score;
        let mut min_score = min_score;
        let mut pos = start;
        let mut ptr = start;
        while ptr < stop
            invariant
                old(self).same_shape(self),
                self.rows == old(self).rows,
                self.cols@.len() == old(self).cols@.len(),
                forall|c: int|
                    #![trigger self.cols@[c]]
                    0 <= c < old(self).cols@.len() ==> self.cols@[c].start == old(
                        self,
                    ).cols@[c].start && self.cols@[c].weight == old(self).cols@[c].weight && (old(
                        self,
                    ).cols@[c].start < 0 ==> self.cols@[c].rank == old(self).cols@[c].rank),
                cols0 == old(self).cols@,
                inds0 == old(self).inds@,
                apart == pivot_row_apart(cols0, inds0, start as int, stop as int),
                start <= pos <= ptr,
                self.inds@.len() == inds0.len(),
                apart ==> ptr <= stop,
                apart ==> forall|x: int| ptr <= x < stop ==> #[trigger] self.inds@[x] == inds0[x],
                apart ==> forall|p: int|
                    #![trigger inds0[p]]
                    start <= p < ptr && cols0[inds0[p] as int].start >= 0 ==> {
                        let c = inds0[p] as int;
                        &&& self.cols@[c].rank == new_score(
                            cols0[c].rank as int,
                            degree as int,
                            cols0[c].weight as int,
                            ncols as int,
                            k as int,
                        )
                        &&& self.cols@[c].length == cols0[c].length + 1
                        &&& min_score <= self.cols@[c].rank
                    },
                apart ==> forall|p: int|
                    #![trigger inds0[p]]
                    ptr <= p < stop ==> self.cols@[inds0[p] as int].rank == cols0[inds0[p] as int].rank
                        && self.cols@[inds0[p] as int].length == cols0[inds0[p] as int].length,
                min_score <= old_min,
                apart ==> (min_score == old_min || exists|p: int|
                    #![trigger inds0[p]]
                    start <= p < ptr && cols0[inds0[p] as int].start >= 0 && min_score
                        == self.cols@[inds0[p] as int].rank),
                deg0 == old(self).degree@,
                self.degree@.len() == deg0.len(),
                ready == finalize_ready(cols0, inds0, deg0, start as int, stop as int),
                ready ==> apart,
                ready ==> pos == start + alive_listed(cols0, inds0, start as int, ptr as int),
                ready ==> forall|p: int|
                    #![trigger inds0[p]]
                    start <= p < ptr && cols0[inds0[p] as int].start >= 0 ==> {
                        let c = inds0[p] as int;
                        &&& self.inds@[start + alive_listed(cols0, inds0, start as int, p)] == c
                        &&& 0 <= cols0[c].start + cols0[c].length < self.inds@.len()
                        &&& self.inds@[cols0[c].start + cols0[c].length] == pivot_row
                        &&& filed(self.cols@, self.degree@, c)
                    },
                ready ==> forall|b: int, p: int|
                    #![trigger self.degree@[b], inds0[p]]
                    0 <= b < self.degree@.len() && start <= p < stop && self.degree@[b] == inds0[p]
                        ==> p < ptr && cols0[inds0[p] as int].start >= 0 && self.cols@[inds0[p] as int].rank
                        == b && self.cols@[inds0[p] as int].prev == EMPTY,
                ready ==> forall|p: int, q: int|
                    #![trigger inds0[p], inds0[q]]
                    start <= p < ptr && ptr <= q < stop && cols0[inds0[p] as int].start >= 0
                        ==> self.cols@[inds0[p] as int].prev != inds0[q],
            decreases stop - ptr,
        {
            let ghost cols_s = self.cols@;
            let ghost deg_s = self.degree@;
            let ghost inds_s = self.inds@;
            let ghost pos_s = pos as int;
            let j = self.ind_at(ptr)?;
            let col = self.col_at(j)?;
            if col.alive() {
                self.set_ind(pos, j)?;
                pos = plus(pos, 1)?;
                // Add the pivot row to the column.
                let idx = plus(col.start, col.length)?;
                proof {
                    if apart {
                        assert(j == inds0[ptr as int]);
                        assert(col.start == cols0[j as int].start && col.length == cols0[j as int].length);
                        assert(!(start <= idx < stop));
                    }
                }
                self.set_ind(idx, pivot_row)?;
                let mut col = self.col_at(j)?;
                col.length = plus(col.length, 1)?;
                // Compute the new score.
                let limit = minus(minus(ncols, k)?, col.weight)?;
                let mut score = minus(plus(col.rank, degree)?, col.weight)?;
                if limit < score {
                    score = limit;
                }
                col.rank = score;
                // Place the column first in its degree list.
                let next = self.deg_at(score)?;
                col.next = next;
                col.prev = EMPTY;
                self.set_col(j, col)?;
                if next != EMPTY {
                    let mut nc = self.col_at(next)?;
                    nc.prev = j;
                    self.set_col(next, nc)?;
                }
                self.set_deg(score, j)?;
                if score < min_score {
                    min_score = score;
                }
                proof {
                    if ready {
                        assert(j == inds0[ptr as int]);
                        assert(self.inds@ == inds_s.update(pos_s, j).update(idx as int, pivot_row));
                        assert(start <= pos_s < stop);
                        assert(!(start <= idx < stop));
                        assert(alive_listed(cols0, inds0, start as int, ptr + 1) == alive_listed(
                            cols0,
                            inds0,
                            start as int,
                            ptr as int,
                        ) + 1);
                        assert(next != j) by {
                            if next == j {
                                assert(deg_s[score as int] == inds0[ptr as int]);
                            }
                        }
                        assert forall|p: int|
                            #![trigger inds0[p]]
                            start <= p < ptr + 1 && cols0[inds0[p] as int].start >= 0 implies {
                                let c = inds0[p] as int;
                                &&& self.inds@[start + alive_listed(cols0, inds0, start as int, p)] == c
                                &&& 0 <= cols0[c].start + cols0[c].length < self.inds@.len()
                                &&& self.inds@[cols0[c].start + cols0[c].length] == pivot_row
                                &&& filed(self.cols@, self.degree@, c)
                            } by {
                            let c = inds0[p] as int;
                            if p < ptr {
                                assert(inds0[p] != inds0[ptr as int]);
                                lemma_alive_listed_mono(cols0, inds0, start as int, p + 1, ptr as int);
                                assert(alive_listed(cols0, inds0, start as int, p + 1) == alive_listed(
                                    cols0,
                                    inds0,
                                    start as int,
                                    p,
                                ) + 1);
                                let d = cols_s[c].prev;
                                if d != EMPTY {
                                    assert(d != j) by {
                                        assert(cols_s[c].prev != inds0[ptr as int]);
                                    }
                                }
                                if c == next {
                                    assert(self.cols@[c].prev == j);
                                } else if cols_s[c].prev == EMPTY {
                                    assert(deg_s[cols_s[c].rank as int] == c);
                                    if cols_s[c].rank == score {
                                        assert(next == c);
                                    }
                                }
                                lemma_alive_listed_mono(cols0, inds0, start as int, start as int, p);
                                assert(start <= start + alive_listed(cols0, inds0, start as int, p) < pos_s);
                                assert(inds_s[start + alive_listed(cols0, inds0, start as int, p)] == c);
                                assert(cols0[c].start + cols0[c].length != idx);
                                assert(self.inds@[start + alive_listed(cols0, inds0, start as int, p)] == c);
                            } else {
                                assert(c == j);
                                assert(idx == cols0[c].start + cols0[c].length);
                                assert(pos_s == start + alive_listed(cols0, inds0, start as int, p));
                                assert(self.inds@[pos_s] == j);
                            }
                        }
                        assert forall|p: int, q: int|
                            #![trigger inds0[p], inds0[q]]
                            start <= p < ptr + 1 && ptr + 1 <= q < stop && cols0[inds0[p] as int].start >= 0
                                implies self.cols@[inds0[p] as int].prev != inds0[q] by {
                            assert(inds0[q] != inds0[ptr as int]);
                            if p < ptr {
                                assert(inds0[p] != inds0[ptr as int]);
                            }
                        }
                    }
                }
            }
            ptr = ptr + 1;
        }
        Ok((pos, min_score))
    }

    /// The elimination loop: order the `cols` columns alive, starting from row
    /// degree `max_degree`, with marks below `imax`. When the alive columns weigh
    /// `cols` in all, each at least one, every column is dead once it succeeds. When
    /// no column is merged at the start, the columns then dead keep their position,
    /// score and weight, and the columns merged along the way have no rank and are
    /// merged into none of them. With both, each column eliminated along the way holds
    /// as many ranks as its weight from its rank on, within `0..cols`, no two of them
    /// share a rank, and every rank of `0..cols` is held by one of them.
    #[verifier::rlimit(60)]
    #[verifier::spinoff_prover]
    pub(crate) fn find(
        &mut self,
        nrows: i64,
        ncols: i64,
        cols: i64,
        max_degree: i64,
        imax: i64,
    ) -> (r: Result<(), ColamdError<I>>)
        requires
            old(self).wf(),
            0 <= ncols <= imax,
            ncols < usize::MAX,
        ensures
            old(self).same_shape(final(self)),
            fails_internally(r),
            r is Ok ==> final(self).cols@.len() == old(self).cols@.len(),
            thickness(old(self).cols@, old(self).cols@.len() as int) == cols && weights_positive(
                old(self).cols@,
            ) ==> (r is Ok ==> forall|c: int|
                0 <= c < final(self).cols@.len() ==> #[trigger] final(self).cols@[c].start < 0),
            (forall|c: int| 0 <= c < old(self).cols@.len() ==> #[trigger] old(self).cols@[c].start
                >= -1) ==> (r is Ok ==> first_dead_kept(old(self).cols@, final(self).cols@)),
            thickness(old(self).cols@, old(self).cols@.len() as int) == cols && weights_positive(
                old(self).cols@,
            ) && (forall|c: int| 0 <= c < old(self).cols@.len() ==> #[trigger] old(self).cols@[c].start
                >= -1) ==> (r is Ok ==> ranked(old(self).cols@, final(self).cols@, cols as int)),
            thickness(old(self).cols@, old(self).cols@.len() as int) == cols && weights_positive(
                old(self).cols@,
            ) && (forall|c: int| 0 <= c < old(self).cols@.len() ==> #[trigger] old(self).cols@[c].start
                >= -1) ==> (r is Ok ==> ranks_held(old(self).cols@, final(self).cols@, 0, cols as int)),
    {
        let ghost first = self.cols@;
        let ghost settled = forall|c: int| 0 <= c < first.len() ==> #[trigger] first[c].start >= -1;
        let ghost n = self.cols@.len() as int;
        let ghost pre = thickness(self.cols@, n) == cols && weights_positive(self.cols@);
        let mut max_degree = max_degree;
        let mut tag: i64 = 1;
        let mut min_score: i64 = 0;
        let mut k: i64 = 0;
        while k < cols
            invariant
                old(self).same_shape(self),
                0 <= ncols <= imax,
                ncols < usize::MAX,
                n == old(self).cols@.len(),
                self.cols@.len() == n,
                pre == (thickness(old(self).cols@, n) == cols && weights_positive(old(self).cols@)),
                pre ==> k + thickness(self.cols@, n) == cols && weights_positive(self.cols@),
                first == old(self).cols@,
                settled == (forall|c: int| 0 <= c < first.len() ==> #[trigger] first[c].start >= -1),
                settled ==> first_dead_kept(first, self.cols@),
                pre && settled ==> 0 <= k && ranked(first, self.cols@, k as int),
                pre && settled ==> ranks_held(first, self.cols@, 0, k as int),
            decreases (if k < cols {
                cols - k
            } else {
                0
            }),
        {
            // Choose the pivot column of minimum score.
            let ghost c0 = self.cols@;
            let (pivot, score) = self.select_pivot(min_score)?;
            proof {
                let next = c0[pivot as int].next;
                if next != EMPTY {
                    lemma_thickness_update(c0, next as int, self.cols@[next as int], n);
                }
                if settled {
                    lemma_steady_kept(first, c0, self.cols@);
                }
                if pre && settled {
                    let kk = k as int;
                    lemma_ranked_add(first, c0, self.cols@, kk, kk, kk, kk, kk, kk);
                    lemma_held_keep(first, c0, self.cols@, 0, kk);
                }
            }
            min_score = score;
            let mut pc = self.col_at(pivot)?;
            // The degree lists hold alive columns.
            if !pc.alive() {
                return Err(inconsistent());
            }
            let thickness = pc.weight;
            let pivot_score = pc.rank;
            let pivot_rank = k;
            pc.rank = k;
            let ghost c1 = self.cols@;
            self.set_col(pivot, pc)?;
            proof {
                lemma_thickness_update(c1, pivot as int, pc, n);
                if settled {
                    lemma_steady_kept(first, c1, self.cols@);
                }
                if pre && settled {
                    let kk = k as int;
                    lemma_ranked_add(first, c1, self.cols@, kk, kk, kk, kk, kk, kk);
                    lemma_held_keep(first, c1, self.cols@, 0, kk);
                }
            }
            if thickness < 1 {
                return Err(inconsistent());
            }
            k = plus(k, thickness)?;
            let ghost ko = pivot_rank as int;
            let ghost kn = k as int;
            proof {
                if pre && settled {
                    assert(outside(first, self.cols@, ko, kn));
                }
            }
            // Make room for the pivot row.
            let rest = minus(ncols, k)?;
            let memory = if pivot_score < rest {
                pivot_score
            } else {
                rest
            };
            let free = self.inds.capacity() - self.inds.length();
            if memory < 0 || memory as u64 > free as u64 {
                let ghost c2 = self.cols@;
                self.compact(nrows, ncols)?;
                proof {
                    lemma_thickness_same(self.cols@, c2, n);
                    if settled {
                        lemma_steady_kept(first, c2, self.cols@);
                    }
                    if pre && settled {
                        lemma_ranked_add(first, c2, self.cols@, ko, ko, ko, ko, ko, kn);
                        lemma_held_keep(first, c2, self.cols@, 0, ko);
                    }
                }
            }
            assert(self.cols@[pivot as int].start >= 0);
            let start = self.inds.length() as i64;
            // Form the pivot row.
            let ghost c3 = self.cols@;
            let mut degree = self.build_pivot_row(pivot)?;
            let ghost built = degree as int;
            let ghost inds4 = self.inds@;
            let ghost c4 = self.cols@;
            if degree > max_degree {
                max_degree = degree;
            }
            self.kill_pivot_rows(pivot)?;
            let stop = self.inds.length() as i64;
            // Select the pivot row.
            let pivot_row = if stop > start {
                self.ind_at(self.col_at(pivot)?.start)?
            } else {
                EMPTY
            };
            // Approximate degree computation.
            self.update_degrees(start, stop, tag)?;
            proof {
                let a = appended(inds4, start as int);
                assert(a == inds4.subrange(start as int, stop as int));
                if pre {
                    assert(!a.contains(pivot)) by {
                        if a.contains(pivot) {
                            let t = choose|t: int| 0 <= t < a.len() && a[t] == pivot;
                            assert(eligible(c3, pivot as int, a[t]));
                        }
                    }
                }
                assert forall|c: int| 0 <= c < n implies #[trigger] self.cols@[c].start == c3[c].start
                    && self.cols@[c].rank == c3[c].rank
                    && (pre ==> self.cols@[c].weight == c3[c].weight)
                    && (c3[c].start < 0 ==> self.cols@[c].weight == c3[c].weight) by {
                    lemma_count_distinct(inds4, start as int, stop as int, c as i64);
                    assert(c4[c] == ColamdCol { weight: c4[c].weight, ..c3[c] });
                }
                if pre {
                    lemma_thickness_same(self.cols@, c3, n);
                }
                if settled {
                    lemma_steady_kept(first, c3, self.cols@);
                }
                if pre && settled {
                    lemma_ranked_add(first, c3, self.cols@, ko, ko, ko, ko, ko, kn);
                    lemma_held_keep(first, c3, self.cols@, 0, ko);
                    assert(weights_positive(self.cols@));
                }
            }
            // Score the columns of the pivot row and hash them.
            let ghost c7 = self.cols@;
            let (k2, d2) = self.score_pivot_row(start, stop, tag, ncols, k, degree)?;
            proof {
                if settled {
                    lemma_steady_kept(first, c7, self.cols@);
                }
                if pre && settled {
                    lemma_ranked_add(first, c7, self.cols@, ko, kn, k2 as int, k2 as int, ko, kn);
                    lemma_held_keep(first, c7, self.cols@, 0, ko);
                    lemma_held_since(first, c7, self.cols@, kn, k2 as int);
                }
            }
            if k2 < k {
                return Err(inconsistent());
            }
            k = k2;
            degree = d2;
            // Detect super columns.
            let ghost c8 = self.cols@;
            let ghost i8 = self.inds@;
            self.detect(start, minus(stop, start)?)?;
            proof {
                if settled {
                    lemma_detect_kept(first, c8, self.cols@, i8);
                }
                if pre && settled {
                    let kk = k as int;
                    lemma_ranked_add(first, c8, self.cols@, kk, kk, kk, kk, ko, kn);
                    lemma_held_keep(first, c8, self.cols@, 0, ko);
                    lemma_held_keep(first, c8, self.cols@, kn, kk);
                }
            }
            // Kill the pivot column.
            let mut pc = self.col_at(pivot)?;
            // The pivot column is still alive, with the thickness it was chosen with.
            if !pc.alive() || pc.weight != thickness || pc.rank != pivot_rank {
                return Err(inconsistent());
            }
            pc.kill();
            let ghost c5 = self.cols@;
            self.set_col(pivot, pc)?;
            proof {
                lemma_thickness_update(c5, pivot as int, pc, n);
                if settled {
                    lemma_steady_kept(first, c5, self.cols@);
                }
                if pre && settled {
                    assert(outside(first, c5, kn, kn));
                    lemma_ranked_add(first, c5, self.cols@, k as int, ko, kn, k as int, kn, kn);
                    lemma_held_keep(first, c5, self.cols@, 0, ko);
                    lemma_held_keep(first, c5, self.cols@, kn, k as int);
                    lemma_held_extend(first, self.cols@, 0, ko, kn, pivot as int);
                    lemma_held_join(first, self.cols@, 0, kn, k as int);
                }
            }
            // Clear the marks.
            let next_tag = plus(plus(tag, max_degree)?, 1)?;
            tag = self.clear(next_tag, ncols, imax);
            // Finalize the scores.
            let ghost c6 = self.cols@;
            // The columns killed for being empty leave the pivot row degree as they
            // join the ordered columns.
            assert(degree == built - (k - kn));
            let (pos, ms) = self.finalize_scores(
                start,
                stop,
                pivot_row,
                degree,
                ncols,
                k,
                min_score,
            )?;
            proof {
                lemma_thickness_same(self.cols@, c6, n);
                if settled {
                    lemma_steady_kept(first, c6, self.cols@);
                }
                if pre && settled {
                    let kk = k as int;
                    assert(outside(first, c6, kk, kk));
                    lemma_ranked_add(first, c6, self.cols@, kk, kk, kk, kk, kk, kk);
                    lemma_held_keep(first, c6, self.cols@, 0, kk);
                }
            }
            min_score = ms;
            if degree > 0 {
                let mut row = self.row_at(pivot_row)?;
                row.start = start;
                row.length = minus(pos, start)?;
                row.degree = degree;
                row.mark = 0;
                self.set_row(pivot_row, row)?;
                // The new pivot row holds the compacted pivot row, with the degree left
                // once the empty columns are ordered, and no external degree yet.
                assert(self.rows@[pivot_row as int].start == start && self.rows@[pivot_row as int].length
                    == pos - start && self.rows@[pivot_row as int].degree == built - (k - kn)
                    && self.rows@[pivot_row as int].mark == 0);
            }
        }
        proof {
            if pre {
                assert forall|c: int| 0 <= c < n implies #[trigger] self.cols@[c].start < 0 by {
                    lemma_thickness_alive(self.cols@, n, c);
                }
                lemma_thickness_alive(self.cols@, n, 0);
            }
        }
        Ok(())
    }
}

} // verus!
