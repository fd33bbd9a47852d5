//! Final step of COLAMD: give each column merged into another one a place next to
//! it, then invert the placement into the column ordering.
use vstd::prelude::*;

use super::col::ColamdCol;
use super::access::{fails_internally, inconsistent, plus, position};
use super::error::ColamdError;
use super::integer::ColamdInt;
use super::{array_error, Colamd, EMPTY};
use crate::array::Array;

verus! {

/// `s` orders the columns `0..n`: it holds each of them exactly once.
pub open spec fn is_permutation<I: ColamdInt>(s: Seq<I>, n: int) -> bool {
    &&& s.len() == n
    &&& forall|i: int| 0 <= i < n ==> 0 <= #[trigger] s[i].value() < n
    &&& forall|i: int, j: int|
        0 <= i < n && 0 <= j < n && i != j ==> #[trigger] s[i].value() != #[trigger] s[j].value()
}

/// Column record `col` is merged into another column (or alive) and has no rank yet.
pub open spec fn unordered_merged(col: ColamdCol) -> bool {
    col.start != -1 && col.rank == EMPTY
}

/// Column record `col` is a dead principal column.
pub open spec fn principal(col: ColamdCol) -> bool {
    col.start == -1
}

/// The number of merged columns among `0..k` of `cols` whose principal column,
/// given by `root`, is `p`.
pub open spec fn members_below(cols: Seq<ColamdCol>, root: Seq<int>, p: int, k: int) -> nat
    decreases k,
{
    if k <= 0 {
        0
    } else {
        members_below(cols, root, p, k - 1) + if unordered_merged(cols[k - 1]) && root[k - 1] == p {
            1nat
        } else {
            0nat
        }
    }
}

/// The columns `cols` of an `n`-column matrix form supercolumns once eliminated:
/// every column is dead principal or merged without rank; a principal column `p` of
/// rank `rank` and weight `w` owns the ranks `rank..rank + w`, disjoint from those of
/// the others, and `w - 1` merged columns, those whose principal column `root` names;
/// following the weights from a merged column reaches its principal column, through
/// merged columns of decreasing `height`.
pub open spec fn partition_with(
    cols: Seq<ColamdCol>,
    n: int,
    root: Seq<int>,
    height: Seq<int>,
) -> bool {
    &&& n <= cols.len()
    &&& root.len() == n
    &&& height.len() == n
    &&& forall|c: int|
        #![trigger cols[c]]
        0 <= c < n ==> principal(cols[c]) || unordered_merged(cols[c])
    &&& forall|p: int|
        #![trigger cols[p]]
        0 <= p < n && principal(cols[p]) ==> {
            &&& 0 <= cols[p].rank
            &&& 1 <= cols[p].weight
            &&& cols[p].rank + cols[p].weight <= n
            &&& cols[p].weight == 1 + members_below(cols, root, p, n)
        }
    &&& forall|c: int|
        #![trigger root[c]]
        0 <= c < n && unordered_merged(cols[c]) ==> {
            let w = cols[c].weight as int;
            &&& 0 <= root[c] < n
            &&& principal(cols[root[c]])
            &&& 1 <= height[c] < n
            &&& 0 <= w < n
            &&& (principal(cols[w]) && w == root[c]) || (unordered_merged(cols[w]) && height[w]
                < height[c] && root[w] == root[c])
        }
    &&& forall|p: int, q: int|
        #![trigger cols[p], cols[q]]
        0 <= p < n && 0 <= q < n && p != q && principal(cols[p]) && principal(cols[q]) ==> cols[p].rank
            + cols[p].weight <= cols[q].rank || cols[q].rank + cols[q].weight <= cols[p].rank
}

/// The rank that ordering the supercolumns gives column `c`: the merged columns of
/// a principal column take its first ranks in increasing column order, and the
/// principal column the last one.
pub open spec fn final_rank(cols: Seq<ColamdCol>, root: Seq<int>, c: int) -> int {
    if principal(cols[c]) {
        cols[c].rank + cols[c].weight - 1
    } else {
        cols[root[c]].rank + members_below(cols, root, root[c], c)
    }
}

/// Counting merged columns further on counts at least as many.
pub proof fn lemma_members_mono(cols: Seq<ColamdCol>, root: Seq<int>, p: int, a: int, b: int)
    requires
        a <= b,
    ensures
        members_below(cols, root, p, a) <= members_below(cols, root, p, b),
    decreases b - a,
{
    if a < b {
        lemma_members_mono(cols, root, p, a, b - 1);
    }
}

/// In a partition, the ranks that ordering the supercolumns gives are in `0..n` and
/// pairwise distinct.
pub proof fn lemma_final_ranks(cols: Seq<ColamdCol>, n: int, root: Seq<int>, height: Seq<int>)
    requires
        partition_with(cols, n, root, height),
    ensures
        forall|c: int| 0 <= c < n ==> 0 <= #[trigger] final_rank(cols, root, c) < n,
        forall|a: int, b: int|
            0 <= a < n && 0 <= b < n && a != b ==> #[trigger] final_rank(cols, root, a)
                != #[trigger] final_rank(cols, root, b),
{
    assert forall|c: int| 0 <= c < n implies {
        let p = if principal(cols[c]) { c } else { root[c] };
        &&& 0 <= p < n
        &&& principal(cols[p])
        &&& cols[p].rank <= #[trigger] final_rank(cols, root, c) < cols[p].rank + cols[p].weight
        &&& unordered_merged(cols[c]) ==> final_rank(cols, root, c) < cols[p].rank + cols[p].weight
            - 1
    } by {
        assert(principal(cols[c]) || unordered_merged(cols[c]));
        if unordered_merged(cols[c]) {
            let p = root[c];
            assert(0 <= root[c] < n);
            lemma_members_mono(cols, root, p, c + 1, n);
            assert(members_below(cols, root, p, c + 1) == members_below(cols, root, p, c) + 1);
        }
    }
    assert forall|a: int, b: int|
        0 <= a < n && 0 <= b < n && a != b implies #[trigger] final_rank(cols, root, a)
        != #[trigger] final_rank(cols, root, b) by {
        let pa = if principal(cols[a]) { a } else { root[a] };
        let pb = if principal(cols[b]) { b } else { root[b] };
        assert(principal(cols[a]) || unordered_merged(cols[a]));
        assert(principal(cols[b]) || unordered_merged(cols[b]));
        if unordered_merged(cols[a]) {
            assert(0 <= root[a] < n);
        }
        if unordered_merged(cols[b]) {
            assert(0 <= root[b] < n);
        }
        if pa == pb {
            if unordered_merged(cols[a]) && unordered_merged(cols[b]) {
                if a < b {
                    lemma_members_mono(cols, root, pa, a + 1, b);
                    assert(members_below(cols, root, pa, a + 1) == members_below(cols, root, pa, a) + 1);
                } else {
                    lemma_members_mono(cols, root, pa, b + 1, a);
                    assert(members_below(cols, root, pa, b + 1) == members_below(cols, root, pa, b) + 1);
                }
            }
        } else {
            assert(cols[pa].rank <= final_rank(cols, root, a) < cols[pa].rank + cols[pa].weight);
            assert(cols[pb].rank <= final_rank(cols, root, b) < cols[pb].rank + cols[pb].weight);
            assert(principal(cols[pa]) && principal(cols[pb]));
        }
    }
}

/// The columns `cols` of an `n`-column matrix form supercolumns once eliminated, as
/// `partition_with` says for some principal columns and heights.
pub open spec fn partitioned(cols: Seq<ColamdCol>, n: int) -> bool {
    exists|rh: (Seq<int>, Seq<int>)| partition_with(cols, n, rh.0, rh.1)
}

/// Principal columns and heights under which `cols` form supercolumns, when they do.
pub open spec fn partition_of(cols: Seq<ColamdCol>, n: int) -> (Seq<int>, Seq<int>) {
    choose|rh: (Seq<int>, Seq<int>)| partition_with(cols, n, rh.0, rh.1)
}

/// No column of `cols` other than a dead principal one names column `p` as the
/// column it is merged into.
pub open spec fn unnamed(cols: Seq<ColamdCol>, p: int) -> bool {
    forall|c: int| #![trigger cols[c]] 0 <= c < cols.len() && cols[c].start != -1 ==> cols[c].weight != p
}

/// Column `p` of `cols` is dead and principal, and no column is merged into it.
pub open spec fn alone(cols: Seq<ColamdCol>, p: int) -> bool {
    &&& 0 <= p < cols.len()
    &&& cols[p].start == -1
    &&& unnamed(cols, p)
}

/// `now` and `before` agree on the position, length and list links of a column.
pub open spec fn same_links(now: ColamdCol, before: ColamdCol) -> bool {
    &&& now.start == before.start
    &&& now.length == before.length
    &&& now.prev == before.prev
    &&& now.next == before.next
}

/// Column `c` of `cols` has as weight a column `p` that was a dead principal column
/// in `before`, and a rank below that of `p`.
pub open spec fn placed(cols: Seq<ColamdCol>, before: Seq<ColamdCol>, c: int) -> bool {
    let p = cols[c].weight;
    &&& 0 <= p < before.len()
    &&& before[p as int].start == -1
    &&& cols[c].rank < cols[p as int].rank
}

/// The number of slots among the first `m` of `s` that hold a non-negative value.
pub open spec fn filled<I: ColamdInt>(s: Seq<I>, m: nat) -> nat
    decreases m,
{
    if m == 0 {
        0
    } else {
        filled(s, (m - 1) as nat) + if s[m - 1].value() >= 0 {
            1nat
        } else {
            0nat
        }
    }
}

/// Sequences that agree on their first `m` slots have as many of them filled.
proof fn lemma_filled_same<I: ColamdInt>(s: Seq<I>, t: Seq<I>, m: nat)
    requires
        forall|i: int| 0 <= i < m ==> s[i] == t[i],
    ensures
        filled(s, m) == filled(t, m),
    decreases m,
{
    if m > 0 {
        lemma_filled_same(s, t, (m - 1) as nat);
    }
}

/// Filling an empty slot among the first `m` adds one filled slot.
proof fn lemma_filled_update<I: ColamdInt>(s: Seq<I>, p: int, v: I, m: nat)
    requires
        0 <= p < m <= s.len(),
        s[p].value() < 0,
        v.value() >= 0,
    ensures
        filled(s.update(p, v), m) == filled(s, m) + 1,
    decreases m,
{
    let t = s.update(p, v);
    if p < m - 1 {
        lemma_filled_update(s, p, v, (m - 1) as nat);
    } else {
        lemma_filled_same(s, t, (m - 1) as nat);
    }
}

/// With no slot filled, the count is zero.
proof fn lemma_filled_empty<I: ColamdInt>(s: Seq<I>, m: nat)
    requires
        m <= s.len(),
        forall|i: int| 0 <= i < m ==> #[trigger] s[i].value() < 0,
    ensures
        filled(s, m) == 0,
    decreases m,
{
    if m > 0 {
        lemma_filled_empty(s, (m - 1) as nat);
    }
}

/// When all of the first `m` slots are counted, each of them is filled.
proof fn lemma_filled_full<I: ColamdInt>(s: Seq<I>, m: nat)
    requires
        filled(s, m) == m,
    ensures
        forall|i: int| 0 <= i < m ==> #[trigger] s[i].value() >= 0,
    decreases m,
{
    if m > 0 {
        lemma_filled_le(s, (m - 1) as nat);
        lemma_filled_full(s, (m - 1) as nat);
    }
}

/// At most `m` of the first `m` slots are filled.
proof fn lemma_filled_le<I: ColamdInt>(s: Seq<I>, m: nat)
    ensures
        filled(s, m) <= m,
    decreases m,
{
    if m > 0 {
        lemma_filled_le(s, (m - 1) as nat);
    }
}

impl<I: ColamdInt> Colamd<I> {
    /// Place each column merged into another one right after the columns placed
    /// so far with its principal column, the first dead principal column reached by
    /// following the merges.
    fn place_merged(&mut self, n: i64, Ghost(root): Ghost<Seq<int>>, Ghost(height): Ghost<Seq<int>>) -> (r: Result<(), ColamdError<I>>)
        requires
            old(self).wf(),
            0 <= n,
        ensures
            old(self).same_shape(final(self)),
            fails_internally(r),
            r is Ok ==> {
                &&& final(self).rows == old(self).rows
                &&& final(self).inds == old(self).inds
                &&& final(self).degree == old(self).degree
                &&& final(self).cols@.len() == old(self).cols@.len()
                &&& forall|c: int|
                    #![trigger final(self).cols@[c]]
                    0 <= c < old(self).cols@.len() ==> same_links(
                        final(self).cols@[c],
                        old(self).cols@[c],
                    )
                &&& forall|c: int|
                    #![trigger final(self).cols@[c]]
                    0 <= c < old(self).cols@.len() && old(self).cols@[c].start != -1
                        && old(self).cols@[c].rank != EMPTY ==> final(self).cols@[c]
                        == old(self).cols@[c]
                &&& forall|c: int|
                    #![trigger final(self).cols@[c]]
                    0 <= c < old(self).cols@.len() && old(self).cols@[c].start == -1
                        ==> final(self).cols@[c].rank >= old(self).cols@[c].rank
                &&& forall|c: int|
                    #![trigger final(self).cols@[c]]
                    0 <= c < n && c < old(self).cols@.len() && unordered_merged(old(self).cols@[c])
                        ==> placed(final(self).cols@, old(self).cols@, c)
            },
            r is Ok ==> forall|p: int|
                #![trigger final(self).cols@[p]]
                alone(old(self).cols@, p) ==> final(self).cols@[p] == old(self).cols@[p],
            partition_with(old(self).cols@, n as int, root, height) ==> {
                &&& r is Ok
                &&& forall|c: int|
                    #![trigger final(self).cols@[c]]
                    0 <= c < n ==> final(self).cols@[c].rank == final_rank(
                        old(self).cols@,
                        root,
                        c,
                    )
            },
    {
        let ghost cols0 = self.cols@;
        let ghost part = partition_with(cols0, n as int, root, height);
        let mut k: i64 = 0;
        while k < n
            invariant
                old(self).same_shape(self),
                0 <= k <= n,
                cols0 == old(self).cols@,
                part == partition_with(cols0, n as int, root, height),
                self.rows == old(self).rows,
                self.inds == old(self).inds,
                self.degree == old(self).degree,
                self.cols@.len() == cols0.len(),
                forall|c: int|
                    #![trigger self.cols@[c]]
                    0 <= c < cols0.len() ==> same_links(self.cols@[c], cols0[c]),
                forall|c: int|
                    #![trigger self.cols@[c]]
                    0 <= c < cols0.len() && cols0[c].start != -1 && cols0[c].rank != EMPTY
                        ==> self.cols@[c] == cols0[c],
                forall|c: int|
                    #![trigger self.cols@[c]]
                    k <= c < cols0.len() && cols0[c].start != -1 ==> self.cols@[c] == cols0[c],
                forall|c: int|
                    #![trigger self.cols@[c]]
                    0 <= c < cols0.len() && cols0[c].start == -1 ==> self.cols@[c].rank
                        >= cols0[c].rank,
                forall|c: int|
                    #![trigger self.cols@[c]]
                    0 <= c < k && c < cols0.len() && unordered_merged(cols0[c]) ==> placed(
                        self.cols@,
                        cols0,
                        c,
                    ),
                part ==> forall|p: int|
                    #![trigger self.cols@[p]]
                    0 <= p < n && principal(cols0[p]) ==> self.cols@[p].rank == cols0[p].rank
                        + members_below(cols0, root, p, k as int) && self.cols@[p].weight
                        == cols0[p].weight,
                part ==> forall|c: int|
                    #![trigger self.cols@[c]]
                    0 <= c < k && unordered_merged(cols0[c]) ==> self.cols@[c].weight == root[c]
                        && self.cols@[c].rank == final_rank(cols0, root, c),
                forall|p: int|
                    #![trigger self.cols@[p]]
                    alone(cols0, p) ==> self.cols@[p] == cols0[p] && unnamed(self.cols@, p),
            decreases n - k,
        {
            let col = self.col_at(k)?;
            if !col.dead_principal() && col.rank == EMPTY {
                let ghost snap = self.cols@;
                assert(col == cols0[k as int]);
                proof {
                    if part {
                        assert(principal(cols0[k as int]) || unordered_merged(cols0[k as int]));
                        assert(unordered_merged(cols0[k as int]));
                        assert(0 <= root[k as int] < n);
                    }
                }
                // Find the principal column.
                let mut parent = k;
                let mut fuel = n;
                loop
                    invariant_except_break
                        snap[parent as int].start != -1,
                        forall|p: int| #![trigger snap[p]] alone(cols0, p) ==> parent != p,
                        part ==> {
                            &&& 0 <= parent < n
                            &&& unordered_merged(cols0[parent as int])
                            &&& root[parent as int] == root[k as int]
                            &&& 1 <= height[parent as int] <= fuel
                        },
                    invariant
                        old(self).same_shape(self),
                        self.cols@ == snap,
                        self.rows == old(self).rows,
                        self.inds == old(self).inds,
                        self.degree == old(self).degree,
                        0 <= k < n,
                        snap.len() == cols0.len(),
                        cols0 == old(self).cols@,
                        part == partition_with(cols0, n as int, root, height),
                        forall|c: int|
                            #![trigger snap[c]]
                            0 <= c < cols0.len() ==> same_links(snap[c], cols0[c]),
                        forall|c: int|
                            #![trigger snap[c]]
                            k <= c < cols0.len() && cols0[c].start != -1 ==> snap[c] == cols0[c],
                        part ==> forall|c: int|
                            #![trigger snap[c]]
                            0 <= c < k && unordered_merged(cols0[c]) ==> snap[c].weight
                                == root[c],
                        forall|p: int|
                            #![trigger snap[p]]
                            alone(cols0, p) ==> snap[p] == cols0[p] && unnamed(snap, p),
                    ensures
                        0 <= parent < snap.len(),
                        snap[parent as int].start == -1,
                        part ==> parent == root[k as int],
                        forall|p: int| #![trigger snap[p]] alone(cols0, p) ==> parent != p,
                    decreases fuel,
                {
                    if fuel <= 0 {
                        return Err(inconsistent());
                    }
                    fuel = fuel - 1;
                    let ghost before = parent;
                    parent = self.col_at(parent)?.weight;
                    proof {
                        if part {
                            let b = before as int;
                            assert(0 <= root[b] < n);
                            if b >= k {
                                assert(snap[b] == cols0[b]);
                            } else {
                                assert(snap[b].weight == root[b]);
                            }
                            assert(0 <= parent < n);
                            assert(snap[parent as int].start == cols0[parent as int].start);
                        }
                    }
                    proof {
                        assert forall|p: int|
                            #![trigger snap[p]]
                            alone(cols0, p) implies snap[p] == cols0[p] && unnamed(snap, p)
                            && parent != p by {
                            assert(snap[p] == cols0[p]);
                            assert(unnamed(snap, p));
                            assert(snap[before as int].start != -1);
                        }
                    }
                    assert(forall|p: int|
                        #![trigger snap[p]]
                        alone(cols0, p) ==> snap[p] == cols0[p] && unnamed(snap, p) && parent != p);
                    if self.col_at(parent)?.dead_principal() {
                        proof {
                            if part {
                                let b = before as int;
                                if b >= k {
                                    assert(snap[b] == cols0[b]);
                                    assert(!unordered_merged(cols0[parent as int]));
                                }
                            }
                        }
                        break ;
                    }
                }
                // Place the column.
                let mut j = k;
                let mut order = self.col_at(parent)?.rank;
                let ghost r0 = order;
                proof {
                    if part {
                        let p = parent as int;
                        assert(principal(cols0[p]));
                        assert(snap[p].rank == cols0[p].rank + members_below(cols0, root, p, k as int));
                        lemma_members_mono(cols0, root, p, k + 1, n as int);
                        assert(members_below(cols0, root, p, k + 1) == members_below(cols0, root, p, k as int) + 1);
                        assert(r0 + 1 < n);
                    }
                }
                let ghost mut done = false;
                let mut fuel = n;
                loop
                    invariant_except_break
                        part ==> !done,
                        forall|p: int|
                            #![trigger self.cols@[p]]
                            alone(cols0, p) ==> self.cols@[p] == cols0[p] && unnamed(
                                self.cols@,
                                p,
                            ),
                    invariant
                        old(self).same_shape(self),
                        self.rows == old(self).rows,
                        self.inds == old(self).inds,
                        self.degree == old(self).degree,
                        self.cols@.len() == snap.len(),
                        snap.len() == cols0.len(),
                        0 <= k < snap.len(),
                        k < n,
                        0 <= parent < snap.len(),
                        snap[parent as int].start == -1,
                        snap[parent as int].rank == r0,
                        snap[k as int] == cols0[k as int],
                        cols0[k as int].start != -1,
                        cols0 == old(self).cols@,
                        part == partition_with(cols0, n as int, root, height),
                        part ==> 0 <= r0 && r0 + 1 < n && parent != k,
                        !done ==> fuel == n,
                        forall|c: int|
                            #![trigger snap[c]]
                            0 <= c < snap.len() ==> same_links(snap[c], cols0[c]),
                        forall|c: int|
                            #![trigger snap[c]]
                            0 <= c < k && c < cols0.len() && unordered_merged(cols0[c]) ==> placed(
                                snap,
                                cols0,
                                c,
                            ),
                        forall|c: int|
                            #![trigger self.cols@[c]]
                            0 <= c < snap.len() ==> same_links(self.cols@[c], snap[c]),
                        forall|c: int|
                            #![trigger self.cols@[c]]
                            0 <= c < snap.len() && c != k && c != parent ==> self.cols@[c]
                                == snap[c],
                        !done ==> j == k && order == r0 && self.cols@ == snap,
                        forall|p: int|
                            #![trigger snap[p]]
                            alone(cols0, p) ==> snap[p] == cols0[p] && unnamed(snap, p)
                                && parent != p,

                        done ==> j == parent && order > r0 && self.cols@[k as int].weight
                            == parent && self.cols@[k as int].rank == r0,
                        part && done ==> order == r0 + 1,
                    ensures
                        done,
                        forall|p: int|
                            #![trigger self.cols@[p]]
                            alone(cols0, p) ==> self.cols@[p] == cols0[p] && unnamed(
                                self.cols@,
                                p,
                            ),
                        part ==> self.cols@ == snap.update(
                            k as int,
                            ColamdCol { rank: r0, weight: parent, ..snap[k as int] },
                        ),
                    decreases fuel,
                {
                    if fuel <= 0 {
                        return Err(inconsistent());
                    }
                    fuel = fuel - 1;
                    let mut c = self.col_at(j)?;
                    c.rank = order;
                    order = plus(order, 1)?;
                    c.weight = parent;
                    let ghost bc = self.cols@;
                    self.set_col(j, c)?;
                    proof {
                        assert forall|p: int|
                            #![trigger self.cols@[p]]
                            alone(cols0, p) implies self.cols@[p] == cols0[p] && unnamed(
                            self.cols@,
                            p,
                        ) by {
                            assert(snap[p] == cols0[p]);
                            assert(parent != p);
                            assert(j != p);
                            assert(bc[p] == cols0[p]);
                            assert(self.cols@ == bc.update(j as int, c));
                            assert(self.cols@[p] == bc[p]);
                            assert(unnamed(bc, p));
                            assert forall|x: int|
                                #![trigger self.cols@[x]]
                                0 <= x < self.cols@.len() && self.cols@[x].start != -1 implies self.cols@[x].weight
                                != p by {
                                if x != j {
                                    assert(self.cols@[x] == bc[x]);
                                }
                            }
                        }
                    }
                    proof {
                        done = true;
                    }
                    assert(self.cols@[j as int] == c);
                    j = self.col_at(j)?.weight;
                    if self.col_at(j)?.rank != EMPTY {
                        break ;
                    }
                }
                let mut pc = self.col_at(parent)?;
                pc.rank = order;
                self.set_col(parent, pc)?;
                proof {
                    assert forall|c: int|
                        0 <= c < k + 1 && c < cols0.len() && unordered_merged(cols0[c]) implies placed(
                        self.cols@,
                        cols0,
                        c,
                    ) by {
                        if c == k {
                            assert(parent != k);
                            assert(self.cols@[k as int].weight == parent);
                            assert(cols0[parent as int].start == -1);
                        } else {
                            assert(snap[c].start != -1);
                            assert(self.cols@[c] == snap[c]);
                            assert(placed(snap, cols0, c));
                        }
                    }
                    if part {
                        let p0 = parent as int;
                        assert forall|p: int|
                            0 <= p < n && principal(cols0[p]) implies self.cols@[p].rank
                            == cols0[p].rank + members_below(cols0, root, p, k + 1)
                            && self.cols@[p].weight == cols0[p].weight by {
                            assert(members_below(cols0, root, p, k + 1) == members_below(cols0, root, p, k as int) + if unordered_merged(cols0[k as int]) && root[k as int] == p { 1nat } else { 0nat });
                            if p != p0 {
                                assert(p != k);
                                assert(self.cols@[p] == snap[p]);
                            }
                        }
                        assert forall|c: int|
                            0 <= c < k + 1 && unordered_merged(cols0[c]) implies self.cols@[c].weight
                            == root[c] && self.cols@[c].rank == final_rank(cols0, root, c) by {
                            if c != k {
                                assert(self.cols@[c] == snap[c]);
                            }
                        }
                    }
                }
            } else {
                proof {
                    if part {
                        assert(!unordered_merged(cols0[k as int]));
                        assert forall|p: int|
                            0 <= p < n && principal(cols0[p]) implies self.cols@[p].rank
                            == cols0[p].rank + members_below(cols0, root, p, k + 1)
                            && self.cols@[p].weight == cols0[p].weight by {
                            assert(members_below(cols0, root, p, k + 1) == members_below(cols0, root, p, k as int));
                        }
                    }
                }
            }
            k = k + 1;
        }
        proof {
            if part {
                assert forall|c: int| 0 <= c < n implies #[trigger] self.cols@[c].rank == final_rank(cols0, root, c) by {
                    assert(principal(cols0[c]) || unordered_merged(cols0[c]));
                }
            }
        }
        Ok(())
    }

    /// Compute the column ordering: position `rank` of the ordering holds the column
    /// of that rank. Fails when two columns share a rank or a rank lies outside
    /// `0..ncols`. When the eliminated columns form supercolumns, it fails only for
    /// want of memory, and each supercolumn takes its ranks with its merged columns
    /// first, in increasing column order, and its principal column last.
    pub(crate) fn order(&mut self, ncols: I) -> (r: Result<Array<I>, ColamdError<I>>)
        requires
            old(self).wf(),
            0 < ncols.value() <= isize::MAX,
        ensures
            old(self).same_shape(final(self)),
            fails_internally(r),
            r matches Ok(o) ==> o.wf() && is_permutation(o@, ncols.value()),
            r matches Ok(o) ==> forall|p: int|
                #![trigger old(self).cols@[p]]
                0 <= p < ncols.value() && alone(old(self).cols@, p) ==> o@[old(
                    self,
                ).cols@[p].rank as int].value() == p,
            partitioned(old(self).cols@, ncols.value()) ==> {
                &&& r matches Err(e) ==> e.error_kind() is ArrayError
                &&& r matches Ok(o) ==> forall|c: int|
                    0 <= c < ncols.value() ==> (#[trigger] o@[final_rank(
                        old(self).cols@,
                        partition_of(old(self).cols@, ncols.value()).0,
                        c,
                    )]).value() == c
            },
    {
        let n = ncols.to_i64();
        let ghost cols0 = self.cols@;
        let ghost part = partitioned(cols0, n as int);
        let ghost root = partition_of(cols0, n as int).0;
        let ghost height = partition_of(cols0, n as int).1;
        self.place_merged(n, Ghost(root), Ghost(height))?;
        proof {
            if part {
                assert(partition_with(cols0, n as int, root, height));
                lemma_final_ranks(cols0, n as int, root, height);
            }
        }
        let nu = ncols.as_usize();
        let mut order: Array<I> = match Array::new(nu) {
            Ok(a) => a,
            Err(e) => return Err(array_error(e)),
        };
        proof {
            ncols.lemma_bounds();
            I::lemma_of(-1);
        }
        let empty = I::from_i64(EMPTY);
        match order.resize(nu, empty) {
            Ok(()) => {},
            Err(e) => return Err(array_error(e)),
        }
        proof {
            lemma_filled_empty(order@, nu as nat);
        }
        let ghost cols = self.cols@;
        let mut j: i64 = 0;
        while j < n
            invariant
                old(self).same_shape(self),
                self.cols@ == cols,
                cols0 == old(self).cols@,
                part == partitioned(cols0, n as int),
                root == partition_of(cols0, n as int).0,
                part ==> n <= cols.len(),
                I::min_value() <= -1,
                0 <= j <= n == nu == ncols.value(),
                ncols.value() <= I::max_value(),
                order.wf(),
                order@.len() == nu,
                filled(order@, nu as nat) == j,
                forall|s: int|
                    #![trigger order@[s]]
                    0 <= s < nu ==> order@[s].value() == -1 || (0 <= order@[s].value() < j
                        && cols[order@[s].value()].rank == s),
                forall|c: int|
                    #![trigger cols[c]]
                    0 <= c < j ==> 0 <= cols[c].rank < nu && order@[cols[c].rank as int].value() == c,
                forall|p: int|
                    #![trigger cols0[p]]
                    alone(cols0, p) ==> cols[p] == cols0[p],
                part ==> forall|c: int|
                    #![trigger cols[c]]
                    0 <= c < n ==> cols[c].rank == final_rank(cols0, root, c),
                part ==> forall|c: int|
                    0 <= c < n ==> 0 <= #[trigger] final_rank(cols0, root, c) < n,
                part ==> forall|a: int, b: int|
                    0 <= a < n && 0 <= b < n && a != b ==> #[trigger] final_rank(cols0, root, a)
                        != #[trigger] final_rank(cols0, root, b),
            decreases n - j,
        {
            let rank = self.col_at(j)?;
            let rank = rank.rank;
            proof {
                if part {
                    assert(cols[j as int].rank == final_rank(cols0, root, j as int));
                }
            }
            let slot = position(rank, nu)?;
            if order.get(slot).to_i64() != EMPTY {
                proof {
                    if part {
                        let v = order@[slot as int].value();
                        assert(cols[v].rank == slot);
                        assert(final_rank(cols0, root, v) == final_rank(cols0, root, j as int));
                    }
                }
                return Err(inconsistent());
            }
            proof {
                I::lemma_of(j as int);
            }
            let v = I::from_i64(j);
            proof {
                lemma_filled_update(order@, slot as int, v, nu as nat);
            }
            order.set(slot, v);
            j = j + 1;
        }
        proof {
            lemma_filled_full(order@, nu as nat);
            assert forall|a: int, b: int|
                0 <= a < n && 0 <= b < n && a != b implies #[trigger] order@[a].value()
                != #[trigger] order@[b].value() by {
                assert(order@[a].value() >= 0);
                assert(order@[b].value() >= 0);
            }
            if part {
                assert forall|c: int| 0 <= c < n implies (#[trigger] order@[final_rank(cols0, root, c)]).value() == c by {
                    let s = final_rank(cols0, root, c);
                    assert(order@[s].value() >= 0);
                    let v = order@[s].value();
                    assert(cols[v].rank == s);
                    assert(cols[c].rank == s);
                }
            }
        }
        Ok(order)
    }
}

} // verus!
