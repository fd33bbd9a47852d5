//! Checked access to the COLAMD workspace during the ordering phase.
//!
//! The ordering phase follows pointers stored in the workspace itself. Every access
//! checks that the pointer lies within its array and every sum that it does not
//! overflow; a failed check reports an inconsistent workspace instead of panicking.
use vstd::prelude::*;

use super::col::ColamdCol;
use super::error::{ColamdError, ColamdErrorKind};
use super::integer::ColamdInt;
use super::row::ColamdRow;
use super::Colamd;

verus! {

/// The error reported when the workspace does not hold the expected structure.
pub fn inconsistent<I: ColamdInt>() -> (r: ColamdError<I>)
    ensures
        r.error_kind() == ColamdErrorKind::InconsistentWorkspace::<I>,
{
    ColamdError::from_kind(ColamdErrorKind::InconsistentWorkspace)
}

/// Any failure of `r` reports an inconsistent workspace or an array error.
pub open spec fn fails_internally<T, I: ColamdInt>(r: Result<T, ColamdError<I>>) -> bool {
    r matches Err(e) ==> (e.error_kind() is InconsistentWorkspace || e.error_kind() is ArrayError)
}

/// `a + b`, or an inconsistent workspace error when it overflows.
pub fn plus<I: ColamdInt>(a: i64, b: i64) -> (r: Result<i64, ColamdError<I>>)
    ensures
        r matches Ok(s) ==> s == a + b,
        (i64::MIN <= a + b <= i64::MAX) == (r is Ok),
        r matches Err(e) ==> e.error_kind() is InconsistentWorkspace,
{
    match a.checked_add(b) {
        Some(s) => Ok(s),
        None => Err(inconsistent()),
    }
}

/// `a - b`, or an inconsistent workspace error when it overflows.
pub fn minus<I: ColamdInt>(a: i64, b: i64) -> (r: Result<i64, ColamdError<I>>)
    ensures
        r matches Ok(s) ==> s == a - b,
        (i64::MIN <= a - b <= i64::MAX) == (r is Ok),
        r matches Err(e) ==> e.error_kind() is InconsistentWorkspace,
{
    match a.checked_sub(b) {
        Some(s) => Ok(s),
        None => Err(inconsistent()),
    }
}

/// Convert `i` into a position within `0..len`, when it lies there.
pub fn position<I: ColamdInt>(i: i64, len: usize) -> (r: Result<usize, ColamdError<I>>)
    ensures
        r matches Ok(p) ==> p == i && 0 <= i < len,
        (0 <= i < len) ==> r is Ok,
        r matches Err(e) ==> e.error_kind() is InconsistentWorkspace,
{
    if i < 0 {
        return Err(inconsistent());
    }
    let u = i as u64;
    if u >= len as u64 {
        return Err(inconsistent());
    }
    Ok(u as usize)
}

impl<I: ColamdInt> Colamd<I> {
    /// `next` is `self` with the same configuration and capacities, and is well formed.
    pub(crate) open spec fn same_shape(&self, next: &Self) -> bool {
        &&& next.wf()
        &&& next.config == self.config
        &&& next.rows.cap() == self.rows.cap()
        &&& next.cols.cap() == self.cols.cap()
        &&& next.inds.cap() == self.inds.cap()
        &&& next.degree.cap() == self.degree.cap()
    }

    /// Return column record `j`.
    pub(crate) fn col_at(&self, j: i64) -> (r: Result<ColamdCol, ColamdError<I>>)
        ensures
            r matches Ok(c) ==> 0 <= j < self.cols@.len() && c == self.cols@[j as int],
            (0 <= j < self.cols@.len()) == (r is Ok),
            r matches Err(e) ==> e.error_kind() is InconsistentWorkspace,
    {
        let p = position(j, self.cols.length())?;
        Ok(self.cols.get(p))
    }

    /// Replace column record `j`.
    pub(crate) fn set_col(&mut self, j: i64, c: ColamdCol) -> (r: Result<(), ColamdError<I>>)
        requires
            old(self).wf(),
        ensures
            old(self).same_shape(final(self)),
            final(self).rows == old(self).rows,
            final(self).inds == old(self).inds,
            final(self).degree == old(self).degree,
            final(self).cols@.len() == old(self).cols@.len(),
            (0 <= j < old(self).cols@.len()) == (r is Ok),
            r is Ok ==> 0 <= j < old(self).cols@.len() && final(self).cols@ == old(
                self,
            ).cols@.update(j as int, c),
            r matches Err(e) ==> e.error_kind() is InconsistentWorkspace,
    {
        let p = position(j, self.cols.length())?;
        self.cols.set(p, c);
        Ok(())
    }

    /// Return row record `i`.
    pub(crate) fn row_at(&self, i: i64) -> (r: Result<ColamdRow, ColamdError<I>>)
        ensures
            r matches Ok(c) ==> 0 <= i < self.rows@.len() && c == self.rows@[i as int],
            (0 <= i < self.rows@.len()) == (r is Ok),
            r matches Err(e) ==> e.error_kind() is InconsistentWorkspace,
    {
        let p = position(i, self.rows.length())?;
        Ok(self.rows.get(p))
    }

    /// Replace row record `i`.
    pub(crate) fn set_row(&mut self, i: i64, c: ColamdRow) -> (r: Result<(), ColamdError<I>>)
        requires
            old(self).wf(),
        ensures
            old(self).same_shape(final(self)),
            final(self).cols == old(self).cols,
            final(self).inds == old(self).inds,
            final(self).degree == old(self).degree,
            final(self).rows@.len() == old(self).rows@.len(),
            (0 <= i < old(self).rows@.len()) == (r is Ok),
            r is Ok ==> 0 <= i < old(self).rows@.len() && final(self).rows@ == old(
                self,
            ).rows@.update(i as int, c),
            r matches Err(e) ==> e.error_kind() is InconsistentWorkspace,
    {
        let p = position(i, self.rows.length())?;
        self.rows.set(p, c);
        Ok(())
    }

    /// Return the index stored at position `p`.
    pub(crate) fn ind_at(&self, p: i64) -> (r: Result<i64, ColamdError<I>>)
        ensures
            r matches Ok(v) ==> 0 <= p < self.inds@.len() && v == self.inds@[p as int],
            (0 <= p < self.inds@.len()) == (r is Ok),
            r matches Err(e) ==> e.error_kind() is InconsistentWorkspace,
    {
        let u = position(p, self.inds.length())?;
        Ok(self.inds.get(u))
    }

    /// Store an index at position `p`.
    pub(crate) fn set_ind(&mut self, p: i64, v: i64) -> (r: Result<(), ColamdError<I>>)
        requires
            old(self).wf(),
        ensures
            old(self).same_shape(final(self)),
            final(self).cols == old(self).cols,
            final(self).rows == old(self).rows,
            final(self).degree == old(self).degree,
            final(self).inds@.len() == old(self).inds@.len(),
            (0 <= p < old(self).inds@.len()) == (r is Ok),
            r is Ok ==> 0 <= p < old(self).inds@.len() && final(self).inds@ == old(
                self,
            ).inds@.update(p as int, v),
            r matches Err(e) ==> e.error_kind() is InconsistentWorkspace,
    {
        let u = position(p, self.inds.length())?;
        self.inds.set(u, v);
        Ok(())
    }

    /// Return the head of degree list `s`.
    pub(crate) fn deg_at(&self, s: i64) -> (r: Result<i64, ColamdError<I>>)
        ensures
            r matches Ok(v) ==> 0 <= s < self.degree@.len() && v == self.degree@[s as int],
            (0 <= s < self.degree@.len()) == (r is Ok),
            r matches Err(e) ==> e.error_kind() is InconsistentWorkspace,
    {
        let u = position(s, self.degree.length())?;
        Ok(self.degree.get(u))
    }

    /// Replace the head of degree list `s`.
    pub(crate) fn set_deg(&mut self, s: i64, v: i64) -> (r: Result<(), ColamdError<I>>)
        requires
            old(self).wf(),
        ensures
            old(self).same_shape(final(self)),
            final(self).cols == old(self).cols,
            final(self).rows == old(self).rows,
            final(self).inds == old(self).inds,
            final(self).degree@.len() == old(self).degree@.len(),
            (0 <= s < old(self).degree@.len()) == (r is Ok),
            r is Ok ==> 0 <= s < old(self).degree@.len() && final(self).degree@ == old(
                self,
            ).degree@.update(s as int, v),
            r matches Err(e) ==> e.error_kind() is InconsistentWorkspace,
    {
        let u = position(s, self.degree.length())?;
        self.degree.set(u, v);
        Ok(())
    }
}

} // verus!
