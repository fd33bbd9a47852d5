//! Columns of the COLAMD workspace.
use vstd::prelude::*;

verus! {

/// Represents a column in the COLAMD algorithm.
#[derive(Clone, Copy, Debug)]
pub struct ColamdCol {
    /// The starting index of the column in the compressed sparse column format;
    /// `-1` once the column is dead and principal, `-2` once it is dead and merged
    /// into another column.
    pub start: i64,
    /// The number of non-zero entries in the column.
    pub length: i64,
    /// The weight of the column (i.e its thickness), or the parent column once the
    /// column is merged into it.
    pub weight: i64,
    /// The rank of the column which is either the score of the column or the actual
    /// order of the column in the final permutation.
    pub rank: i64,
    /// The doubly linked list prev column pointer.
    pub prev: i64,
    /// The doubly linked list next column pointer.
    pub next: i64,
}

impl ColamdCol {
    /// Whether the column is alive.
    pub fn alive(&self) -> (r: bool)
        ensures
            r == (self.start >= 0),
    {
        self.start >= 0
    }

    /// Whether the column is dead.
    pub fn dead(&self) -> (r: bool)
        ensures
            r == (self.start < 0),
    {
        self.start < 0
    }

    /// Whether the column is dead and principal (not merged into another column).
    pub fn dead_principal(&self) -> (r: bool)
        ensures
            r == (self.start == -1),
    {
        self.start == -1
    }

    /// Kill the column as a principal column.
    pub fn kill(&mut self)
        ensures
            *final(self) == (ColamdCol { start: -1i64, ..*old(self) }),
    {
        self.start = -1;
    }

    /// Kill the column as a column merged into another one.
    pub fn kill_non_principal(&mut self)
        ensures
            *final(self) == (ColamdCol { start: -2i64, ..*old(self) }),
    {
        self.start = -2;
    }
}

} // verus!
