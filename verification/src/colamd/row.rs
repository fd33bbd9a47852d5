//! Rows of the COLAMD workspace.
use vstd::prelude::*;

verus! {

/// Represents a row in the COLAMD algorithm.
#[derive(Clone, Copy, Debug)]
pub struct ColamdRow {
    /// The starting index of the row in the compressed sparse row format.
    pub start: i64,
    /// The number of non-zero entries in the row.
    pub length: i64,
    /// The degree of the row (i.e the number of columns in which the row is present).
    pub degree: i64,
    /// The mark used to compute set differences; negative once the row is dead.
    pub mark: i64,
}

impl ColamdRow {
    /// Whether the row is alive.
    pub fn alive(&self) -> (r: bool)
        ensures
            r == (self.mark >= 0),
    {
        self.mark >= 0
    }

    /// Whether the row is dead.
    pub fn dead(&self) -> (r: bool)
        ensures
            r == (self.mark < 0),
    {
        self.mark < 0
    }

    /// Kill the row.
    pub fn kill(&mut self)
        ensures
            *final(self) == (ColamdRow { mark: -1i64, ..*old(self) }),
    {
        self.mark = -1;
    }
}

} // verus!
