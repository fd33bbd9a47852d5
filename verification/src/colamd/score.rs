//! Statistics of the initial scoring.
use vstd::prelude::*;

verus! {

/// Statistics of the initial scoring of rows and columns.
#[derive(Debug)]
pub struct ColamdScore {
    /// Number of columns alive.
    pub cols: i64,
    /// Number of rows alive.
    pub rows: i64,
    /// Maximum row degree.
    pub max_degree: i64,
    /// Minimum column score.
    pub min_score: i64,
}

} // verus!
