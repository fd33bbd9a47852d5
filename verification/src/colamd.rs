//! COLAMD: approximate column minimum degree ordering.
//!
//! References:
//! - T. A. Davis, J. R. Gilbert, S. Larimore, E. Ng, *An approximate column minimum
//!   degree ordering algorithm*, ACM Transactions on Mathematical Software, vol. 30,
//!   no. 3., pp. 353-376, 2004.
//! - T. A. Davis, J. R. Gilbert, S. Larimore, E. Ng, *Algorithm 836: COLAMD, an
//!   approximate column minimum degree ordering algorithm*, ACM Transactions on
//!   Mathematical Software, vol. 30, no. 3., pp. 377-380, 2004.
use vstd::prelude::*;

mod access;
pub mod col;
pub mod config;
pub mod error;
mod init;
pub mod integer;
pub mod model;
pub mod order;
mod ordering;
mod pivot;
pub mod result;
pub mod row;
pub mod score;
mod scoring;
mod seal;
pub mod size;

use crate::array::{Array, ArrayError};
use col::ColamdCol;
use model::{check_error, input_error, Matrix};
use row::ColamdRow;
use order::alone;
use ordering::weights_positive;
use scoring::{col_scored, lemma_thickness_alive_cols};

pub use config::ColamdConfig;
pub use error::{ColamdError, ColamdErrorKind};
pub use integer::ColamdInt;
pub use result::ColamdResult;
pub use size::ColamdSize;

verus! {

/// The empty marker of lists and pointers.
pub const EMPTY: i64 = -1;

/// The model of the input `(nrows, ncols, colptr, rowind)` with the dense control
/// parameters of `config`.
pub open spec fn model<I: ColamdInt>(
    nrows: I,
    ncols: I,
    colptr: Seq<I>,
    rowind: Seq<I>,
    config: ColamdConfig<I>,
) -> Matrix<I> {
    Matrix {
        nrows: nrows.value(),
        ncols: ncols.value(),
        colptr,
        rowind,
        row_control: config.row_control(),
        col_control: config.col_control(),
    }
}

/// The model of the input `(nrows, ncols, colptr, rowind)` with the default dense
/// control parameters, both `10`.
pub open spec fn default_model<I: ColamdInt>(
    nrows: I,
    ncols: I,
    colptr: Seq<I>,
    rowind: Seq<I>,
) -> Matrix<I> {
    Matrix {
        nrows: nrows.value(),
        ncols: ncols.value(),
        colptr,
        rowind,
        row_control: 10,
        col_control: 10,
    }
}

/// A workspace with the default configuration models an input as [`colamd`] does:
/// running it reports what [`colamd`] reports.
pub proof fn lemma_default_configuration<I: ColamdInt>(
    nrows: I,
    ncols: I,
    colptr: Seq<I>,
    rowind: Seq<I>,
    config: ColamdConfig<I>,
)
    requires
        config.row_control() == 10,
        config.col_control() == 10,
    ensures
        model(nrows, ncols, colptr, rowind, config) == default_model(nrows, ncols, colptr, rowind),
{
}

/// COLAMD algorithm: order the columns of the `nrows` by `ncols` matrix whose column
/// form is `colptr` and `rowind`, with the default configuration.
///
/// Fails on the first violated condition among those of [`check_error`], then
/// (after the workspace is allocated, which may fail) on the first of
/// [`input_error`]: out of range or decreasing column pointers, out of range,
/// unsorted or repeated row indices.
pub fn colamd<I: ColamdInt>(nrows: I, ncols: I, colptr: &[I], rowind: &[I]) -> (r: Result<
    ColamdResult<I>,
    ColamdError<I>,
>)
    ensures
        check_error(nrows, ncols, colptr@, rowind@) matches Some(k) ==> (r matches Err(e)
            && e.error_kind() == k),
        check_error(nrows, ncols, colptr@, rowind@) is None ==> (input_error(
            nrows,
            ncols,
            colptr@,
            rowind@,
        ) matches Some(k) ==> r matches Err(e) && (e.error_kind() == k
            || e.error_kind() is ArrayError)),
        r matches Err(e) ==> {
            ||| Some(e.error_kind()) == check_error(nrows, ncols, colptr@, rowind@)
            ||| check_error(nrows, ncols, colptr@, rowind@) is None && {
                ||| Some(e.error_kind()) == input_error(nrows, ncols, colptr@, rowind@)
                ||| e.error_kind() is ArrayError
                ||| e.error_kind() is InconsistentWorkspace && input_error(
                    nrows,
                    ncols,
                    colptr@,
                    rowind@,
                ) is None
            }
        },
        r matches Ok(res) ==> {
            &&& check_error(nrows, ncols, colptr@, rowind@) is None
            &&& input_error(nrows, ncols, colptr@, rowind@) is None
            &&& res.scores_and_permutes(default_model(nrows, ncols, colptr@, rowind@))
            &&& res.places_killed(default_model(nrows, ncols, colptr@, rowind@))
            &&& res.bounded(nrows.value(), ncols.value())
        },
{
    // Check inputs.
    let size = Colamd::<I>::check(nrows, ncols, colptr, rowind)?;
    proof {
        nrows.lemma_bounds();
        ncols.lemma_bounds();
    }
    // Allocate the workspace.
    let n = ncols.as_usize();
    let nnz = size.nnz.as_usize();
    let elbow = n.saturating_add(nnz / 5);
    let mut colamd: Colamd<I> = Colamd::allocate(nrows.as_usize(), n, nnz, elbow)?;
    // Execute the algorithm.
    colamd.exec(size.nrows, size.ncols, size.nnz, colptr, rowind)
}

/// Wrap an array error.
fn array_error<I: ColamdInt>(e: ArrayError) -> (r: ColamdError<I>)
    ensures
        r.error_kind() == (ColamdErrorKind::ArrayError::<I> { inner: e }),
{
    ColamdError::from_kind(ColamdErrorKind::ArrayError { inner: e })
}

/// COLAMD algorithm workspace.
#[derive(Debug)]
pub struct Colamd<I: ColamdInt> {
    /// COLAMD algorithm configuration.
    pub(crate) config: ColamdConfig<I>,
    /// Row form matrix representation.
    pub(crate) rows: Array<ColamdRow>,
    /// Column form matrix representation.
    pub(crate) cols: Array<ColamdCol>,
    /// Row/Column/Pivot indices.
    pub(crate) inds: Array<i64>,
    /// Degree list.
    pub(crate) degree: Array<i64>,
}

impl<I: ColamdInt> Colamd<I> {
    /// Well-formedness of the workspace: every array is well formed and its capacity
    /// is at most `isize::MAX`.
    pub closed spec fn wf(&self) -> bool {
        &&& self.rows.wf()
        &&& self.cols.wf()
        &&& self.inds.wf()
        &&& self.degree.wf()
        &&& self.rows.cap() <= isize::MAX
        &&& self.cols.cap() <= isize::MAX
        &&& self.inds.cap() <= isize::MAX
        &&& self.degree.cap() <= isize::MAX
    }

    /// The configuration.
    pub closed spec fn configuration(&self) -> ColamdConfig<I> {
        self.config
    }

    /// The number of rows the workspace has room for.
    pub closed spec fn row_capacity(&self) -> nat {
        self.rows.cap()
    }

    /// The number of columns the workspace has room for.
    pub closed spec fn col_capacity(&self) -> nat {
        self.cols.cap()
    }

    /// The number of indices the workspace has room for.
    pub closed spec fn index_capacity(&self) -> nat {
        self.inds.cap()
    }

    /// The number of degree lists the workspace has room for.
    pub closed spec fn degree_capacity(&self) -> nat {
        self.degree.cap()
    }

    /// Allocate COLAMD workspace for a matrix of size `nrows` by `ncols` with `nnz` non
    /// zeros and `elbow` room.
    ///
    /// Fails when `nrows == 0`, `ncols == 0`, `nnz == 0`, `elbow < ncols` (checked in
    /// that order), or when the memory cannot be allocated.
    pub fn allocate(nrows: usize, ncols: usize, nnz: usize, elbow: usize) -> (r: Result<
        Self,
        ColamdError<I>,
    >)
        ensures
            nrows == 0 ==> (r matches Err(e) && e.error_kind() == (
            ColamdErrorKind::InvalidNumberOfRows::<I> { nrows: I::of(0) })),
            nrows > 0 && ncols == 0 ==> (r matches Err(e) && e.error_kind() == (
            ColamdErrorKind::InvalidNumberOfColumns::<I> { ncols: I::of(0) })),
            nrows > 0 && ncols > 0 && nnz == 0 ==> (r matches Err(e) && e.error_kind()
                == ColamdErrorKind::EmptyMatrix::<I>),
            nrows > 0 && ncols > 0 && nnz > 0 && elbow < ncols ==> (r matches Err(e)
                && e.error_kind() == (ColamdErrorKind::InvalidElbowRoom::<I> {
                size: elbow,
                ncols,
            })),
            nrows > 0 && ncols > 0 && nnz > 0 && elbow >= ncols ==> (r is Ok || (r matches Err(
                e,
            ) && e.error_kind() is ArrayError)),
            r matches Ok(w) ==> {
                &&& w.wf()
                &&& w.row_capacity() == nrows
                &&& w.col_capacity() == ncols
                &&& w.index_capacity() == (if nnz * 2 + elbow > usize::MAX {
                    usize::MAX as int
                } else {
                    nnz * 2 + elbow
                })
                &&& w.degree_capacity() == ncols + 1
                &&& w.configuration().row_control() == 10
                &&& w.configuration().col_control() == 10
            },
    {
        // Check number of rows.
        if nrows == 0 {
            return Err(ColamdError::from_kind(ColamdErrorKind::InvalidNumberOfRows { nrows: I::zero() }));
        }
        // Check number of columns.
        if ncols == 0 {
            return Err(ColamdError::from_kind(ColamdErrorKind::InvalidNumberOfColumns { ncols: I::zero() }));
        }
        // Check number of non-zeros.
        if nnz == 0 {
            return Err(ColamdError::from_kind(ColamdErrorKind::EmptyMatrix));
        }
        // Check elbow room.
        if elbow < ncols {
            return Err(ColamdError::from_kind(ColamdErrorKind::InvalidElbowRoom { size: elbow, ncols }));
        }
        // Compute indices capacity.
        let twice = if nnz > usize::MAX / 2 {
            usize::MAX
        } else {
            nnz * 2
        };
        let cap = twice.saturating_add(elbow);
        // Allocate workspace.
        let rows = match Array::new(nrows) {
            Ok(a) => a,
            Err(e) => return Err(array_error(e)),
        };
        let cols = match Array::new(ncols) {
            Ok(a) => a,
            Err(e) => return Err(array_error(e)),
        };
        let inds = match Array::new(cap) {
            Ok(a) => a,
            Err(e) => return Err(array_error(e)),
        };
        let degree = match Array::new(ncols + 1) {
            Ok(a) => a,
            Err(e) => return Err(array_error(e)),
        };
        Ok(Colamd { config: ColamdConfig::default(), rows, cols, inds, degree })
    }

    /// Set the COLAMD configuration.
    pub fn with_config(self, config: ColamdConfig<I>) -> (r: Self)
        ensures
            r.configuration() == config,
            r.wf() == self.wf(),
            r.row_capacity() == self.row_capacity(),
            r.col_capacity() == self.col_capacity(),
            r.index_capacity() == self.index_capacity(),
            r.degree_capacity() == self.degree_capacity(),
    {
        Colamd { config, rows: self.rows, cols: self.cols, inds: self.inds, degree: self.degree }
    }

    /// Check COLAMD algorithm input arguments and return the validated dimensions.
    fn check(nrows: I, ncols: I, colptr: &[I], rowind: &[I]) -> (r: Result<
        ColamdSize<I>,
        ColamdError<I>,
    >)
        ensures
            check_error(nrows, ncols, colptr@, rowind@) matches Some(k) ==> (r matches Err(e)
                && e.error_kind() == k),
            check_error(nrows, ncols, colptr@, rowind@) is None ==> (r matches Ok(s) && s
                == ColamdSize { nrows, ncols, nnz: colptr@[ncols.value()] }),
    {
        let max = isize::MAX as i64;
        // Check number of rows.
        let nr = nrows.to_i64();
        if nr <= 0 || nr > max {
            return Err(ColamdError::from_kind(ColamdErrorKind::InvalidNumberOfRows { nrows }));
        }
        // Check number of columns.
        let nc = ncols.to_i64();
        if nc <= 0 || nc > max {
            return Err(ColamdError::from_kind(ColamdErrorKind::InvalidNumberOfColumns { ncols }));
        }
        // Check colptr.
        if colptr.len() == 0 {
            return Err(ColamdError::from_kind(ColamdErrorKind::EmptyColptrSlice));
        }
        let n = nc as usize;
        if colptr.len() != n + 1 {
            return Err(
                ColamdError::from_kind(
                    ColamdErrorKind::InvalidColptrSliceLength {
                        actual: colptr.len(),
                        expected: n + 1,
                    },
                ),
            );
        }
        // Check first column pointer.
        if colptr[0].to_i64() != 0 {
            return Err(ColamdError::from_kind(ColamdErrorKind::InvalidFirstColPtr { ptr: colptr[0] }));
        }
        // Check last column pointer which is the number on non zeros.
        let nnz = colptr[n];
        let nz = nnz.to_i64();
        if nz < 0 || nz > max {
            return Err(
                ColamdError::from_kind(ColamdErrorKind::InvalidColPtr { index: n, ptr: nnz }),
            );
        }
        if nz == 0 {
            return Err(ColamdError::from_kind(ColamdErrorKind::EmptyMatrix));
        }
        // Check rowind.
        if rowind.len() != nz as usize {
            return Err(
                ColamdError::from_kind(
                    ColamdErrorKind::InvalidRowindSliceLength {
                        actual: rowind.len(),
                        expected: nz as usize,
                    },
                ),
            );
        }
        Ok(ColamdSize::new(nrows, ncols, nnz))
    }

    /// Run the COLAMD algorithm on the `nrows` by `ncols` matrix whose column form is
    /// `colptr` and `rowind`, reusing the workspace.
    ///
    /// Fails as [`colamd`] does; the input errors of [`input_error`] are reported
    /// whenever the workspace has room for the matrix.
    pub fn run(&mut self, nrows: I, ncols: I, colptr: &[I], rowind: &[I]) -> (r: Result<
        ColamdResult<I>,
        ColamdError<I>,
    >)
        requires
            old(self).wf(),
        ensures
            final(self).wf(),
            final(self).configuration() == old(self).configuration(),
            final(self).row_capacity() == old(self).row_capacity(),
            final(self).col_capacity() == old(self).col_capacity(),
            final(self).index_capacity() == old(self).index_capacity(),
            final(self).degree_capacity() == old(self).degree_capacity(),
            check_error(nrows, ncols, colptr@, rowind@) matches Some(k) ==> (r matches Err(e)
                && e.error_kind() == k),
            check_error(nrows, ncols, colptr@, rowind@) is None && old(self).has_room(
                nrows.value(),
                ncols.value(),
                colptr@[ncols.value()].value(),
            ) ==> (input_error(nrows, ncols, colptr@, rowind@) matches Some(k) ==> r matches Err(
                e,
            ) && e.error_kind() == k),
            r matches Err(e) ==> {
                ||| Some(e.error_kind()) == check_error(nrows, ncols, colptr@, rowind@)
                ||| check_error(nrows, ncols, colptr@, rowind@) is None && {
                    ||| Some(e.error_kind()) == input_error(nrows, ncols, colptr@, rowind@)
                    ||| e.error_kind() is ArrayError
                    ||| e.error_kind() is InconsistentWorkspace && input_error(
                        nrows,
                        ncols,
                        colptr@,
                        rowind@,
                    ) is None
                }
            },
            r matches Ok(res) ==> {
                &&& check_error(nrows, ncols, colptr@, rowind@) is None
                &&& input_error(nrows, ncols, colptr@, rowind@) is None
                &&& res.scores_and_permutes(
                    model(nrows, ncols, colptr@, rowind@, old(self).configuration()),
                )
                &&& res.places_killed(
                    model(nrows, ncols, colptr@, rowind@, old(self).configuration()),
                )
                &&& res.bounded(nrows.value(), ncols.value())
                &&& old(self).has_room(nrows.value(), ncols.value(), colptr@[ncols.value()].value())
            },
    {
        // Check input.
        let size = Self::check(nrows, ncols, colptr, rowind)?;
        // Execute algorithm.
        self.exec(size.nrows, size.ncols, size.nnz, colptr, rowind)
    }

    /// Execute the COLAMD algorithm on an input that passed the first checks.
    fn exec(&mut self, nrows: I, ncols: I, nnz: I, colptr: &[I], rowind: &[I]) -> (r: Result<
        ColamdResult<I>,
        ColamdError<I>,
    >)
        requires
            old(self).wf(),
            check_error(nrows, ncols, colptr@, rowind@) is None,
            nnz == colptr@[ncols.value()],
        ensures
            final(self).wf(),
            final(self).configuration() == old(self).configuration(),
            final(self).row_capacity() == old(self).row_capacity(),
            final(self).col_capacity() == old(self).col_capacity(),
            final(self).index_capacity() == old(self).index_capacity(),
            final(self).degree_capacity() == old(self).degree_capacity(),
            r matches Err(e) ==> {
                ||| Some(e.error_kind()) == input_error(nrows, ncols, colptr@, rowind@)
                ||| e.error_kind() is ArrayError
                ||| e.error_kind() is InconsistentWorkspace && input_error(
                    nrows,
                    ncols,
                    colptr@,
                    rowind@,
                ) is None
            },
            old(self).has_room(nrows.value(), ncols.value(), nnz.value()) ==> (input_error(
                nrows,
                ncols,
                colptr@,
                rowind@,
            ) matches Some(k) ==> r matches Err(e) && e.error_kind() == k),
            r matches Ok(res) ==> input_error(nrows, ncols, colptr@, rowind@) is None
                && res.scores_and_permutes(model(nrows, ncols, colptr@, rowind@, old(self).configuration()))
                && res.places_killed(model(nrows, ncols, colptr@, rowind@, old(self).configuration()))
                && res.bounded(nrows.value(), ncols.value()),
            r is Ok ==> old(self).has_room(nrows.value(), ncols.value(), nnz.value()),
    {
        // Initialize rows and columns.
        self.init(nrows, ncols, nnz, colptr, rowind)?;
        assert(nrows.value() == self.rows@.len() <= self.rows.cap() == old(self).rows.cap());
        assert(ncols.value() == self.cols@.len() <= self.cols.cap() == old(self).cols.cap());
        assert(2 * nnz.value() == self.inds@.len() <= self.inds.cap() == old(self).inds.cap());
        // Score rows and columns.
        let score = self.score(nrows, ncols, Ghost(colptr@), Ghost(rowind@))?;
        assert(self.degree@.len() <= self.degree.cap() == old(self).degree.cap());
        assert(old(self).has_room(nrows.value(), ncols.value(), nnz.value()));
        let ghost mat = model(nrows, ncols, colptr@, rowind@, self.config);
        proof {
            nrows.lemma_bounds();
            ncols.lemma_bounds();
            nnz.lemma_bounds();
            assert(mat.valid());
            mat.lemma_alive_cols(0);
            mat.lemma_alive_rows(mat.nrows);
            mat.lemma_min_score(0);
        }
        proof {
            mat.lemma_max_degree_ncols(nrows, mat.nrows);
            mat.lemma_killed_monotonic(0, 3);
        }
        let ghost scored = self.cols@;
        proof {
            assert forall|c: int| 0 <= c < scored.len() implies #[trigger] scored[c].start >= -1 by {
                assert(col_scored(scored[c], mat, c));
            }
            assert(weights_positive(scored)) by {
                assert forall|c: int| 0 <= c < scored.len() && scored[c].start >= 0 implies #[trigger] scored[c].weight >= 1 by {
                    assert(col_scored(scored[c], mat, c));
                }
            }
            lemma_thickness_alive_cols(scored, mat, mat.ncols);
        }
        // Find the ordering.
        self.find(nrows.to_i64(), ncols.to_i64(), score.cols, score.max_degree, I::max_i64())?;
        let ghost found = self.cols@;
        proof {
            assert forall|c: int| 0 <= c < mat.ncols && !mat.col_alive(c) implies alone(found, c) by {
                assert(col_scored(scored[c], mat, c));
                assert forall|x: int| #![trigger found[x]] 0 <= x < found.len() && found[x].start != -1 implies found[x].weight != c by {
                    assert(found[x].start < 0);
                }
            }
        }
        let order = self.order(ncols)?;
        proof {
            assert forall|c: int| 0 <= c < mat.ncols && !mat.col_alive(c) implies #[trigger] order@[mat.dead_rank(c)].value() == c by {
                assert(col_scored(scored[c], mat, c));
                assert(alone(found, c));
                assert(found[c].rank == mat.dead_rank(c));
            }
        }
        Ok(
            ColamdResult::new(
                I::from_i64(score.cols),
                I::from_i64(score.rows),
                I::from_i64(score.max_degree),
                I::from_i64(score.min_score),
                order,
            ),
        )
    }

    /// Whether the workspace has room for a matrix of size `nrows` by `ncols` with
    /// `nnz` non zeros.
    pub open spec fn has_room(&self, nrows: int, ncols: int, nnz: int) -> bool {
        &&& self.row_capacity() >= nrows
        &&& self.col_capacity() >= ncols
        &&& self.index_capacity() >= 2 * nnz
        &&& self.degree_capacity() >= ncols + 1
    }

}

} // verus!
