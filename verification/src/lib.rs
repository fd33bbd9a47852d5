//! Sparse matrix formats and the COLAMD column ordering.
pub mod array;
pub mod colamd;
pub mod coo;
pub mod csc;
pub mod dimension;
pub mod index;
pub mod integer;
pub mod isqrt;
pub mod offset;
pub mod rb;
pub mod scalar;
pub mod text;

pub use coo::{CooMat, CooPat, CoordinateMatrix, CoordinatePattern};
pub use csc::{CompressedSparseColumnMatrix, CompressedSparseColumnPattern, CscMat, CscPat};
pub use scalar::Scalar;
pub use colamd::colamd;
