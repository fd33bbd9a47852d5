use sparse::{CooMat, CooPat, CoordinateMatrix, CoordinatePattern};

/// Test for detecting double free and aliasing issues when cloning pattern.
#[test]
fn clone_pattern() {
    let pat = sparse::CooPat::new(2, 3, 10);
    let clone = pat.clone();
    assert_eq!(pat.nrows(), clone.nrows());
    assert_eq!(pat.ncols(), clone.ncols());
    assert_eq!(pat.length(), clone.length());
    assert_eq!(pat.capacity(), clone.capacity());
}

/// Test for detecting double free and aliasing issues when cloning matrix.
#[test]
fn clone_matrix() {
    let mat: CoordinateMatrix<i32, i64> = sparse::CooMat::new(2, 3, 10);
    let clone = mat.clone();
    assert_eq!(mat.nrows(), clone.nrows());
    assert_eq!(mat.ncols(), clone.ncols());
    assert_eq!(mat.length(), clone.length());
    assert_eq!(mat.capacity(), clone.capacity());
}

#[test]
fn pattern_dimensions() {
    let pat: CoordinatePattern<i32> = CoordinatePattern::new(3, 4, 10);
    assert_eq!(pat.nrows(), 3);
    assert_eq!(pat.ncols(), 4);
    assert_eq!(pat.length(), 0);
    assert_eq!(pat.capacity(), 10);
}

#[test]
fn pattern_push_iter_clear() {
    let mut pat: CooPat<usize> = CoordinatePattern::new(3, 4, 10);
    pat.push(0, 1);
    pat.push(1, 2);
    assert_eq!(pat.length(), 2);
    let entries = pat.iter();
    assert_eq!(entries, vec![(0, 1), (1, 2)]);
    // Duplicates are kept.
    pat.push(0, 1);
    assert_eq!(pat.iter(), vec![(0, 1), (1, 2), (0, 1)]);
    pat.clear();
    assert_eq!(pat.length(), 0);
    assert_eq!(pat.capacity(), 10);
    assert!(pat.iter().is_empty());
}

#[test]
fn pattern_clone_is_independent() {
    let mut pat: CooPat<u32> = CoordinatePattern::new(2, 2, 3);
    pat.push(1, 1);
    let clone = pat.clone();
    pat.push(0, 0);
    assert_eq!(clone.iter(), vec![(1, 1)]);
    assert_eq!(pat.iter(), vec![(1, 1), (0, 0)]);
}

#[test]
fn pattern_fills_to_capacity() {
    let mut pat: CooPat<i64> = CoordinatePattern::new(1, 1, 2);
    pat.push(0, 0);
    pat.push(0, 0);
    assert_eq!(pat.length(), pat.capacity());
}

#[test]
fn matrix_push_iter_clear() {
    let mut mat: CooMat<i32, i64> = CoordinateMatrix::new(3, 4, 10);
    mat.push(0, 1, 1);
    mat.push(1, 2, 3);
    assert_eq!(mat.iter(), vec![(0, 1, 1), (1, 2, 3)]);
    mat.clear();
    assert_eq!(mat.length(), 0);
    assert_eq!(mat.nrows(), 3);
    assert_eq!(mat.ncols(), 4);
}

#[test]
fn matrix_set_value() {
    let mut mat: CooMat<i32, u8> = CoordinateMatrix::new(3, 4, 10);
    mat.push(0, 1, 1);
    mat.push(1, 2, 3);
    mat.set_value(1, 7);
    assert_eq!(mat.iter(), vec![(0, 1, 1), (1, 2, 7)]);
    let mut bools: CooMat<i32, bool> = CoordinateMatrix::new(1, 1, 1);
    bools.push(0, 0, false);
    bools.set_value(0, true);
    assert_eq!(bools.iter(), vec![(0, 0, true)]);
}

#[test]
fn layout_check() {
    assert!(sparse::array::fits_layout::<(i32, i32)>(10));
    assert!(!sparse::array::fits_layout::<(i64, i64)>(usize::MAX));
    assert!(!sparse::array::fits_layout::<()>(1));
}
