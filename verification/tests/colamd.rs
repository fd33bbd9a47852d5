use sparse::colamd::{Colamd, ColamdConfig, ColamdErrorKind, ColamdInt, ColamdResult};

/// The 5-by-4 example matrix, column form.
const ROWIND: [i32; 11] = [0, 1, 4, 2, 4, 0, 1, 2, 3, 1, 3];
const COLPTR: [i32; 5] = [0, 3, 5, 9, 11];

fn is_permutation<I: ColamdInt + Into<i64>>(order: &[I], n: usize) -> bool {
    let mut seen = vec![false; n];
    if order.len() != n {
        return false;
    }
    for &j in order {
        let j: i64 = j.into();
        if j < 0 || j as usize >= n || seen[j as usize] {
            return false;
        }
        seen[j as usize] = true;
    }
    true
}

fn kind<I: ColamdInt + std::fmt::Debug>(r: Result<ColamdResult<I>, sparse::colamd::ColamdError<I>>) -> String {
    match r {
        Ok(_) => String::from("ok"),
        Err(e) => format!("{:?}", e.kind()),
    }
}

#[test]
fn colamd() {
    // Matrix  5-by-4
    // x 0 x 0
    // x 0 x x
    // 0 x x 0
    // 0 0 x x
    // x x 0 0
    let rowind = [0, 1, 4, 2, 4, 0, 1, 2, 3, 1, 3];
    let colptr = [0, 3, 5, 9, 11];
    let result = sparse::colamd(5, 4, &colptr, &rowind).unwrap();
    let order = result.order();
    assert_eq!(order[0], 1);
    assert_eq!(order[1], 0);
    assert_eq!(order[2], 2);
    assert_eq!(order[3], 3);
}

#[test]
fn colamd_statistics() {
    let result = sparse::colamd(5i32, 4, &COLPTR, &ROWIND).unwrap();
    assert_eq!(result.cols(), 4);
    assert_eq!(result.rows(), 5);
    assert_eq!(result.max_degree(), 3);
    assert_eq!(result.min_score(), 2);
}

#[test]
fn colamd_other_integer_types() {
    let rowind: Vec<i64> = ROWIND.iter().map(|&x| x as i64).collect();
    let colptr: Vec<i64> = COLPTR.iter().map(|&x| x as i64).collect();
    let result = sparse::colamd(5i64, 4, &colptr, &rowind).unwrap();
    assert_eq!(result.order(), &[1, 0, 2, 3]);
    let rowind: Vec<i16> = ROWIND.iter().map(|&x| x as i16).collect();
    let colptr: Vec<i16> = COLPTR.iter().map(|&x| x as i16).collect();
    let result = sparse::colamd(5i16, 4, &colptr, &rowind).unwrap();
    assert_eq!(result.order(), &[1, 0, 2, 3]);
    let rowind: Vec<isize> = ROWIND.iter().map(|&x| x as isize).collect();
    let colptr: Vec<isize> = COLPTR.iter().map(|&x| x as isize).collect();
    let result = sparse::colamd(5isize, 4, &colptr, &rowind).unwrap();
    assert_eq!(result.order(), &[1, 0, 2, 3]);
}

#[test]
fn workspace_reuse() {
    let mut colamd: Colamd<i32> = Colamd::allocate(5, 4, 11, 10).unwrap();
    let first = colamd.run(5, 4, &COLPTR, &ROWIND).unwrap();
    let second = colamd.run(5, 4, &COLPTR, &ROWIND).unwrap();
    assert_eq!(first.order(), &[1, 0, 2, 3]);
    assert_eq!(first.order(), second.order());
}

#[test]
fn workspace_with_config() {
    let config = ColamdConfig::new().with_dense_row_control(10).with_dense_col_control(10);
    let mut colamd: Colamd<i32> = Colamd::allocate(5, 4, 11, 10).unwrap().with_config(config);
    let result = colamd.run(5, 4, &COLPTR, &ROWIND).unwrap();
    assert_eq!(result.order(), &[1, 0, 2, 3]);
}

#[test]
fn ordering_is_permutation() {
    // Identity 6-by-6.
    let colptr = [0, 1, 2, 3, 4, 5, 6];
    let rowind = [0, 1, 2, 3, 4, 5];
    let result = sparse::colamd(6i32, 6, &colptr, &rowind).unwrap();
    assert!(is_permutation(result.order(), 6));
    // Dense 3-by-3.
    let colptr = [0, 3, 6, 9];
    let rowind = [0, 1, 2, 0, 1, 2, 0, 1, 2];
    let result = sparse::colamd(3i32, 3, &colptr, &rowind).unwrap();
    assert!(is_permutation(result.order(), 3));
    // Matrix with an empty column and an empty row.
    let colptr = [0, 2, 2, 4];
    let rowind = [0, 2, 0, 2];
    let result = sparse::colamd(3i32, 3, &colptr, &rowind).unwrap();
    assert!(is_permutation(result.order(), 3));
    assert_eq!(result.cols(), 2);
    assert_eq!(result.rows(), 2);
    // Tall and wide matrices.
    let colptr = [0, 2, 5];
    let rowind = [0, 3, 1, 2, 4];
    let result = sparse::colamd(5i32, 2, &colptr, &rowind).unwrap();
    assert!(is_permutation(result.order(), 2));
    let colptr = [0, 1, 3, 4, 6, 7];
    let rowind = [0, 0, 1, 1, 0, 1, 1];
    let result = sparse::colamd(2i32, 5, &colptr, &rowind).unwrap();
    assert!(is_permutation(result.order(), 5));
}

#[test]
fn ordering_of_larger_matrix_is_permutation() {
    // A banded 40-by-30 matrix with a dense row.
    let nrows = 40usize;
    let ncols = 30usize;
    let mut colptr = vec![0i32];
    let mut rowind = Vec::new();
    for j in 0..ncols {
        let mut rows: Vec<i32> = Vec::new();
        rows.push(0);
        for d in 0..3 {
            let r = (j + d * 5 + 1) % nrows;
            if r != 0 && !rows.contains(&(r as i32)) {
                rows.push(r as i32);
            }
        }
        rows.sort();
        rowind.extend_from_slice(&rows);
        colptr.push(rowind.len() as i32);
    }
    let result = sparse::colamd(nrows as i32, ncols as i32, &colptr, &rowind).unwrap();
    assert!(is_permutation(result.order(), ncols));
    // Row 0 holds an entry of each of the 30 columns: fewer than 10 * sqrt(30), so it
    // is not dense; no row is empty and no column is dense.
    assert_eq!(result.rows(), 40);
    assert_eq!(result.cols(), 30);
}

#[test]
fn check_errors() {
    assert_eq!(kind(sparse::colamd(0i32, 4, &COLPTR, &ROWIND)), "InvalidNumberOfRows { nrows: 0 }");
    assert_eq!(kind(sparse::colamd(-1i32, 4, &COLPTR, &ROWIND)), "InvalidNumberOfRows { nrows: -1 }");
    assert_eq!(kind(sparse::colamd(5i32, 0, &COLPTR, &ROWIND)), "InvalidNumberOfColumns { ncols: 0 }");
    assert_eq!(kind(sparse::colamd(5i32, 4, &[], &ROWIND)), "EmptyColptrSlice");
    assert_eq!(
        kind(sparse::colamd(5i32, 3, &COLPTR, &ROWIND)),
        "InvalidColptrSliceLength { actual: 5, expected: 4 }"
    );
    assert_eq!(kind(sparse::colamd(5i32, 4, &[1, 3, 5, 9, 11], &ROWIND)), "InvalidFirstColPtr { ptr: 1 }");
    assert_eq!(kind(sparse::colamd(5i32, 4, &[0, 3, 5, 9, -1], &ROWIND)), "InvalidColPtr { index: 4, ptr: -1 }");
    assert_eq!(kind(sparse::colamd(5i32, 4, &[0, 0, 0, 0, 0], &[])), "EmptyMatrix");
    assert_eq!(
        kind(sparse::colamd(5i32, 4, &COLPTR, &ROWIND[..10])),
        "InvalidRowindSliceLength { actual: 10, expected: 11 }"
    );
}

#[test]
fn input_errors() {
    // A column pointer beyond nnz.
    assert_eq!(kind(sparse::colamd(5i32, 4, &[0, 3, 12, 9, 11], &ROWIND)), "InvalidColPtr { index: 2, ptr: 12 }");
    // Decreasing column pointers.
    assert_eq!(
        kind(sparse::colamd(5i32, 4, &[0, 3, 2, 9, 11], &ROWIND)),
        "DecreasingColptrSlice { col: 1, start: 3, stop: 2 }"
    );
    // A row index out of bounds.
    let rowind = [0, 1, 5, 2, 4, 0, 1, 2, 3, 1, 3];
    assert_eq!(
        kind(sparse::colamd(5i32, 4, &COLPTR, &rowind)),
        "OutOfBoundRowIndex { index: 2, row: 5, nrows: 5 }"
    );
    let rowind = [0, 1, -1, 2, 4, 0, 1, 2, 3, 1, 3];
    assert_eq!(
        kind(sparse::colamd(5i32, 4, &COLPTR, &rowind)),
        "OutOfBoundRowIndex { index: 2, row: -1, nrows: 5 }"
    );
    // Unsorted or repeated row indices.
    let rowind = [0, 4, 1, 2, 4, 0, 1, 2, 3, 1, 3];
    assert_eq!(kind(sparse::colamd(5i32, 4, &COLPTR, &rowind)), "UnorderedRowIndSlice { col: 0, ptr: 2 }");
    let rowind = [0, 1, 4, 2, 4, 0, 1, 1, 3, 1, 3];
    assert_eq!(kind(sparse::colamd(5i32, 4, &COLPTR, &rowind)), "UnorderedRowIndSlice { col: 2, ptr: 7 }");
}

#[test]
fn allocate_errors() {
    let r: Result<Colamd<i32>, _> = Colamd::allocate(0, 4, 11, 10);
    assert_eq!(format!("{:?}", r.unwrap_err().kind()), "InvalidNumberOfRows { nrows: 0 }");
    let r: Result<Colamd<i32>, _> = Colamd::allocate(5, 0, 11, 10);
    assert_eq!(format!("{:?}", r.unwrap_err().kind()), "InvalidNumberOfColumns { ncols: 0 }");
    let r: Result<Colamd<i32>, _> = Colamd::allocate(5, 4, 0, 10);
    assert_eq!(format!("{:?}", r.unwrap_err().kind()), "EmptyMatrix");
    let r: Result<Colamd<i32>, _> = Colamd::allocate(5, 4, 11, 3);
    assert_eq!(format!("{:?}", r.unwrap_err().kind()), "InvalidElbowRoom { size: 3, ncols: 4 }");
    assert!(Colamd::<i32>::allocate(5, 4, 11, 4).is_ok());
}

#[test]
fn workspace_too_small() {
    // Room for 3 rows only: the rows cannot be stored.
    let mut colamd: Colamd<i32> = Colamd::allocate(3, 4, 11, 10).unwrap();
    match colamd.run(5, 4, &COLPTR, &ROWIND) {
        Err(e) => assert!(matches!(e.kind(), ColamdErrorKind::ArrayError { .. })),
        Ok(_) => panic!("expected an array error"),
    }
    // The workspace still works on a matrix that fits.
    let colptr = [0, 1, 2, 3, 4];
    let rowind = [0, 1, 2, 0];
    let result = colamd.run(3, 4, &colptr, &rowind).unwrap();
    assert!(is_permutation(result.order(), 4));
}

fn message<I: ColamdInt>(r: Result<ColamdResult<I>, sparse::colamd::ColamdError<I>>) -> String {
    match r {
        Ok(_) => String::from("ok"),
        Err(e) => e.message(),
    }
}

#[test]
fn error_messages() {
    assert_eq!(message(sparse::colamd(0i32, 4, &COLPTR, &ROWIND)), "invalid number of rows; must be > 0 but got 0");
    assert_eq!(message(sparse::colamd(5i32, -12, &COLPTR, &ROWIND)), "invalid number of columns; must be > 0 but got -12");
    assert_eq!(message(sparse::colamd(5i32, 4, &[], &ROWIND)), "column pointers slice is empty");
    assert_eq!(
        message(sparse::colamd(5i32, 3, &COLPTR, &ROWIND)),
        "invalid column pointers slice length: expected `4` (`= ncols + 1`) and got `5`"
    );
    assert_eq!(
        message(sparse::colamd(5i32, 4, &[1, 3, 5, 9, 11], &ROWIND)),
        "invalid column pointers slice first entry: expected `0` and got `1`"
    );
    assert_eq!(
        message(sparse::colamd(5i32, 4, &[0, 3, 12, 9, 11], &ROWIND)),
        format!("invalid column pointer at `2`; must be >= 0 and < {} but got `12`", isize::MAX)
    );
    assert_eq!(message(sparse::colamd(5i32, 4, &[0, 0, 0, 0, 0], &[])), "matrix is empty");
    assert_eq!(
        message(sparse::colamd(5i32, 4, &[0, 3, 2, 9, 11], &ROWIND)),
        "decreasing column pointers at column `1` (start = 3, stop = 2"
    );
    assert_eq!(
        message(sparse::colamd(5i32, 4, &COLPTR, &ROWIND[..10])),
        "invalid row indices slice length: expected `11` (= colptr[ncols]) and got `10`"
    );
    let rowind = [0, 1, 5, 2, 4, 0, 1, 2, 3, 1, 3];
    assert_eq!(
        message(sparse::colamd(5i32, 4, &COLPTR, &rowind)),
        "out of bounds row index `5` at rowind[`2`]; must be in `0..5(=nrows)`"
    );
    let rowind = [0, 4, 1, 2, 4, 0, 1, 2, 3, 1, 3];
    assert_eq!(
        message(sparse::colamd(5i32, 4, &COLPTR, &rowind)),
        "row indices in column `0` are unordered at index `2`"
    );
    let r: Result<Colamd<i32>, _> = Colamd::allocate(5, 4, 11, 3);
    assert_eq!(r.unwrap_err().message(), "elbow room too short; must be > 4 but got 3");
    let mut colamd: Colamd<i32> = Colamd::allocate(3, 4, 11, 10).unwrap();
    assert_eq!(message(colamd.run(5, 4, &COLPTR, &ROWIND)), "Array capacity overflow.");
    assert_eq!(message(sparse::colamd(i64::MIN, 4, &[0i64], &[])), "invalid number of rows; must be > 0 but got -9223372036854775808");
}

#[test]
fn error_from_conversions() {
    use_kind_conversions();
}

fn use_kind_conversions() {
    let e: sparse::colamd::ColamdError<i32> = ColamdErrorKind::EmptyMatrix.into();
    assert_eq!(e.message(), "matrix is empty");
    let inner = sparse::array::ArrayError::from_kind(sparse::array::ArrayErrorKind::AllocError);
    let e: sparse::colamd::ColamdError<i32> = inner.into();
    assert_eq!(e.message(), "Memory allocation failed.");
}

#[test]
fn statistics_within_dimensions() {
    let result = sparse::colamd(5i32, 4, &COLPTR, &ROWIND).unwrap();
    assert!(result.max_degree() <= 4);
    assert!(result.min_score() <= 4);
    assert!(result.cols() <= 4);
    assert!(result.rows() <= 5);
}

#[test]
fn default_workspace_reports_as_colamd() {
    let expected = sparse::colamd(5i32, 4, &COLPTR, &ROWIND).unwrap();
    let mut colamd: Colamd<i32> = Colamd::allocate(5, 4, 11, 10).unwrap();
    let result = colamd.run(5, 4, &COLPTR, &ROWIND).unwrap();
    assert_eq!(result.cols(), expected.cols());
    assert_eq!(result.rows(), expected.rows());
    assert_eq!(result.max_degree(), expected.max_degree());
    assert_eq!(result.min_score(), expected.min_score());
    assert_eq!(result.order(), expected.order());
}

#[test]
fn dense_row_control_changes_statistics() {
    // A row with 20 entries (more than 16) is dense once the control is 1:
    // 20 > max(16, 1 * sqrt(20)).
    let ncols = 20usize;
    let mut colptr = vec![0i32];
    let mut rowind = Vec::new();
    for j in 0..ncols {
        rowind.push(0);
        rowind.push(1 + j as i32);
        colptr.push(rowind.len() as i32);
    }
    let nrows = 21;
    let result = sparse::colamd(nrows, ncols as i32, &colptr, &rowind).unwrap();
    assert_eq!(result.rows(), 21);
    assert_eq!(result.max_degree(), 20);
    let config = ColamdConfig::new().with_dense_row_control(1);
    let mut colamd: Colamd<i32> = Colamd::allocate(21, 20, 40, 40).unwrap().with_config(config);
    let result = colamd.run(nrows, ncols as i32, &colptr, &rowind).unwrap();
    assert_eq!(result.rows(), 20);
    assert_eq!(result.max_degree(), 1);
    assert!(is_permutation(result.order(), ncols));
}

#[test]
fn colamd_int_helpers() {
    assert_eq!(<i16 as ColamdInt>::range(-1, 2), vec![-1, 0, 1]);
    assert_eq!(<i64 as ColamdInt>::range(3, 3), Vec::<i64>::new());
    assert_eq!(<isize as ColamdInt>::isqrt(26), 5);
    assert_eq!(<i32 as ColamdInt>::as_usize(12), 12);
    assert_eq!(<i32 as ColamdInt>::zero(), 0);
    assert_eq!(<i32 as ColamdInt>::ten(), 10);
    assert_eq!(<i16 as ColamdInt>::max_i64(), i16::MAX as i64);
}

#[test]
fn dense_column_past_control_times_sqrt() {
    // A 4-by-4 matrix whose column 0 has 3 entries: with a column control of 1 the
    // threshold is 1 * sqrt(4) = 2, so column 0 is dense and killed.
    let colptr = [0, 3, 4, 5, 6];
    let rowind = [0, 1, 2, 0, 1, 3];
    let result = sparse::colamd(4i32, 4, &colptr, &rowind).unwrap();
    assert_eq!(result.cols(), 4);
    let config = ColamdConfig::new().with_dense_col_control(1);
    let mut colamd: Colamd<i32> = Colamd::allocate(4, 4, 6, 10).unwrap().with_config(config);
    let result = colamd.run(4, 4, &colptr, &rowind).unwrap();
    assert_eq!(result.cols(), 3);
    assert!(is_permutation(result.order(), 4));
    // The dense column takes the last position.
    assert_eq!(result.order()[3], 0);
}

#[test]
fn empty_column_is_ordered_last() {
    let result = sparse::colamd(2i32, 2, &[0, 0, 1], &[0]).unwrap();
    assert_eq!(result.order(), &[1, 0]);
    assert_eq!(result.cols(), 1);
    assert_eq!(result.rows(), 1);
}

#[test]
fn empty_columns_are_ordered_last_in_column_order() {
    let result = sparse::colamd(2i32, 3, &[0, 0, 1, 1], &[0]).unwrap();
    assert_eq!(result.order(), &[1, 0, 2]);
    assert_eq!(result.cols(), 1);
}

#[test]
fn failed_run_leaves_workspace_usable() {
    let mut colamd: Colamd<i32> = Colamd::allocate(5, 4, 11, 10).unwrap();
    assert!(colamd.run(5, 4, &[0, 3, 2, 9, 11], &ROWIND).is_err());
    let result = colamd.run(5, 4, &COLPTR, &ROWIND).unwrap();
    assert_eq!(result.order(), &[1, 0, 2, 3]);
}

#[test]
fn tiny_workspace_reports_an_array_error() {
    let mut colamd: Colamd<i32> = Colamd::allocate(1, 1, 1, 1).unwrap();
    match colamd.run(5, 4, &COLPTR, &ROWIND) {
        Err(e) => assert!(matches!(e.kind(), ColamdErrorKind::ArrayError { .. })),
        Ok(_) => panic!("expected an array error"),
    }
}
