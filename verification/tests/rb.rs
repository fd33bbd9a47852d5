use sparse::rb::{agrees, counts, key, kind, read_indices, sizes, title, within_limits, Field, HeaderError, NumberError};

fn pad(prefix: &str, width: usize) -> String {
    format!("{prefix:<width$}")
}

#[test]
fn header_title_and_key() {
    let line = format!("{}{}\n", pad("  Some matrix; with comments |", 72), "  |KEY1 ");
    let (a, b) = title(line.as_bytes()).unwrap();
    assert_eq!(&line[a..b], "Some matrix");
    let (a, b) = key(line.as_bytes()).unwrap();
    assert_eq!(&line[a..b], "KEY1");
    // Bars are dropped after the white space only.
    let line = format!("{}{}\n", pad("x", 72), "|  |KEY1 ");
    let (a, b) = key(line.as_bytes()).unwrap();
    assert_eq!(&line[a..b], "  |KEY1");
    assert!(title(b"short line").is_none());
    assert!(key(b"short line").is_none());
    // No `;`: the whole 72 columns, without the trailing bars.
    let line = format!("{}KEY2", pad(" Title ||", 72));
    let (a, b) = title(line.as_bytes()).unwrap();
    assert_eq!(&line[a..b], "Title");
    let (a, b) = key(line.as_bytes()).unwrap();
    assert_eq!(&line[a..b], "KEY2");
}

#[test]
fn header_counts_and_sizes() {
    let line = format!("{:>14}{:>14}{:>14}\n", 10, 3, 7);
    assert_eq!(counts(line.as_bytes()), Ok((3, 7)));
    let line = format!("{:>14}{:>14}{:>14}{:>14}\n", "rua", 5, 4, 11);
    assert_eq!(sizes(line.as_bytes()), Ok((5, 4, 11)));
    assert_eq!(kind(line.as_bytes()), Some((0, 3)));
    assert_eq!(kind(b"ru"), None);
    assert_eq!(counts(b"too short"), Err(HeaderError::Missing(Field::Lptr)));
    let line = format!("{:>14}{:>14}", 10, 3);
    assert_eq!(counts(line.as_bytes()), Err(HeaderError::Missing(Field::Lind)));
    let line = format!("{:>14}{:>14}{:>14}\n", 10, "x3", 7);
    assert_eq!(counts(line.as_bytes()), Err(HeaderError::Invalid(Field::Lptr, NumberError::InvalidDigit)));
    let line = format!("{:>14}{:>14}{:>14}\n", 10, -3, 7);
    assert_eq!(counts(line.as_bytes()), Err(HeaderError::Invalid(Field::Lptr, NumberError::InvalidDigit)));
    let line = format!("{:>14}{:>14}{:>14}{:>14}\n", "rua", 5, 4, 3000000000u64);
    assert_eq!(sizes(line.as_bytes()), Err(HeaderError::Invalid(Field::Nnz, NumberError::PosOverflow)));
    let line = format!("{:>14}{:>14}{:>14}{:>14}\n", "rua", 5, "", 1);
    assert_eq!(sizes(line.as_bytes()), Err(HeaderError::Invalid(Field::Ncols, NumberError::Empty)));
    let line = format!("{:>14}{:>14}{:>14}{:>14}\n", "rua", -2147483648i64, "+4", 1);
    assert_eq!(sizes(line.as_bytes()), Ok((i32::MIN, 4, 1)));
    let line = format!("{:>14}{:>14}{:>14}{:>14}\n", "rua", -2147483649i64, 4, 1);
    assert_eq!(sizes(line.as_bytes()), Err(HeaderError::Invalid(Field::Nrows, NumberError::NegOverflow)));
    assert_eq!(Field::Nnz.name(), "nnz");
}

#[test]
fn index_lists() {
    assert_eq!(read_indices(b"1 4 6 10 12\n"), Ok(vec![0, 3, 5, 9, 11]));
    assert_eq!(read_indices(b"  3\t2\n\n  1 "), Ok(vec![2, 1, 0]));
    assert_eq!(read_indices(b""), Ok(vec![]));
    assert_eq!(read_indices(b"1 2 x 4"), Err(NumberError::InvalidDigit));
    assert_eq!(read_indices(b"1 99999999999 x"), Err(NumberError::PosOverflow));
    assert_eq!(read_indices(b"1 -2147483648"), Err(NumberError::NegOverflow));
    assert_eq!(read_indices(b"- 1"), Err(NumberError::InvalidDigit));
    assert_eq!(NumberError::InvalidDigit.message(), "invalid digit found in string");
    assert_eq!(NumberError::Empty.message(), "cannot parse integer from empty string");
}

#[test]
fn ordering_agreement_and_limits() {
    assert!(agrees(&[1, 0, 2, 3, 11], &[1, 0, 2, 3], 4));
    assert!(!agrees(&[1, 0, 3, 2, 11], &[1, 0, 2, 3], 4));
    assert!(within_limits(5, 4, 11, 10, 10, 20));
    assert!(!within_limits(5, 4, 21, 10, 10, 20));
    assert!(!within_limits(11, 4, 11, 10, 10, 20));
}
