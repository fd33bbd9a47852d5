use sparse::array::{Array, ArrayError, ArrayErrorKind};

#[test]
fn array_new_and_push() {
    let mut a: Array<u32> = Array::new(3).unwrap();
    assert_eq!(a.length(), 0);
    assert_eq!(a.capacity(), 3);
    a.push(7).unwrap();
    a.push(8).unwrap();
    a.push(9).unwrap();
    assert_eq!(a.as_slice(), &[7, 8, 9]);
    let e = a.push(10).unwrap_err();
    assert_eq!(e.kind(), ArrayErrorKind::CapacityOverflow);
    assert_eq!(e.message(), "Array capacity overflow.");
    // A failed push leaves the array unchanged.
    assert_eq!(a.as_slice(), &[7, 8, 9]);
}

#[test]
fn array_new_errors() {
    let e = Array::<u8>::new(0).unwrap_err();
    assert_eq!(e.kind(), ArrayErrorKind::ZeroCapacity);
    assert_eq!(e.message(), "Empty arrays are not supported.");
    let e = Array::<()>::new(4).unwrap_err();
    assert_eq!(e.kind(), ArrayErrorKind::ZeroSizedType);
    assert_eq!(e.message(), "Zero sized types are not supported.");
    let e = Array::<u64>::new(usize::MAX).unwrap_err();
    assert_eq!(e.kind(), ArrayErrorKind::LayoutError);
    assert_eq!(e.message(), "Invalid memory layout.");
}

#[test]
fn array_resize_and_clear() {
    let mut a: Array<i16> = Array::new(5).unwrap();
    a.push(1).unwrap();
    a.resize(4, -1).unwrap();
    assert_eq!(a.as_slice(), &[-1, -1, -1, -1]);
    let e = a.resize(6, 0).unwrap_err();
    assert_eq!(e.kind(), ArrayErrorKind::CapacityOverflow);
    assert_eq!(a.as_slice(), &[-1, -1, -1, -1]);
    a.clear();
    assert_eq!(a.length(), 0);
    assert_eq!(a.capacity(), 5);
}

#[test]
fn array_clone_is_independent() {
    let mut a: Array<u8> = Array::new(2).unwrap();
    a.push(1).unwrap();
    let b = a.clone();
    a.push(2).unwrap();
    assert_eq!(b.as_slice(), &[1]);
    assert_eq!(b.capacity(), 2);
    assert_eq!(a.as_slice(), &[1, 2]);
}

#[test]
fn array_error_messages() {
    assert_eq!(ArrayError::from_kind(ArrayErrorKind::TypeNeedsDrop).message(), "Types that need drop are not supported.");
    assert_eq!(ArrayError::from_kind(ArrayErrorKind::AllocError).message(), "Memory allocation failed.");
}

#[test]
fn array_error_from_kind() {
    let e = ArrayError::from(ArrayErrorKind::ZeroCapacity);
    assert_eq!(e.kind(), ArrayErrorKind::ZeroCapacity);
}

#[test]
fn array_get_set() {
    let mut a: Array<i32> = Array::new(3).unwrap();
    a.push(4).unwrap();
    a.push(5).unwrap();
    a.set(1, 9);
    assert_eq!(a.get(0), 4);
    assert_eq!(a.get(1), 9);
}

#[test]
fn array_refuses_types_that_need_drop() {
    let e = Array::<String>::new(4).unwrap_err();
    assert_eq!(e.kind(), ArrayErrorKind::TypeNeedsDrop);
    assert_eq!(e.message(), "Types that need drop are not supported.");
}
