use sparse::dimension::Dimension;
use sparse::index::Index;
use sparse::integer::Int;
use sparse::isqrt::isqrt_u128;
use sparse::offset::Offset;

#[test]
fn isqrt_values() {
    assert_eq!(isqrt_u128(0), 0);
    assert_eq!(isqrt_u128(1), 1);
    assert_eq!(isqrt_u128(15), 3);
    assert_eq!(isqrt_u128(16), 4);
    assert_eq!(isqrt_u128(17), 4);
    assert_eq!(isqrt_u128(u128::MAX), u64::MAX as u128);
    assert_eq!(Int::isqrt(99i32), 9);
    assert_eq!(Int::isqrt(100u8), 10);
    assert_eq!(Int::isqrt(i64::MAX), 3037000499);
}

#[test]
fn int_range() {
    assert_eq!(i32::range(2, 6), vec![2, 3, 4, 5]);
    assert_eq!(u8::range(6, 2), Vec::<u8>::new());
    assert_eq!(i8::range(-2, 1), vec![-2, -1, 0]);
}

#[test]
fn int_conversions() {
    assert_eq!((-1i32).as_usize(), usize::MAX);
    assert_eq!(7i16.as_usize(), 7);
    assert_eq!((-1i64).try_to_usize(), None);
    assert_eq!(5u128.try_to_usize(), Some(5));
    assert_eq!(u64::MAX.try_to_isize(), None);
    assert_eq!((-3i8).try_to_isize(), Some(-3));
    assert_eq!(u16::from_u128(300), 300);
    assert_eq!(i32::zero(), 0);
    assert_eq!(i32::one(), 1);
    assert_eq!(usize::ten(), 10);
    assert!(3u32.less(4));
    assert!(!4u32.less(4));
    assert_eq!(41i64.succ(), 42);
}

#[test]
fn index_checked() {
    assert!(Index::checked(-1i32).is_none());
    let i = Index::checked(5i32).unwrap();
    assert_eq!(i.get(), 5);
    assert_eq!(i.index(), 5);
    assert_eq!(i.offset(), 5);
    assert_eq!(i.unchecked(0).get(), 0);
    assert!(Index::checked(u64::MAX).is_none());
    assert!(Index::checked(0u64).is_some());
}

#[test]
fn offset_checked() {
    assert!(Offset::checked(i64::MIN).is_none());
    assert_eq!(Offset::checked(-4i64).unwrap().get(), -4);
    assert!(Offset::checked(u64::MAX).is_none());
    assert_eq!(Offset::checked(-4i64).unwrap().unchecked(3).get(), 3);
}

#[test]
fn dimension_checked() {
    assert!(Dimension::checked(0i32).is_none());
    assert!(Dimension::checked(-3i32).is_none());
    let d = Dimension::checked(3i32).unwrap();
    assert_eq!(d.get(), 3);
    assert_eq!(d.index(), 3);
    assert_eq!(d.unchecked(8).get(), 8);
}
