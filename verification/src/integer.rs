//! Integer types usable as indices of sparse matrices.
use vstd::prelude::*;

use crate::isqrt::{is_isqrt, isqrt_u128, lemma_isqrt_le};

verus! {

/// Seal trait for index types.
pub trait Seal {}

impl Seal for u8 {}

impl Seal for u16 {}

impl Seal for u32 {}

impl Seal for u64 {}

impl Seal for u128 {}

impl Seal for usize {}

impl Seal for i8 {}

impl Seal for i16 {}

impl Seal for i32 {}

impl Seal for i64 {}

impl Seal for i128 {}

impl Seal for isize {}

/// A trait for index types that can be used in sparse matrices.
///
/// Each implementor is one of Rust's primitive integer types; `value` is its
/// mathematical value.
pub trait Int: Sized + Copy + Seal {
    /// The mathematical value of `self`.
    spec fn value(self) -> int;

    /// The smallest value of the type.
    spec fn min_value() -> int;

    /// The largest value of the type.
    spec fn max_value() -> int;

    /// Every value lies within the bounds of its type, which contain at least `0..=127`.
    proof fn lemma_bounds(self)
        ensures
            Self::min_value() <= self.value() <= Self::max_value(),
            Self::min_value() <= 0,
            127 <= Self::max_value(),
    ;

    /// Two values are equal exactly when their mathematical values are.
    proof fn lemma_injective(self, other: Self)
        ensures
            self.value() == other.value() ==> self == other,
    ;

    /// The zero value.
    fn zero() -> (r: Self)
        ensures
            r.value() == 0,
    ;

    /// The one value.
    fn one() -> (r: Self)
        ensures
            r.value() == 1,
    ;

    /// The ten value.
    fn ten() -> (r: Self)
        ensures
            r.value() == 10,
    ;

    /// Whether `self` is strictly smaller than `other`.
    fn less(self, other: Self) -> (r: bool)
        ensures
            r == (self.value() < other.value()),
    ;

    /// The successor of `self`.
    fn succ(self) -> (r: Self)
        requires
            self.value() < Self::max_value(),
        ensures
            r.value() == self.value() + 1,
    ;

    /// Convert to `usize` the way an `as` cast does: exactly when the value fits,
    /// by truncation otherwise.
    fn as_usize(self) -> (r: usize)
        ensures
            r == self.value() as usize,
            0 <= self.value() <= usize::MAX ==> r as int == self.value(),
    ;

    /// Convert to `usize` when the value fits.
    fn try_to_usize(self) -> (r: Option<usize>)
        ensures
            r == (if 0 <= self.value() <= usize::MAX {
                Some(self.value() as usize)
            } else {
                None
            }),
    ;

    /// Convert to `isize` when the value fits.
    fn try_to_isize(self) -> (r: Option<isize>)
        ensures
            r == (if isize::MIN <= self.value() <= isize::MAX {
                Some(self.value() as isize)
            } else {
                None
            }),
    ;

    /// Convert a non-negative value to `u128`.
    fn to_u128(self) -> (r: u128)
        requires
            0 <= self.value(),
        ensures
            r as int == self.value(),
    ;

    /// Convert a `u128` that fits into the type.
    fn from_u128(x: u128) -> (r: Self)
        requires
            x <= Self::max_value(),
        ensures
            r.value() == x as int,
    ;

    /// Return the values of the range `[start, stop)` in increasing order.
    fn range(start: Self, stop: Self) -> (r: Vec<Self>)
        requires
            stop.value() - start.value() <= usize::MAX,
        ensures
            r@.len() == (if start.value() < stop.value() {
                stop.value() - start.value()
            } else {
                0
            }),
            forall|i: int| 0 <= i < r@.len() ==> #[trigger] r@[i].value() == start.value() + i,
    {
        let mut r: Vec<Self> = Vec::new();
        if !start.less(stop) {
            return r;
        }
        let mut x = start;
        let mut n: usize = 0;
        proof {
            start.lemma_bounds();
            stop.lemma_bounds();
        }
        while x.less(stop)
            invariant
                start.value() <= x.value() <= stop.value(),
                stop.value() - start.value() <= usize::MAX,
                stop.value() <= Self::max_value(),
                n as int == x.value() - start.value(),
                r@.len() == n,
                forall|i: int| 0 <= i < r@.len() ==> #[trigger] r@[i].value() == start.value() + i,
            decreases stop.value() - x.value(),
        {
            r.push(x);
            x = x.succ();
            n = n + 1;
        }
        r
    }

    /// Return the integer square root of `self`, which must be non-negative.
    fn isqrt(self) -> (r: Self)
        requires
            0 <= self.value(),
        ensures
            is_isqrt(self.value(), r.value()),
    {
        let x = self.to_u128();
        let s = isqrt_u128(x);
        proof {
            lemma_isqrt_le(x as int, s as int);
            self.lemma_bounds();
        }
        Self::from_u128(s)
    }
}

impl Int for u8 {
    open spec fn value(self) -> int {
        self as int
    }

    open spec fn min_value() -> int {
        0
    }

    open spec fn max_value() -> int {
        0xff
    }

    proof fn lemma_bounds(self) {
        assert(<u8 as Int>::min_value() == 0);
        assert(<u8 as Int>::max_value() == 0xff);
    }

    proof fn lemma_injective(self, other: Self) {
    }

    fn zero() -> (r: Self) {
        0
    }

    fn one() -> (r: Self) {
        1
    }

    fn ten() -> (r: Self) {
        10
    }

    fn less(self, other: Self) -> (r: bool) {
        self < other
    }

    fn succ(self) -> (r: Self) {
        assert(<u8 as Int>::max_value() == 0xff);
        self + 1
    }

    fn as_usize(self) -> (r: usize) {
        self as usize
    }

    fn try_to_usize(self) -> (r: Option<usize>) {
        Some(self as usize)
    }

    fn try_to_isize(self) -> (r: Option<isize>) {
        Some(self as isize)
    }

    fn to_u128(self) -> (r: u128) {
        self as u128
    }

    fn from_u128(x: u128) -> (r: Self) {
        assert(<u8 as Int>::max_value() == 0xff);
        x as u8
    }
}

impl Int for u16 {
    open spec fn value(self) -> int {
        self as int
    }

    open spec fn min_value() -> int {
        0
    }

    open spec fn max_value() -> int {
        0xffff
    }

    proof fn lemma_bounds(self) {
        assert(<u16 as Int>::min_value() == 0);
        assert(<u16 as Int>::max_value() == 0xffff);
    }

    proof fn lemma_injective(self, other: Self) {
    }

    fn zero() -> (r: Self) {
        0
    }

    fn one() -> (r: Self) {
        1
    }

    fn ten() -> (r: Self) {
        10
    }

    fn less(self, other: Self) -> (r: bool) {
        self < other
    }

    fn succ(self) -> (r: Self) {
        assert(<u16 as Int>::max_value() == 0xffff);
        self + 1
    }

    fn as_usize(self) -> (r: usize) {
        self as usize
    }

    fn try_to_usize(self) -> (r: Option<usize>) {
        Some(self as usize)
    }

    fn try_to_isize(self) -> (r: Option<isize>) {
        Some(self as isize)
    }

    fn to_u128(self) -> (r: u128) {
        self as u128
    }

    fn from_u128(x: u128) -> (r: Self) {
        assert(<u16 as Int>::max_value() == 0xffff);
        x as u16
    }
}

impl Int for u32 {
    open spec fn value(self) -> int {
        self as int
    }

    open spec fn min_value() -> int {
        0
    }

    open spec fn max_value() -> int {
        0xffff_ffff
    }

    proof fn lemma_bounds(self) {
        assert(<u32 as Int>::min_value() == 0);
        assert(<u32 as Int>::max_value() == 0xffff_ffff);
    }

    proof fn lemma_injective(self, other: Self) {
    }

    fn zero() -> (r: Self) {
        0
    }

    fn one() -> (r: Self) {
        1
    }

    fn ten() -> (r: Self) {
        10
    }

    fn less(self, other: Self) -> (r: bool) {
        self < other
    }

    fn succ(self) -> (r: Self) {
        assert(<u32 as Int>::max_value() == 0xffff_ffff);
        self + 1
    }

    fn as_usize(self) -> (r: usize) {
        self as usize
    }

    fn try_to_usize(self) -> (r: Option<usize>) {
        Some(self as usize)
    }

    fn try_to_isize(self) -> (r: Option<isize>) {
        if (self as u64) <= isize::MAX as u64 {
            Some(self as isize)
        } else {
            None
        }
    }

    fn to_u128(self) -> (r: u128) {
        self as u128
    }

    fn from_u128(x: u128) -> (r: Self) {
        assert(<u32 as Int>::max_value() == 0xffff_ffff);
        x as u32
    }
}

impl Int for u64 {
    open spec fn value(self) -> int {
        self as int
    }

    open spec fn min_value() -> int {
        0
    }

    open spec fn max_value() -> int {
        0xffff_ffff_ffff_ffff
    }

    proof fn lemma_bounds(self) {
        assert(<u64 as Int>::min_value() == 0);
        assert(<u64 as Int>::max_value() == 0xffff_ffff_ffff_ffff);
    }

    proof fn lemma_injective(self, other: Self) {
    }

    fn zero() -> (r: Self) {
        0
    }

    fn one() -> (r: Self) {
        1
    }

    fn ten() -> (r: Self) {
        10
    }

    fn less(self, other: Self) -> (r: bool) {
        self < other
    }

    fn succ(self) -> (r: Self) {
        assert(<u64 as Int>::max_value() == 0xffff_ffff_ffff_ffff);
        self + 1
    }

    fn as_usize(self) -> (r: usize) {
        self as usize
    }

    fn try_to_usize(self) -> (r: Option<usize>) {
        if self <= usize::MAX as u64 {
            Some(self as usize)
        } else {
            None
        }
    }

    fn try_to_isize(self) -> (r: Option<isize>) {
        if self <= isize::MAX as u64 {
            Some(self as isize)
        } else {
            None
        }
    }

    fn to_u128(self) -> (r: u128) {
        self as u128
    }

    fn from_u128(x: u128) -> (r: Self) {
        assert(<u64 as Int>::max_value() == 0xffff_ffff_ffff_ffff);
        x as u64
    }
}

impl Int for u128 {
    open spec fn value(self) -> int {
        self as int
    }

    open spec fn min_value() -> int {
        0
    }

    open spec fn max_value() -> int {
        0xffff_ffff_ffff_ffff_ffff_ffff_ffff_ffff
    }

    proof fn lemma_bounds(self) {
        assert(<u128 as Int>::min_value() == 0);
        assert(<u128 as Int>::max_value() == 0xffff_ffff_ffff_ffff_ffff_ffff_ffff_ffff);
    }

    proof fn lemma_injective(self, other: Self) {
    }

    fn zero() -> (r: Self) {
        0
    }

    fn one() -> (r: Self) {
        1
    }

    fn ten() -> (r: Self) {
        10
    }

    fn less(self, other: Self) -> (r: bool) {
        self < other
    }

    fn succ(self) -> (r: Self) {
        assert(<u128 as Int>::max_value() == 0xffff_ffff_ffff_ffff_ffff_ffff_ffff_ffff);
        self + 1
    }

    fn as_usize(self) -> (r: usize) {
        self as usize
    }

    fn try_to_usize(self) -> (r: Option<usize>) {
        if self <= usize::MAX as u128 {
            Some(self as usize)
        } else {
            None
        }
    }

    fn try_to_isize(self) -> (r: Option<isize>) {
        if self <= isize::MAX as u128 {
            Some(self as isize)
        } else {
            None
        }
    }

    fn to_u128(self) -> (r: u128) {
        self as u128
    }

    fn from_u128(x: u128) -> (r: Self) {
        assert(<u128 as Int>::max_value() == 0xffff_ffff_ffff_ffff_ffff_ffff_ffff_ffff);
        x as u128
    }
}

impl Int for usize {
    open spec fn value(self) -> int {
        self as int
    }

    open spec fn min_value() -> int {
        0
    }

    open spec fn max_value() -> int {
        usize::MAX as int
    }

    proof fn lemma_bounds(self) {
        assert(<usize as Int>::min_value() == 0);
        assert(<usize as Int>::max_value() == usize::MAX as int);
    }

    proof fn lemma_injective(self, other: Self) {
    }

    fn zero() -> (r: Self) {
        0
    }

    fn one() -> (r: Self) {
        1
    }

    fn ten() -> (r: Self) {
        10
    }

    fn less(self, other: Self) -> (r: bool) {
        self < other
    }

    fn succ(self) -> (r: Self) {
        assert(<usize as Int>::max_value() == usize::MAX as int);
        self + 1
    }

    fn as_usize(self) -> (r: usize) {
        self as usize
    }

    fn try_to_usize(self) -> (r: Option<usize>) {
        Some(self)
    }

    fn try_to_isize(self) -> (r: Option<isize>) {
        if self <= isize::MAX as usize {
            Some(self as isize)
        } else {
            None
        }
    }

    fn to_u128(self) -> (r: u128) {
        self as u128
    }

    fn from_u128(x: u128) -> (r: Self) {
        assert(<usize as Int>::max_value() == usize::MAX as int);
        x as usize
    }
}

impl Int for i8 {
    open spec fn value(self) -> int {
        self as int
    }

    open spec fn min_value() -> int {
        -0x80
    }

    open spec fn max_value() -> int {
        0x7f
    }

    proof fn lemma_bounds(self) {
        assert(<i8 as Int>::min_value() == -0x80);
        assert(<i8 as Int>::max_value() == 0x7f);
    }

    proof fn lemma_injective(self, other: Self) {
    }

    fn zero() -> (r: Self) {
        0
    }

    fn one() -> (r: Self) {
        1
    }

    fn ten() -> (r: Self) {
        10
    }

    fn less(self, other: Self) -> (r: bool) {
        self < other
    }

    fn succ(self) -> (r: Self) {
        assert(<i8 as Int>::max_value() == 0x7f);
        self + 1
    }

    fn as_usize(self) -> (r: usize) {
        self as usize
    }

    fn try_to_usize(self) -> (r: Option<usize>) {
        if self >= 0 {
            Some(self as usize)
        } else {
            None
        }
    }

    fn try_to_isize(self) -> (r: Option<isize>) {
        Some(self as isize)
    }

    fn to_u128(self) -> (r: u128) {
        self as u128
    }

    fn from_u128(x: u128) -> (r: Self) {
        assert(<i8 as Int>::max_value() == 0x7f);
        x as i8
    }
}

impl Int for i16 {
    open spec fn value(self) -> int {
        self as int
    }

    open spec fn min_value() -> int {
        -0x8000
    }

    open spec fn max_value() -> int {
        0x7fff
    }

    proof fn lemma_bounds(self) {
        assert(<i16 as Int>::min_value() == -0x8000);
        assert(<i16 as Int>::max_value() == 0x7fff);
    }

    proof fn lemma_injective(self, other: Self) {
    }

    fn zero() -> (r: Self) {
        0
    }

    fn one() -> (r: Self) {
        1
    }

    fn ten() -> (r: Self) {
        10
    }

    fn less(self, other: Self) -> (r: bool) {
        self < other
    }

    fn succ(self) -> (r: Self) {
        assert(<i16 as Int>::max_value() == 0x7fff);
        self + 1
    }

    fn as_usize(self) -> (r: usize) {
        self as usize
    }

    fn try_to_usize(self) -> (r: Option<usize>) {
        if self >= 0 {
            Some(self as usize)
        } else {
            None
        }
    }

    fn try_to_isize(self) -> (r: Option<isize>) {
        Some(self as isize)
    }

    fn to_u128(self) -> (r: u128) {
        self as u128
    }

    fn from_u128(x: u128) -> (r: Self) {
        assert(<i16 as Int>::max_value() == 0x7fff);
        x as i16
    }
}

impl Int for i32 {
    open spec fn value(self) -> int {
        self as int
    }

    open spec fn min_value() -> int {
        -0x8000_0000
    }

    open spec fn max_value() -> int {
        0x7fff_ffff
    }

    proof fn lemma_bounds(self) {
        assert(<i32 as Int>::min_value() == -0x8000_0000);
        assert(<i32 as Int>::max_value() == 0x7fff_ffff);
    }

    proof fn lemma_injective(self, other: Self) {
    }

    fn zero() -> (r: Self) {
        0
    }

    fn one() -> (r: Self) {
        1
    }

    fn ten() -> (r: Self) {
        10
    }

    fn less(self, other: Self) -> (r: bool) {
        self < other
    }

    fn succ(self) -> (r: Self) {
        assert(<i32 as Int>::max_value() == 0x7fff_ffff);
        self + 1
    }

    fn as_usize(self) -> (r: usize) {
        self as usize
    }

    fn try_to_usize(self) -> (r: Option<usize>) {
        if self >= 0 {
            Some(self as usize)
        } else {
            None
        }
    }

    fn try_to_isize(self) -> (r: Option<isize>) {
        Some(self as isize)
    }

    fn to_u128(self) -> (r: u128) {
        self as u128
    }

    fn from_u128(x: u128) -> (r: Self) {
        assert(<i32 as Int>::max_value() == 0x7fff_ffff);
        x as i32
    }
}

impl Int for i64 {
    open spec fn value(self) -> int {
        self as int
    }

    open spec fn min_value() -> int {
        -0x8000_0000_0000_0000
    }

    open spec fn max_value() -> int {
        0x7fff_ffff_ffff_ffff
    }

    proof fn lemma_bounds(self) {
        assert(<i64 as Int>::min_value() == -0x8000_0000_0000_0000);
        assert(<i64 as Int>::max_value() == 0x7fff_ffff_ffff_ffff);
    }

    proof fn lemma_injective(self, other: Self) {
    }

    fn zero() -> (r: Self) {
        0
    }

    fn one() -> (r: Self) {
        1
    }

    fn ten() -> (r: Self) {
        10
    }

    fn less(self, other: Self) -> (r: bool) {
        self < other
    }

    fn succ(self) -> (r: Self) {
        assert(<i64 as Int>::max_value() == 0x7fff_ffff_ffff_ffff);
        self + 1
    }

    fn as_usize(self) -> (r: usize) {
        self as usize
    }

    fn try_to_usize(self) -> (r: Option<usize>) {
        if self >= 0 && (self as u64) <= usize::MAX as u64 {
            Some(self as usize)
        } else {
            None
        }
    }

    fn try_to_isize(self) -> (r: Option<isize>) {
        if isize::MIN as i64 <= self && self <= isize::MAX as i64 {
            Some(self as isize)
        } else {
            None
        }
    }

    fn to_u128(self) -> (r: u128) {
        self as u128
    }

    fn from_u128(x: u128) -> (r: Self) {
        assert(<i64 as Int>::max_value() == 0x7fff_ffff_ffff_ffff);
        x as i64
    }
}

impl Int for i128 {
    open spec fn value(self) -> int {
        self as int
    }

    open spec fn min_value() -> int {
        -0x8000_0000_0000_0000_0000_0000_0000_0000
    }

    open spec fn max_value() -> int {
        0x7fff_ffff_ffff_ffff_ffff_ffff_ffff_ffff
    }

    proof fn lemma_bounds(self) {
        assert(<i128 as Int>::min_value() == -0x8000_0000_0000_0000_0000_0000_0000_0000);
        assert(<i128 as Int>::max_value() == 0x7fff_ffff_ffff_ffff_ffff_ffff_ffff_ffff);
    }

    proof fn lemma_injective(self, other: Self) {
    }

    fn zero() -> (r: Self) {
        0
    }

    fn one() -> (r: Self) {
        1
    }

    fn ten() -> (r: Self) {
        10
    }

    fn less(self, other: Self) -> (r: bool) {
        self < other
    }

    fn succ(self) -> (r: Self) {
        assert(<i128 as Int>::max_value() == 0x7fff_ffff_ffff_ffff_ffff_ffff_ffff_ffff);
        self + 1
    }

    fn as_usize(self) -> (r: usize) {
        self as usize
    }

    fn try_to_usize(self) -> (r: Option<usize>) {
        if self >= 0 && (self as u128) <= usize::MAX as u128 {
            Some(self as usize)
        } else {
            None
        }
    }

    fn try_to_isize(self) -> (r: Option<isize>) {
        if isize::MIN as i128 <= self && self <= isize::MAX as i128 {
            Some(self as isize)
        } else {
            None
        }
    }

    fn to_u128(self) -> (r: u128) {
        self as u128
    }

    fn from_u128(x: u128) -> (r: Self) {
        assert(<i128 as Int>::max_value() == 0x7fff_ffff_ffff_ffff_ffff_ffff_ffff_ffff);
        x as i128
    }
}

impl Int for isize {
    open spec fn value(self) -> int {
        self as int
    }

    open spec fn min_value() -> int {
        isize::MIN as int
    }

    open spec fn max_value() -> int {
        isize::MAX as int
    }

    proof fn lemma_bounds(self) {
        assert(<isize as Int>::min_value() == isize::MIN as int);
        assert(<isize as Int>::max_value() == isize::MAX as int);
    }

    proof fn lemma_injective(self, other: Self) {
    }

    fn zero() -> (r: Self) {
        0
    }

    fn one() -> (r: Self) {
        1
    }

    fn ten() -> (r: Self) {
        10
    }

    fn less(self, other: Self) -> (r: bool) {
        self < other
    }

    fn succ(self) -> (r: Self) {
        assert(<isize as Int>::max_value() == isize::MAX as int);
        self + 1
    }

    fn as_usize(self) -> (r: usize) {
        self as usize
    }

    fn try_to_usize(self) -> (r: Option<usize>) {
        if self >= 0 {
            Some(self as usize)
        } else {
            None
        }
    }

    fn try_to_isize(self) -> (r: Option<isize>) {
        Some(self)
    }

    fn to_u128(self) -> (r: u128) {
        self as u128
    }

    fn from_u128(x: u128) -> (r: Self) {
        assert(<isize as Int>::max_value() == isize::MAX as int);
        x as isize
    }
}

} // verus!
