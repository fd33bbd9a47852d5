//! Integer types supported by the COLAMD algorithm.
use vstd::prelude::*;

use super::seal::Seal;
use crate::isqrt::{is_isqrt, isqrt_u128, lemma_isqrt_le};

verus! {

/// COLAMD algorithm supported integer types: `i16`, `i32`, `i64` and `isize`.
///
/// This trait is sealed to prevent downstream implementations. The algorithm
/// computes on `i64`, which holds every value of these types.
pub trait ColamdInt: Sized + Copy + Seal {
    /// The mathematical value of `self`.
    spec fn value(self) -> int;

    /// The value of the type whose mathematical value is `v`, when there is one.
    spec fn of(v: int) -> Self;

    /// The smallest value of the type.
    spec fn min_value() -> int;

    /// The largest value of the type.
    spec fn max_value() -> int;

    /// Every value lies within the bounds of its type, which lie between those of
    /// `i16` and those of `i64`.
    proof fn lemma_bounds(self)
        ensures
            Self::min_value() <= self.value() <= Self::max_value(),
            i64::MIN <= Self::min_value() <= -0x8000,
            0x7fff <= Self::max_value() <= i64::MAX,
    ;

    /// `of` gives back the value of a representable integer.
    proof fn lemma_of(v: int)
        requires
            Self::min_value() <= v <= Self::max_value(),
        ensures
            Self::of(v).value() == v,
    ;

    /// The zero value.
    fn zero() -> (r: Self)
        ensures
            r.value() == 0,
            r == Self::of(0),
    ;

    /// The ten value.
    fn ten() -> (r: Self)
        ensures
            r.value() == 10,
    ;

    /// The largest value of the type, as an `i64`.
    fn max_i64() -> (r: i64)
        ensures
            r == Self::max_value(),
    ;

    /// Convert to `i64`.
    fn to_i64(self) -> (r: i64)
        ensures
            r == self.value(),
    ;

    /// Convert an `i64` that fits into the type.
    fn from_i64(v: i64) -> (r: Self)
        requires
            Self::min_value() <= v <= Self::max_value(),
        ensures
            r.value() == v,
            r == Self::of(v as int),
    ;

    /// Convert a non-negative value to `usize`.
    fn as_usize(self) -> (r: usize)
        requires
            0 <= self.value() <= usize::MAX,
        ensures
            r == self.value(),
    {
        proof {
            self.lemma_bounds();
        }
        self.to_i64() as usize
    }

    /// Return the integer square root of a non-negative `self`.
    fn isqrt(self) -> (r: Self)
        requires
            0 <= self.value(),
        ensures
            is_isqrt(self.value(), r.value()),
    {
        proof {
            self.lemma_bounds();
        }
        let x = self.to_i64() as u128;
        let s = isqrt_u128(x);
        proof {
            lemma_isqrt_le(x as int, s as int);
        }
        Self::from_i64(s as i64)
    }

    /// Return the values of the range `[start, stop)` in increasing order.
    fn range(start: Self, stop: Self) -> (r: Vec<Self>)
        ensures
            r@.len() == (if start.value() < stop.value() {
                stop.value() - start.value()
            } else {
                0
            }),
            forall|i: int| 0 <= i < r@.len() ==> #[trigger] r@[i].value() == start.value() + i,
    {
        proof {
            start.lemma_bounds();
            stop.lemma_bounds();
        }
        let a = start.to_i64();
        let b = stop.to_i64();
        let mut r: Vec<Self> = Vec::new();
        let mut x = a;
        while x < b
            invariant
                a <= x <= b || (b < a && x == a),
                Self::min_value() <= a,
                b <= Self::max_value(),
                r@.len() == x - a,
                forall|i: int| 0 <= i < r@.len() ==> #[trigger] r@[i].value() == a + i,
            decreases b - x,
        {
            r.push(Self::from_i64(x));
            x = x + 1;
        }
        r
    }
}

impl ColamdInt for i16 {
    open spec fn value(self) -> int {
        self as int
    }

    open spec fn of(v: int) -> Self {
        v as i16
    }

    open spec fn min_value() -> int {
        -0x8000
    }

    open spec fn max_value() -> int {
        0x7fff
    }

    proof fn lemma_bounds(self) {
        assert(<i16 as ColamdInt>::min_value() == -0x8000);
        assert(<i16 as ColamdInt>::max_value() == 0x7fff);
    }

    proof fn lemma_of(v: int) {
        assert(<i16 as ColamdInt>::min_value() == -0x8000);
        assert(<i16 as ColamdInt>::max_value() == 0x7fff);
        assert(<i16 as ColamdInt>::of(v) == v as i16);
    }

    fn zero() -> (r: Self) {
        assert(<i16 as ColamdInt>::of(0) == 0 as i16);
        0
    }

    fn ten() -> (r: Self) {
        10
    }

    fn max_i64() -> (r: i64) {
        assert(<i16 as ColamdInt>::max_value() == 0x7fff);
        i16::MAX as i64
    }

    fn to_i64(self) -> (r: i64) {
        self as i64
    }

    fn from_i64(v: i64) -> (r: Self) {
        assert(<i16 as ColamdInt>::min_value() == -0x8000);
        assert(<i16 as ColamdInt>::max_value() == 0x7fff);
        assert(<i16 as ColamdInt>::of(v as int) == v as i16);
        v as i16
    }
}

impl ColamdInt for i32 {
    open spec fn value(self) -> int {
        self as int
    }

    open spec fn of(v: int) -> Self {
        v as i32
    }

    open spec fn min_value() -> int {
        -0x8000_0000
    }

    open spec fn max_value() -> int {
        0x7fff_ffff
    }

    proof fn lemma_bounds(self) {
        assert(<i32 as ColamdInt>::min_value() == -0x8000_0000);
        assert(<i32 as ColamdInt>::max_value() == 0x7fff_ffff);
    }

    proof fn lemma_of(v: int) {
        assert(<i32 as ColamdInt>::min_value() == -0x8000_0000);
        assert(<i32 as ColamdInt>::max_value() == 0x7fff_ffff);
        assert(<i32 as ColamdInt>::of(v) == v as i32);
    }

    fn zero() -> (r: Self) {
        assert(<i32 as ColamdInt>::of(0) == 0 as i32);
        0
    }

    fn ten() -> (r: Self) {
        10
    }

    fn max_i64() -> (r: i64) {
        assert(<i32 as ColamdInt>::max_value() == 0x7fff_ffff);
        i32::MAX as i64
    }

    fn to_i64(self) -> (r: i64) {
        self as i64
    }

    fn from_i64(v: i64) -> (r: Self) {
        assert(<i32 as ColamdInt>::min_value() == -0x8000_0000);
        assert(<i32 as ColamdInt>::max_value() == 0x7fff_ffff);
        assert(<i32 as ColamdInt>::of(v as int) == v as i32);
        v as i32
    }
}

impl ColamdInt for i64 {
    open spec fn value(self) -> int {
        self as int
    }

    open spec fn of(v: int) -> Self {
        v as i64
    }

    open spec fn min_value() -> int {
        -0x8000_0000_0000_0000
    }

    open spec fn max_value() -> int {
        0x7fff_ffff_ffff_ffff
    }

    proof fn lemma_bounds(self) {
        assert(<i64 as ColamdInt>::min_value() == -0x8000_0000_0000_0000);
        assert(<i64 as ColamdInt>::max_value() == 0x7fff_ffff_ffff_ffff);
    }

    proof fn lemma_of(v: int) {
        assert(<i64 as ColamdInt>::min_value() == -0x8000_0000_0000_0000);
        assert(<i64 as ColamdInt>::max_value() == 0x7fff_ffff_ffff_ffff);
        assert(<i64 as ColamdInt>::of(v) == v as i64);
    }

    fn zero() -> (r: Self) {
        assert(<i64 as ColamdInt>::of(0) == 0 as i64);
        0
    }

    fn ten() -> (r: Self) {
        10
    }

    fn max_i64() -> (r: i64) {
        assert(<i64 as ColamdInt>::max_value() == 0x7fff_ffff_ffff_ffff);
        i64::MAX as i64
    }

    fn to_i64(self) -> (r: i64) {
        self as i64
    }

    fn from_i64(v: i64) -> (r: Self) {
        assert(<i64 as ColamdInt>::min_value() == -0x8000_0000_0000_0000);
        assert(<i64 as ColamdInt>::max_value() == 0x7fff_ffff_ffff_ffff);
        assert(<i64 as ColamdInt>::of(v as int) == v as i64);
        v as i64
    }
}

impl ColamdInt for isize {
    open spec fn value(self) -> int {
        self as int
    }

    open spec fn of(v: int) -> Self {
        v as isize
    }

    open spec fn min_value() -> int {
        isize::MIN as int
    }

    open spec fn max_value() -> int {
        isize::MAX as int
    }

    proof fn lemma_bounds(self) {
        assert(<isize as ColamdInt>::min_value() == isize::MIN as int);
        assert(<isize as ColamdInt>::max_value() == isize::MAX as int);
    }

    proof fn lemma_of(v: int) {
        assert(<isize as ColamdInt>::min_value() == isize::MIN as int);
        assert(<isize as ColamdInt>::max_value() == isize::MAX as int);
        assert(<isize as ColamdInt>::of(v) == v as isize);
    }

    fn zero() -> (r: Self) {
        assert(<isize as ColamdInt>::of(0) == 0 as isize);
        0
    }

    fn ten() -> (r: Self) {
        10
    }

    fn max_i64() -> (r: i64) {
        assert(<isize as ColamdInt>::max_value() == isize::MAX as int);
        isize::MAX as i64
    }

    fn to_i64(self) -> (r: i64) {
        self as i64
    }

    fn from_i64(v: i64) -> (r: Self) {
        assert(<isize as ColamdInt>::min_value() == isize::MIN as int);
        assert(<isize as ColamdInt>::max_value() == isize::MAX as int);
        assert(<isize as ColamdInt>::of(v as int) == v as isize);
        v as isize
    }
}

} // verus!
