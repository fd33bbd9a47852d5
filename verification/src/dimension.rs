//! Validated dimensions.
use vstd::prelude::*;

use crate::integer::Int;

verus! {

/// Whether `value` is a valid dimension: `0 < value <= isize::MAX`.
pub open spec fn valid_dimension(value: int) -> bool {
    0 < value <= isize::MAX
}

/// A dimension: a positive integer that is at most `isize::MAX`.
#[derive(Debug)]
pub struct Dimension<I: Int>(I);

impl<I: Int> Dimension<I> {
    #[verifier::type_invariant]
    spec fn inv(self) -> bool {
        valid_dimension(self.0.value())
    }

    /// The wrapped value.
    pub closed spec fn inner(self) -> I {
        self.0
    }

    /// Wrap `dimension` if it is a valid dimension.
    pub fn checked(dimension: I) -> (r: Option<Self>)
        ensures
            r is Some <==> valid_dimension(dimension.value()),
            r matches Some(x) ==> x.inner() == dimension,
    {
        let value = match dimension.try_to_usize() {
            Some(v) => v,
            None => usize::MAX,
        };
        if value > 0 && value <= isize::MAX as usize {
            Some(Self(dimension))
        } else {
            None
        }
    }

    /// Wrap `dimension`, which the caller has checked to be a valid dimension.
    pub fn unchecked(&self, dimension: I) -> (r: Self)
        requires
            valid_dimension(dimension.value()),
        ensures
            r.inner() == dimension,
    {
        Self(dimension)
    }

    /// Return the wrapped value.
    pub fn get(&self) -> (r: I)
        ensures
            r == self.inner(),
            valid_dimension(r.value()),
    {
        proof {
            use_type_invariant(self);
        }
        self.0
    }

    /// Return the dimension as a `usize`.
    pub fn index(&self) -> (r: usize)
        ensures
            r as int == self.inner().value(),
    {
        proof {
            use_type_invariant(self);
        }
        self.0.as_usize()
    }
}

impl<I: Int> Clone for Dimension<I> {
    fn clone(&self) -> (r: Self)
        ensures
            r == *self,
    {
        proof {
            use_type_invariant(self);
        }
        Dimension(self.0)
    }
}

} // verus!
