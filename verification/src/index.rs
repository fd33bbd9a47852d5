//! Validated indices.
use vstd::prelude::*;

use crate::integer::Int;

verus! {

/// Whether `value` is a valid index: `0 <= value <= isize::MAX`.
pub open spec fn valid_index(value: int) -> bool {
    0 <= value <= isize::MAX
}

/// An index: a value in `0..=isize::MAX`.
#[derive(Copy, Debug, Eq, Hash, Ord, PartialEq, PartialOrd)]
pub struct Index<I: Int>(I);

impl<I: Int> Index<I> {
    #[verifier::type_invariant]
    spec fn inv(self) -> bool {
        valid_index(self.0.value())
    }

    /// The wrapped value.
    pub closed spec fn inner(self) -> I {
        self.0
    }

    /// Wrap `index` if it is a valid index.
    pub fn checked(index: I) -> (r: Option<Self>)
        ensures
            r is Some <==> valid_index(index.value()),
            r matches Some(x) ==> x.inner() == index,
    {
        let value = match index.try_to_usize() {
            Some(v) => v,
            None => usize::MAX,
        };
        if value <= isize::MAX as usize {
            Some(Self(index))
        } else {
            None
        }
    }

    /// Wrap `index`, which the caller has checked to be a valid index.
    pub fn unchecked(&self, index: I) -> (r: Self)
        requires
            valid_index(index.value()),
        ensures
            r.inner() == index,
    {
        Self(index)
    }

    /// Return the wrapped value.
    pub fn get(&self) -> (r: I)
        ensures
            r == self.inner(),
            valid_index(r.value()),
    {
        proof {
            use_type_invariant(self);
        }
        self.0
    }

    /// Return the index as a `usize`.
    pub fn index(&self) -> (r: usize)
        ensures
            r as int == self.inner().value(),
    {
        proof {
            use_type_invariant(self);
        }
        self.0.as_usize()
    }

    /// Return the index as an `isize`.
    pub fn offset(&self) -> (r: isize)
        ensures
            r as int == self.inner().value(),
    {
        proof {
            use_type_invariant(self);
        }
        match self.0.try_to_isize() {
            Some(v) => v,
            None => {
                assert(false);
                0
            },
        }
    }
}

impl<I: Int> Clone for Index<I> {
    fn clone(&self) -> (r: Self)
        ensures
            r == *self,
    {
        proof {
            use_type_invariant(self);
        }
        Index(self.0)
    }
}

} // verus!
