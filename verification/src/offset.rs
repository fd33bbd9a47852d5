//! Validated offsets.
use vstd::prelude::*;

use crate::integer::Int;

verus! {

/// Whether `value` is a valid offset: `isize::MIN < value <= isize::MAX`.
pub open spec fn valid_offset(value: int) -> bool {
    isize::MIN < value <= isize::MAX
}

/// An offset: a value in `isize::MIN + 1..=isize::MAX`.
#[derive(Copy, Debug)]
pub struct Offset<I: Int>(I);

impl<I: Int> Offset<I> {
    #[verifier::type_invariant]
    spec fn inv(self) -> bool {
        valid_offset(self.0.value())
    }

    /// The wrapped value.
    pub closed spec fn inner(self) -> I {
        self.0
    }

    /// Wrap `offset` if it is a valid offset.
    pub fn checked(offset: I) -> (r: Option<Self>)
        ensures
            r is Some <==> valid_offset(offset.value()),
            r matches Some(x) ==> x.inner() == offset,
    {
        let value = match offset.try_to_isize() {
            Some(v) => v,
            None => isize::MIN,
        };
        if value > isize::MIN && value <= isize::MAX {
            Some(Self(offset))
        } else {
            None
        }
    }

    /// Wrap `offset`, which the caller has checked to be a valid offset.
    pub fn unchecked(&self, offset: I) -> (r: Self)
        requires
            valid_offset(offset.value()),
        ensures
            r.inner() == offset,
    {
        Self(offset)
    }

    /// Return the wrapped value.
    pub fn get(&self) -> (r: I)
        ensures
            r == self.inner(),
            valid_offset(r.value()),
    {
        proof {
            use_type_invariant(self);
        }
        self.0
    }

    /// Return a non-negative offset as an index.
    pub fn index(&self) -> (r: usize)
        requires
            0 <= self.inner().value(),
        ensures
            r as int == self.inner().value(),
    {
        proof {
            use_type_invariant(self);
        }
        self.0.as_usize()
    }
}

impl<I: Int> Clone for Offset<I> {
    fn clone(&self) -> (r: Self)
        ensures
            r == *self,
    {
        proof {
            use_type_invariant(self);
        }
        Offset(self.0)
    }
}

} // verus!
