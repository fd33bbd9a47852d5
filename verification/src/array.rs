//! A bounded, contiguous and homogeneous collection of values.
use vstd::prelude::*;

verus! {

/// Kinds of errors that can occur when creating or modifying an array.
#[derive(Clone, Copy, Debug, PartialEq, Eq, Structural)]
pub enum ArrayErrorKind {
    /// Zero capacity requested.
    ZeroCapacity,
    /// Zero sized type requested.
    ZeroSizedType,
    /// Type needs drop.
    TypeNeedsDrop,
    /// Layout error.
    LayoutError,
    /// Alloc error.
    AllocError,
    /// Capacity overflow.
    CapacityOverflow,
}

/// Errors that can occur when creating or modifying an array.
#[derive(Debug)]
pub struct ArrayError {
    kind: ArrayErrorKind,
}

impl ArrayError {
    /// The kind of the error.
    pub closed spec fn error_kind(&self) -> ArrayErrorKind {
        self.kind
    }

    /// Create an error of the given kind.
    pub fn from_kind(kind: ArrayErrorKind) -> (r: Self)
        ensures
            r.error_kind() == kind,
    {
        ArrayError { kind }
    }

    /// Return the kind of the error.
    pub fn kind(&self) -> (r: ArrayErrorKind)
        ensures
            r == self.error_kind(),
    {
        self.kind
    }

    /// Return the human readable description of the error.
    pub fn message(&self) -> (r: &'static str)
        ensures
            r@ == message_text(self.error_kind()),
    {
        match self.kind {
            ArrayErrorKind::ZeroCapacity => "Empty arrays are not supported.",
            ArrayErrorKind::ZeroSizedType => "Zero sized types are not supported.",
            ArrayErrorKind::TypeNeedsDrop => "Types that need drop are not supported.",
            ArrayErrorKind::LayoutError => "Invalid memory layout.",
            ArrayErrorKind::AllocError => "Memory allocation failed.",
            ArrayErrorKind::CapacityOverflow => "Array capacity overflow.",
        }
    }
}

impl From<ArrayErrorKind> for ArrayError {
    fn from(kind: ArrayErrorKind) -> (r: Self) {
        ArrayError { kind }
    }
}

impl vstd::std_specs::convert::FromSpecImpl<ArrayErrorKind> for ArrayError {
    open spec fn obeys_from_spec() -> bool {
        true
    }

    closed spec fn from_spec(v: ArrayErrorKind) -> Self {
        ArrayError { kind: v }
    }
}

/// The human readable description of an array error of kind `kind`.
pub open spec fn message_text(kind: ArrayErrorKind) -> Seq<char> {
    match kind {
        ArrayErrorKind::ZeroCapacity => "Empty arrays are not supported."@,
        ArrayErrorKind::ZeroSizedType => "Zero sized types are not supported."@,
        ArrayErrorKind::TypeNeedsDrop => "Types that need drop are not supported."@,
        ArrayErrorKind::LayoutError => "Invalid memory layout."@,
        ArrayErrorKind::AllocError => "Memory allocation failed."@,
        ArrayErrorKind::CapacityOverflow => "Array capacity overflow."@,
    }
}

/// The largest size in bytes of an array whose elements have alignment `align`:
/// `isize::MAX - (align - 1)`.
pub open spec fn max_size_for_align(align: int) -> int {
    let pad = if align > 0 {
        align - 1
    } else {
        0
    };
    if pad <= isize::MAX {
        isize::MAX - pad
    } else {
        0
    }
}

/// Whether `capacity` elements of `size` bytes with alignment `align` form a valid
/// memory layout.
pub open spec fn layout_fits(capacity: int, size: int, align: int) -> bool {
    size > 0 && capacity <= max_size_for_align(align) / size
}

/// Whether `capacity` values of type `T` form a valid memory layout: `T` is not
/// zero sized and `capacity * size_of::<T>()` bytes, padded to the alignment of `T`,
/// fit in `isize::MAX`.
pub fn fits_layout<T>(capacity: usize) -> (r: bool)
    ensures
        r == layout_fits(
            capacity as int,
            vstd::layout::size_of::<T>() as int,
            vstd::layout::align_of::<T>() as int,
        ),
{
    let size = core::mem::size_of::<T>();
    if size == 0 {
        return false;
    }
    let align = core::mem::align_of::<T>();
    let pad = if align > 0 {
        align - 1
    } else {
        0
    };
    let max_size = if pad <= isize::MAX as usize {
        isize::MAX as usize - pad
    } else {
        0
    };
    capacity <= max_size / size
}

/// Calls `core::mem::needs_drop::<T>()`: whether dropping a value of type `T` may
/// run code. Its documentation lets it answer `true` for types that need no drop,
/// so nothing is stated of the result; an array of such a type is refused with
/// `TypeNeedsDrop`.
#[verifier::external_body]
fn type_needs_drop<T>() -> bool {
    core::mem::needs_drop::<T>()
}

/// A contiguous, homogeneous and heap allocated collection of values whose length
/// never exceeds the capacity chosen at creation.
#[derive(Debug)]
pub struct Array<T> {
    /// The values.
    data: Vec<T>,
    /// Capacity of the array.
    cap: usize,
}

impl<T> View for Array<T> {
    type V = Seq<T>;

    closed spec fn view(&self) -> Seq<T> {
        self.data@
    }
}

impl<T> Array<T> {
    /// The capacity of the array.
    pub closed spec fn cap(&self) -> nat {
        self.cap as nat
    }

    /// Well-formedness: the capacity is positive and the length is at most the
    /// capacity.
    pub open spec fn wf(&self) -> bool {
        &&& self.cap() > 0
        &&& self@.len() <= self.cap()
    }

    /// Creates a new empty array with the given capacity.
    ///
    /// Fails with `ZeroCapacity` when `capacity == 0`, with `ZeroSizedType` for
    /// zero sized types, with `TypeNeedsDrop` for types that need drop, with
    /// `LayoutError` when `capacity` values do not fit in `isize::MAX` bytes, and with
    /// `AllocError` when the memory cannot be reserved.
    pub fn new(capacity: usize) -> (r: Result<Self, ArrayError>)
        ensures
            capacity == 0 ==> (r matches Err(e) && e.error_kind() == ArrayErrorKind::ZeroCapacity),
            capacity > 0 && vstd::layout::size_of::<T>() == 0 ==> (r matches Err(e)
                && e.error_kind() == ArrayErrorKind::ZeroSizedType),
            r matches Ok(a) ==> {
                &&& a.wf()
                &&& a@ == Seq::<T>::empty()
                &&& a.cap() == capacity
                &&& layout_fits(
                    capacity as int,
                    vstd::layout::size_of::<T>() as int,
                    vstd::layout::align_of::<T>() as int,
                )
            },
            r matches Err(e) ==> {
                ||| capacity == 0 && e.error_kind() == ArrayErrorKind::ZeroCapacity
                ||| capacity > 0 && vstd::layout::size_of::<T>() == 0 && e.error_kind()
                    == ArrayErrorKind::ZeroSizedType
                ||| capacity > 0 && vstd::layout::size_of::<T>() > 0 && e.error_kind()
                    == ArrayErrorKind::TypeNeedsDrop
                ||| capacity > 0 && vstd::layout::size_of::<T>() > 0 && !layout_fits(
                    capacity as int,
                    vstd::layout::size_of::<T>() as int,
                    vstd::layout::align_of::<T>() as int,
                ) && e.error_kind() == ArrayErrorKind::LayoutError
                ||| layout_fits(
                    capacity as int,
                    vstd::layout::size_of::<T>() as int,
                    vstd::layout::align_of::<T>() as int,
                ) && capacity > 0 && e.error_kind() == ArrayErrorKind::AllocError
            },
    {
        // Empty arrays not supported.
        if capacity == 0 {
            return Err(ArrayError { kind: ArrayErrorKind::ZeroCapacity });
        }
        // Zero sized types not supported.
        let size = core::mem::size_of::<T>();
        if size == 0 {
            return Err(ArrayError { kind: ArrayErrorKind::ZeroSizedType });
        }
        // Needs drop type not supported.
        if type_needs_drop::<T>() {
            return Err(ArrayError { kind: ArrayErrorKind::TypeNeedsDrop });
        }
        // Determine allocation layout.
        if !fits_layout::<T>(capacity) {
            return Err(ArrayError { kind: ArrayErrorKind::LayoutError });
        }
        // Allocate memory.
        let mut data: Vec<T> = Vec::new();
        match data.try_reserve(capacity) {
            Ok(()) => Ok(Array { data, cap: capacity }),
            Err(_) => Err(ArrayError { kind: ArrayErrorKind::AllocError }),
        }
    }

    /// Creates a new empty array with the given positive capacity, reserving memory
    /// as values are pushed.
    pub(crate) fn with_capacity(capacity: usize) -> (r: Self)
        requires
            capacity > 0,
        ensures
            r.wf(),
            r@ == Seq::<T>::empty(),
            r.cap() == capacity,
    {
        Array { data: Vec::new(), cap: capacity }
    }

    /// Returns array length.
    pub fn length(&self) -> (r: usize)
        ensures
            r == self@.len(),
    {
        self.data.len()
    }

    /// Returns array capacity.
    pub fn capacity(&self) -> (r: usize)
        ensures
            r == self.cap(),
    {
        self.cap
    }

    /// Clears the array.
    pub fn clear(&mut self)
        requires
            old(self).wf(),
        ensures
            final(self).wf(),
            final(self)@ == Seq::<T>::empty(),
            final(self).cap() == old(self).cap(),
    {
        self.data.clear();
    }

    /// Pushes a value to the array, or fails with `CapacityOverflow` when the array
    /// is full.
    pub fn push(&mut self, element: T) -> (r: Result<(), ArrayError>)
        requires
            old(self).wf(),
        ensures
            final(self).wf(),
            final(self).cap() == old(self).cap(),
            old(self)@.len() < old(self).cap() ==> r is Ok && final(self)@ == old(self)@.push(
                element,
            ),
            old(self)@.len() == old(self).cap() ==> (r matches Err(e) && e.error_kind()
                == ArrayErrorKind::CapacityOverflow && final(self)@ == old(self)@),
    {
        if self.data.len() == self.cap {
            return Err(ArrayError { kind: ArrayErrorKind::CapacityOverflow });
        }
        self.data.push(element);
        Ok(())
    }

    /// Returns the values as a slice.
    pub fn as_slice(&self) -> (r: &[T])
        ensures
            r@ == self@,
    {
        self.data.as_slice()
    }

    /// Replaces the value at `index`.
    pub fn set(&mut self, index: usize, value: T)
        requires
            old(self).wf(),
            index < old(self)@.len(),
        ensures
            final(self).wf(),
            final(self).cap() == old(self).cap(),
            final(self)@ == old(self)@.update(index as int, value),
    {
        self.data.set(index, value);
    }

    /// Shortens the array to `length` values.
    pub(crate) fn truncate(&mut self, length: usize)
        requires
            old(self).wf(),
            length <= old(self)@.len(),
        ensures
            final(self).wf(),
            final(self).cap() == old(self).cap(),
            final(self)@ == old(self)@.subrange(0, length as int),
    {
        self.data.truncate(length);
    }
}

impl<T: Copy> Array<T> {
    /// Sets the length of the array to `length`, every value being `value`, or fails
    /// with `CapacityOverflow` when `length` exceeds the capacity.
    pub fn resize(&mut self, length: usize, value: T) -> (r: Result<(), ArrayError>)
        requires
            old(self).wf(),
        ensures
            final(self).wf(),
            final(self).cap() == old(self).cap(),
            length <= old(self).cap() ==> r is Ok && final(self)@ == Seq::new(
                length as nat,
                |i: int| value,
            ),
            length > old(self).cap() ==> (r matches Err(e) && e.error_kind()
                == ArrayErrorKind::CapacityOverflow && final(self)@ == old(self)@),
    {
        if length > self.cap {
            return Err(ArrayError { kind: ArrayErrorKind::CapacityOverflow });
        }
        self.data.clear();
        let mut i: usize = 0;
        while i < length
            invariant
                i <= length <= self.cap,
                self.cap == old(self).cap,
                self.cap > 0,
                self.data@ == Seq::new(i as nat, |k: int| value),
            decreases length - i,
        {
            self.data.push(value);
            i = i + 1;
        }
        Ok(())
    }

    /// Returns the value at `index`.
    pub fn get(&self, index: usize) -> (r: T)
        requires
            index < self@.len(),
        ensures
            r == self@[index as int],
    {
        self.data[index]
    }
}

impl<T: Copy> Clone for Array<T> {
    fn clone(&self) -> (r: Self)
        ensures
            r@ == self@,
            r.cap() == self.cap(),
            self.wf() ==> r.wf(),
    {
        let mut data: Vec<T> = Vec::new();
        let n = self.data.len();
        let mut i: usize = 0;
        while i < n
            invariant
                i <= n == self.data@.len(),
                data@ == self.data@.subrange(0, i as int),
            decreases n - i,
        {
            data.push(self.data[i]);
            i = i + 1;
        }
        Array { data, cap: self.cap }
    }
}

} // verus!
