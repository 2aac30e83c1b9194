//! Size and alignment of an allocation request.

use vstd::prelude::*;

verus! {

/// Whether `n` has exactly one bit set.
pub open spec fn is_power_of_two(n: usize) -> bool {
    n > 0 && n & ((n - 1) as usize) == 0
}

/// Size and alignment of one object, as a request hands them in.
///
/// The alignment is a power of two, and the size rounded up to the alignment
/// does not exceed `isize::MAX`.
#[derive(Clone, Copy, Debug, PartialEq, Eq, Structural)]
pub struct Layout {
    size: usize,
    align: usize,
}

impl Layout {
    /// The object size in bytes.
    pub closed spec fn spec_size(&self) -> usize {
        self.size
    }

    /// The required alignment in bytes.
    pub closed spec fn spec_align(&self) -> usize {
        self.align
    }

    /// Which pairs of size and alignment make a layout.
    pub open spec fn valid(size: usize, align: usize) -> bool {
        is_power_of_two(align) && size <= isize::MAX - (align - 1)
    }

    #[verifier::type_invariant]
    spec fn inv(&self) -> bool {
        Self::valid(self.size, self.align)
    }

    /// Builds a layout, or returns `None` where the alignment is not a power of
    /// two or the size is too large for it.
    pub fn from_size_align(size: usize, align: usize) -> (r: Option<Layout>)
        ensures
            r is Some <==> Self::valid(size, align),
            r matches Some(l) ==> l.spec_size() == size && l.spec_align() == align,
    {
        if align == 0 || align & (align - 1) != 0 {
            return None;
        }
        let max_size: usize = isize::MAX as usize;
        if align - 1 > max_size || size > max_size - (align - 1) {
            return None;
        }
        Some(Layout { size, align })
    }

    /// The object size in bytes.
    #[verifier::when_used_as_spec(spec_size)]
    pub fn size(&self) -> (r: usize)
        ensures
            r == self.spec_size(),
    {
        self.size
    }

    /// The required alignment in bytes; never zero.
    #[verifier::when_used_as_spec(spec_align)]
    pub fn align(&self) -> (r: usize)
        ensures
            r == self.spec_align(),
            r > 0,
    {
        proof {
            use_type_invariant(self);
        }
        self.align
    }
}

} // verus!
