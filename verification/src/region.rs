//! The handle of a mapped memory region, reduced to what a page reads of it.

use vstd::prelude::*;

verus! {

/// A mapped region of virtual memory: where it starts, how many bytes it
/// spans and whether it may be written.
///
/// A page owns the handle of the region it lives in. The handle is not
/// `Clone`: it moves into a page when the page is built and moves out again
/// when the page is retired.
#[derive(Debug, PartialEq, Eq, Structural)]
pub struct MappedPages {
    pub start: usize,
    pub size: usize,
    pub writable: bool,
}

impl MappedPages {
    /// Describes a region by its start address, its size in bytes and its
    /// writable flag.
    pub fn new(start: usize, size: usize, writable: bool) -> (r: MappedPages)
        ensures
            r == (MappedPages { start, size, writable }),
    {
        MappedPages { start, size, writable }
    }

    /// The value that `empty` returns.
    pub open spec fn spec_empty() -> MappedPages {
        MappedPages { start: 0, size: 0, writable: false }
    }

    /// The placeholder that stands for no region at all: zero bytes at address
    /// zero, not writable.
    #[verifier::when_used_as_spec(spec_empty)]
    pub fn empty() -> (r: MappedPages)
        ensures
            r == Self::spec_empty(),
    {
        MappedPages { start: 0, size: 0, writable: false }
    }

    /// The address of the first byte of the region.
    pub fn start_address(&self) -> (r: usize)
        ensures
            r == self.start,
    {
        self.start
    }

    /// The number of bytes that the region spans.
    pub fn size_in_bytes(&self) -> (r: usize)
        ensures
            r == self.size,
    {
        self.size
    }

    /// Whether the region may be written.
    pub fn is_writable(&self) -> (r: bool)
        ensures
            r == self.writable,
    {
        self.writable
    }
}

} // verus!
