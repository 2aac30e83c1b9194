//! Pages that objects are allocated from.

use vstd::prelude::*;
use vstd::arithmetic::div_mod::{lemma_fundamental_div_mod, lemma_fundamental_div_mod_converse};
use crate::bitfield::{
    first_fit_spec, lemma_first_fit_found, lemma_set_then_clear, lemma_with_slot_set, search_for,
    slot_allocated, slot_count, with_slot_cleared, with_slot_set, Bitfield, Search,
};
use crate::layout::Layout;
use crate::rawlink::Rawlink;
use crate::region::MappedPages;

verus! {

/// What a page is, to its contracts.
pub struct PageModel {
    /// The address of the page's first byte.
    pub base: usize,
    /// The handle of the region that the page lives in.
    pub region: MappedPages,
    /// The tag of the heap that the page belongs to.
    pub heap_id: usize,
    /// The link to the page before this one in its list.
    pub prev: Option<usize>,
    /// The link to the page after this one in its list.
    pub next: Option<usize>,
    /// The words of the occupancy tracker.
    pub bits: Seq<u64>,
}

/// The number of words in a page's occupancy tracker.
pub const TRACKER_WORDS: usize = 8;

/// A tracker in which every slot is free.
pub open spec fn all_slots_free() -> Seq<u64> {
    Seq::new(TRACKER_WORDS as nat, |i: int| 0u64)
}

impl PageModel {
    /// Whether the page lies at a multiple of `page_size`, inside the address
    /// space, and tracks its slots in `TRACKER_WORDS` words.
    pub open spec fn well_formed(self, page_size: int) -> bool {
        &&& page_size > 0
        &&& self.base as int % page_size == 0
        &&& self.base + page_size <= usize::MAX + 1
        &&& self.bits.len() == TRACKER_WORDS
    }

    /// The page as `new` builds it from the region `mp`.
    pub open spec fn fresh(mp: MappedPages, heap_id: usize) -> PageModel {
        PageModel {
            base: mp.start,
            region: mp,
            heap_id,
            prev: None,
            next: None,
            bits: all_slots_free(),
        }
    }
}

/// Whether a page of `page_size` bytes can be built in the region `mp`: the
/// region starts at a multiple of the page size, is writable and has exactly
/// the page's size.
pub open spec fn region_accepted(mp: MappedPages, page_size: int) -> bool {
    &&& mp.start as int % page_size == 0
    &&& mp.writable
    &&& mp.size == page_size
}

/// The slot that an address inside a page belongs to, for objects of `size`
/// bytes.
pub open spec fn slot_of_address(addr: int, size: int, page_size: int) -> int {
    (addr % page_size) / size
}

/// Whether `addr` is the address of an allocated slot of a page with the
/// tracker `bits`: it lies a multiple of `size` into its page, at a slot that
/// the tracker knows and has marked allocated.
pub open spec fn can_deallocate(bits: Seq<u64>, addr: int, size: int, page_size: int) -> bool {
    &&& (addr % page_size) % size == 0
    &&& slot_of_address(addr, size, page_size) < slot_count(bits)
    &&& slot_allocated(bits, slot_of_address(addr, size, page_size))
}

/// Allocating a slot and at once freeing the address that came back leaves
/// the tracker as it was: the address leads back to the slot that was marked,
/// that slot may be freed, and freeing it restores every word.
pub proof fn lemma_allocate_then_deallocate(page: PageModel, search: Search)
    requires
        page.well_formed(search.page_size),
        search.base == page.base,
        search.size > 0,
        search.metadata_size >= 0,
        first_fit_spec(page.bits, search) is Some,
    ensures
        ({
            let (idx, addr) = first_fit_spec(page.bits, search)->0;
            let marked = with_slot_set(page.bits, idx);
            &&& slot_of_address(addr, search.size, search.page_size) == idx
            &&& can_deallocate(marked, addr, search.size, search.page_size)
            &&& with_slot_cleared(marked, slot_of_address(addr, search.size, search.page_size))
                == page.bits
        }),
{
    let base = search.base;
    let size = search.size;
    let page_size = search.page_size;
    lemma_first_fit_found(page.bits, 0, search);
    let (idx, addr) = first_fit_spec(page.bits, search)->0;
    let offset = idx * size;
    assert(0 <= offset < page_size) by (nonlinear_arith)
        requires
            offset == idx * size,
            idx >= 0,
            size > 0,
            search.metadata_size >= 0,
            idx * size + size <= page_size - search.metadata_size,
    ;
    lemma_fundamental_div_mod(base, page_size);
    assert(addr == (base / page_size) * page_size + offset) by (nonlinear_arith)
        requires
            addr == base + offset,
            base == page_size * (base / page_size) + base % page_size,
            base % page_size == 0,
    ;
    lemma_fundamental_div_mod_converse(addr, page_size, base / page_size, offset);
    lemma_fundamental_div_mod_converse(offset, size, idx, 0);
    lemma_with_slot_set(page.bits, idx);
    lemma_set_then_clear(page.bits, idx);
}

/// A page of fixed size that hands out object slots of one size.
///
/// The last `METADATA_SIZE` bytes of the page are its metadata; the bytes
/// before them hold the objects. An implementor gives access to the metadata;
/// searching, allocating and freeing are written once, on top of that.
pub trait AllocablePage: Sized {
    /// The size of the page in bytes. A page lies at a multiple of its size.
    const SIZE: usize;

    /// The number of bytes at the end of the page that hold its metadata.
    const METADATA_SIZE: usize;

    /// The offset of the heap tag from the page's first byte.
    const HEAP_ID_OFFSET: usize;

    /// The page as the contracts see it.
    spec fn view(&self) -> PageModel;

    /// The metadata is part of the page, and the heap tag is part of the
    /// metadata.
    proof fn constants_valid()
        ensures
            0 < Self::METADATA_SIZE <= Self::SIZE,
            Self::SIZE - Self::METADATA_SIZE <= Self::HEAP_ID_OFFSET < Self::SIZE,
    ;

    /// Builds the page that lives in the region `mp`, with every slot free and
    /// no links, or says why the region will not do.
    fn new(mp: MappedPages, heap_id: usize) -> (r: Result<Self, &'static str>)
        ensures
            match r {
                Ok(page) => {
                    &&& region_accepted(mp, Self::SIZE as int)
                    &&& page@ == PageModel::fresh(mp, heap_id)
                    &&& page@.well_formed(Self::SIZE as int)
                },
                Err(_) => !region_accepted(mp, Self::SIZE as int),
            },
    ;

    /// Hands the region's handle out and leaves the empty handle in its place.
    fn retrieve_mapped_pages(&mut self) -> (r: MappedPages)
        ensures
            r == old(self)@.region,
            final(self)@ == (PageModel { region: MappedPages::empty(), ..old(self)@ }),
    ;

    /// Resets tag, links and tracker.
    fn clear_metadata(&mut self)
        ensures
            final(self)@ == (PageModel {
                heap_id: 0,
                prev: None,
                next: None,
                bits: all_slots_free(),
                ..old(self)@
            }),
    ;

    /// The occupancy tracker.
    fn bitfield(&self) -> (r: &[u64; 8])
        ensures
            r@ == self@.bits,
    ;

    /// The occupancy tracker, to write to.
    fn bitfield_mut(&mut self) -> (r: &mut [u64; 8])
        ensures
            r@ == old(self)@.bits,
            final(self)@ == (PageModel { bits: final(r)@, ..old(self)@ }),
    ;

    /// The link to the page before this one.
    fn prev(&mut self) -> (r: &mut Rawlink)
        ensures
            r@ == old(self)@.prev,
            final(self)@ == (PageModel { prev: final(r)@, ..old(self)@ }),
    ;

    /// The link to the page after this one.
    fn next(&mut self) -> (r: &mut Rawlink)
        ensures
            r@ == old(self)@.next,
            final(self)@ == (PageModel { next: final(r)@, ..old(self)@ }),
    ;

    /// The number of bytes that hold objects.
    fn buffer_size() -> (r: usize)
        ensures
            r == Self::SIZE - Self::METADATA_SIZE,
    ;

    /// The address of the page's first byte.
    fn base_address(&self) -> (r: usize)
        ensures
            r == self@.base,
    ;

    /// Looks for a free slot for `layout`. Returns its index and address.
    fn first_fit(&self, layout: Layout) -> (r: Option<(usize, usize)>)
        requires
            layout.size() > 0,
            self@.well_formed(Self::SIZE as int),
        ensures
            first_fit_spec(
                self@.bits,
                search_for(self@.base, layout, Self::SIZE, Self::METADATA_SIZE),
            ) == match r {
                Some((idx, addr)) => Some((idx as int, addr as int)),
                None => None,
            },
    {
        let base_addr: usize = self.base_address();
        self.bitfield().first_fit(base_addr, layout, Self::SIZE, Self::METADATA_SIZE)
    }

    /// Allocates a slot for `layout`: marks the slot that `first_fit` finds and
    /// returns its address. Returns `None`, and changes nothing, where
    /// `first_fit` finds no slot.
    fn allocate(&mut self, layout: Layout) -> (r: Option<usize>)
        requires
            layout.size() > 0,
            old(self)@.well_formed(Self::SIZE as int),
        ensures
            match first_fit_spec(
                old(self)@.bits,
                search_for(old(self)@.base, layout, Self::SIZE, Self::METADATA_SIZE),
            ) {
                Some((idx, addr)) => r == Some(addr as usize) && final(self)@ == (PageModel {
                    bits: with_slot_set(old(self)@.bits, idx),
                    ..old(self)@
                }),
                None => r is None && final(self)@ == old(self)@,
            },
            final(self)@.well_formed(Self::SIZE as int),
    {
        match self.first_fit(layout) {
            Some((idx, addr)) => {
                proof {
                    lemma_first_fit_found(
                        self@.bits,
                        0,
                        search_for(self@.base, layout, Self::SIZE, Self::METADATA_SIZE),
                    );
                }
                self.bitfield_mut().set_bit(idx);
                Some(addr)
            },
            None => None,
        }
    }

    /// Whether no slot is free.
    fn is_full(&self) -> (r: bool)
        ensures
            r <==> (forall|i: int|
                0 <= i < slot_count(self@.bits) ==> slot_allocated(self@.bits, i)),
            r <==> (forall|w: int| 0 <= w < self@.bits.len() ==> self@.bits[w] == u64::MAX),
    {
        self.bitfield().is_full()
    }

    /// Whether every slot below `relevant_bits` is free.
    fn is_empty(&self, relevant_bits: usize) -> (r: bool)
        ensures
            r <==> (forall|i: int|
                0 <= i < relevant_bits && i < slot_count(self@.bits) ==> !slot_allocated(
                    self@.bits,
                    i,
                )),
    {
        self.bitfield().all_free(relevant_bits)
    }

    /// Whether `deallocate` may be called on `addr` and `layout`.
    fn owns_allocated(&self, addr: usize, layout: Layout) -> (r: bool)
        requires
            self@.well_formed(Self::SIZE as int),
        ensures
            r <==> layout.size() > 0 && can_deallocate(
                self@.bits,
                addr as int,
                layout.size() as int,
                Self::SIZE as int,
            ),
    {
        let size: usize = layout.size();
        if size == 0 {
            return false;
        }
        let page_offset: usize = addr % Self::SIZE;
        if page_offset % size != 0 {
            return false;
        }
        let idx: usize = page_offset / size;
        let bits = self.bitfield();
        idx < bits.len() * 64 && bits.is_allocated(idx)
    }

    /// Frees the slot at `addr`, which was allocated for `layout`.
    ///
    /// The address must be that of an allocated slot of this page: to free
    /// an address twice, or one that no slot starts at, is a fault of the
    /// caller that this function does not recover from.
    fn deallocate(&mut self, addr: usize, layout: Layout) -> (r: Result<(), &'static str>)
        requires
            layout.size() > 0,
            old(self)@.well_formed(Self::SIZE as int),
            can_deallocate(
                old(self)@.bits,
                addr as int,
                layout.size() as int,
                Self::SIZE as int,
            ),
        ensures
            r is Ok,
            final(self)@ == (PageModel {
                bits: with_slot_cleared(
                    old(self)@.bits,
                    slot_of_address(addr as int, layout.size() as int, Self::SIZE as int),
                ),
                ..old(self)@
            }),
            !can_deallocate(
                final(self)@.bits,
                addr as int,
                layout.size() as int,
                Self::SIZE as int,
            ),
            final(self)@.well_formed(Self::SIZE as int),
    {
        let page_offset: usize = addr % Self::SIZE;
        let idx: usize = page_offset / layout.size();
        self.bitfield_mut().clear_bit(idx);
        Ok(())
    }
}

/// What `ObjectPage8k::new` says of a region that is not aligned at the page
/// size.
pub open spec fn misaligned_message() -> Seq<char> {
    "The mapped pages for the heap are not aligned at 8k bytes"@
}

/// What `ObjectPage8k::new` says of a region that is not writable.
pub open spec fn not_writable_message() -> Seq<char> {
    "Trying to create an allocable page but MappedPages were not writable"@
}

/// What `ObjectPage8k::new` says of a region that has not the page's size.
pub open spec fn wrong_size_message() -> Seq<char> {
    "MappedPages size does not equal allocable page size"@
}

/// What `ObjectPage8k::new` says of a region that it turns down. Alignment is
/// looked at first, then the writable flag, then the size.
pub open spec fn rejection_message(mp: MappedPages) -> Seq<char> {
    if mp.start % 8192 != 0 {
        misaligned_message()
    } else if !mp.writable {
        not_writable_message()
    } else {
        wrong_size_message()
    }
}

/// A page of 8 KiB.
///
/// The page itself lies in the region that `mp` describes, at `mp`'s start
/// address: the objects in the first `SIZE - METADATA_SIZE` bytes, the
/// metadata in the bytes after them. This value is the metadata. It keeps the
/// page's address, since the handle can be taken out while the page stays
/// where it is.
#[derive(Debug)]
pub struct ObjectPage8k {
    /// The address of the page's first byte.
    base: usize,
    /// The handle of the region that the page lives in.
    pub mp: MappedPages,
    /// The tag of the heap that the page belongs to.
    pub heap_id: usize,
    /// Next element in the list that the page is linked into.
    next: Rawlink,
    /// Previous element in the list that the page is linked into.
    prev: Rawlink,
    /// One bit per object slot: set while the slot is handed out.
    bitfield: [u64; 8],
}

impl AllocablePage for ObjectPage8k {
    const SIZE: usize = 8192;

    const METADATA_SIZE: usize = 96;

    const HEAP_ID_OFFSET: usize = 8104;

    closed spec fn view(&self) -> PageModel {
        PageModel {
            base: self.base,
            region: self.mp,
            heap_id: self.heap_id,
            prev: self.prev@,
            next: self.next@,
            bits: self.bitfield@,
        }
    }

    proof fn constants_valid()
        ensures
            Self::SIZE == 8192,
            Self::METADATA_SIZE == 96,
            Self::HEAP_ID_OFFSET == 8104,
    {
    }

    fn new(mp: MappedPages, heap_id: usize) -> (r: Result<ObjectPage8k, &'static str>)
        ensures
            r matches Err(message) ==> message@ == rejection_message(mp),
    {
        let vaddr: usize = mp.start_address();
        if vaddr % Self::SIZE != 0 {
            return Err("The mapped pages for the heap are not aligned at 8k bytes");
        }
        if !mp.is_writable() {
            return Err("Trying to create an allocable page but MappedPages were not writable");
        }
        if Self::SIZE != mp.size_in_bytes() {
            return Err("MappedPages size does not equal allocable page size");
        }
        let page = ObjectPage8k {
            base: vaddr,
            mp,
            heap_id,
            next: Rawlink::default(),
            prev: Rawlink::default(),
            bitfield: [0; 8],
        };
        assert(page.bitfield@ =~= all_slots_free());
        Ok(page)
    }

    fn retrieve_mapped_pages(&mut self) -> (r: MappedPages) {
        let mut mp = MappedPages::empty();
        core::mem::swap(&mut self.mp, &mut mp);
        mp
    }

    fn clear_metadata(&mut self) {
        self.heap_id = 0;
        self.next = Rawlink::default();
        self.prev = Rawlink::default();
        self.bitfield = [0; 8];
        assert(self.bitfield@ =~= all_slots_free());
    }

    fn bitfield(&self) -> (r: &[u64; 8]) {
        &self.bitfield
    }

    fn bitfield_mut(&mut self) -> (r: &mut [u64; 8]) {
        &mut self.bitfield
    }

    fn prev(&mut self) -> (r: &mut Rawlink) {
        &mut self.prev
    }

    fn next(&mut self) -> (r: &mut Rawlink) {
        &mut self.next
    }

    fn buffer_size() -> (r: usize) {
        Self::SIZE - Self::METADATA_SIZE
    }

    fn base_address(&self) -> (r: usize) {
        self.base
    }
}

impl Default for ObjectPage8k {
    /// The page at address zero with no region, no links and every slot free.
    fn default() -> (r: ObjectPage8k)
        ensures
            r@ == PageModel::fresh(MappedPages::empty(), 0),
            r@.well_formed(ObjectPage8k::SIZE as int),
    {
        let page = ObjectPage8k {
            base: 0,
            mp: MappedPages::empty(),
            heap_id: 0,
            next: Rawlink::default(),
            prev: Rawlink::default(),
            bitfield: [0; 8],
        };
        assert(page.bitfield@ =~= all_slots_free());
        page
    }
}

} // verus!
