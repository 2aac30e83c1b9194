use slab_pages::{AllocablePage, Bitfield, Layout, MappedPages, ObjectPage8k, Rawlink};

const BASE: usize = 0x10000;

fn layout(size: usize, align: usize) -> Layout {
    Layout::from_size_align(size, align).unwrap()
}

fn page_at(base: usize) -> ObjectPage8k {
    ObjectPage8k::new(MappedPages::new(base, 8192, true), 7).unwrap()
}

fn page_for(base: usize, object_size: usize) -> ObjectPage8k {
    let mut page = page_at(base);
    page.bitfield_mut().initialize(object_size, ObjectPage8k::buffer_size());
    page
}

#[test]
fn constants_of_the_8k_page() {
    assert_eq!(<ObjectPage8k as AllocablePage>::SIZE, 8192);
    assert_eq!(<ObjectPage8k as AllocablePage>::METADATA_SIZE, 96);
    assert_eq!(<ObjectPage8k as AllocablePage>::HEAP_ID_OFFSET, 8192 - 88);
    assert_eq!(ObjectPage8k::buffer_size(), 8096);
}

#[test]
fn new_page_is_pristine() {
    let mut page = page_at(BASE);
    assert_eq!(page.base_address(), BASE);
    assert_eq!(page.heap_id, 7);
    assert_eq!(page.mp, MappedPages::new(BASE, 8192, true));
    assert_eq!(page.prev().address(), None);
    assert_eq!(page.next().address(), None);
    assert_eq!(*page.bitfield(), [0u64; 8]);
    assert!(page.is_empty(512));
    assert!(!page.is_full());
}

#[test]
fn new_rejects_a_misaligned_region() {
    let r = ObjectPage8k::new(MappedPages::new(4096, 8192, true), 0);
    assert_eq!(r.err(), Some("The mapped pages for the heap are not aligned at 8k bytes"));
    let r = ObjectPage8k::new(MappedPages::new(8193, 4096, false), 0);
    assert_eq!(r.err(), Some("The mapped pages for the heap are not aligned at 8k bytes"));
}

#[test]
fn new_rejects_a_read_only_region() {
    let r = ObjectPage8k::new(MappedPages::new(8192, 8192, false), 0);
    assert_eq!(
        r.err(),
        Some("Trying to create an allocable page but MappedPages were not writable")
    );
    let r = ObjectPage8k::new(MappedPages::new(8192, 4096, false), 0);
    assert_eq!(
        r.err(),
        Some("Trying to create an allocable page but MappedPages were not writable")
    );
}

#[test]
fn new_rejects_a_region_of_another_size() {
    let r = ObjectPage8k::new(MappedPages::new(8192, 4096, true), 0);
    assert_eq!(r.err(), Some("MappedPages size does not equal allocable page size"));
    let r = ObjectPage8k::new(MappedPages::new(0, 16384, true), 0);
    assert_eq!(r.err(), Some("MappedPages size does not equal allocable page size"));
    let r = ObjectPage8k::new(MappedPages::empty(), 0);
    assert_eq!(
        r.err(),
        Some("Trying to create an allocable page but MappedPages were not writable")
    );
}

#[test]
fn default_page_has_no_region() {
    let mut page = ObjectPage8k::default();
    assert_eq!(page.base_address(), 0);
    assert_eq!(page.mp, MappedPages::empty());
    assert_eq!(page.heap_id, 0);
    assert_eq!(page.prev().address(), None);
    assert_eq!(page.next().address(), None);
    assert_eq!(*page.bitfield(), [0u64; 8]);
}

#[test]
fn retrieve_mapped_pages_leaves_the_empty_handle() {
    let mut page = page_for(BASE, 64);
    let mp = page.retrieve_mapped_pages();
    assert_eq!(mp, MappedPages::new(BASE, 8192, true));
    assert_eq!(page.mp, MappedPages::empty());
    assert_eq!(page.base_address(), BASE);
    assert_eq!(page.heap_id, 7);
    assert_eq!(page.retrieve_mapped_pages(), MappedPages::empty());
}

#[test]
fn clear_metadata_resets_tag_links_and_tracker() {
    let mut page = page_for(BASE, 64);
    let mut other = page_at(BASE + 8192);
    *page.next() = Rawlink::some(&mut other);
    *page.prev() = Rawlink::some(&mut other);
    assert_eq!(page.next().address(), Some(BASE + 8192));
    page.clear_metadata();
    assert_eq!(page.heap_id, 0);
    assert_eq!(page.prev().address(), None);
    assert_eq!(page.next().address(), None);
    assert_eq!(*page.bitfield(), [0u64; 8]);
    assert_eq!(page.mp, MappedPages::new(BASE, 8192, true));
    assert_eq!(page.base_address(), BASE);
}

#[test]
fn a_page_of_64_byte_objects_serves_126_of_them() {
    let mut page = page_for(BASE, 64);
    for idx in 0..512 {
        assert_eq!(page.bitfield().is_allocated(idx), idx >= 126);
    }
    let l = layout(64, 8);
    let mut last = 0;
    for i in 0..126 {
        assert!(!page.is_full());
        let addr = page.allocate(l).unwrap();
        assert_eq!(addr, BASE + 64 * i);
        assert!(i == 0 || addr > last);
        last = addr;
    }
    assert!(page.is_full());
    assert_eq!(page.allocate(l), None);
    assert_eq!(page.first_fit(l), None);
    assert!(page.is_full());
}

#[test]
fn first_fit_does_not_mark_the_slot() {
    let page = page_for(BASE, 64);
    let l = layout(64, 8);
    assert_eq!(page.first_fit(l), Some((0, BASE)));
    assert_eq!(page.first_fit(l), Some((0, BASE)));
    assert!(page.is_empty(126));
}

#[test]
fn allocate_honours_the_alignment() {
    let mut page = page_for(BASE, 48);
    let l = layout(48, 16);
    assert_eq!(page.allocate(l), Some(BASE));
    assert_eq!(page.allocate(l), Some(BASE + 48));
    let mut wide = page_for(BASE, 48);
    let l = layout(48, 32);
    assert_eq!(wide.allocate(l), Some(BASE));
    assert_eq!(wide.allocate(l), Some(BASE + 64 * 48));
    assert_eq!(wide.allocate(l), Some(BASE + 128 * 48));
    assert_eq!(wide.allocate(l), None);
    assert!(!wide.is_full());
    assert!(!wide.bitfield().is_allocated(1));
}

#[test]
fn allocate_then_deallocate_restores_the_tracker() {
    let mut page = page_for(BASE, 64);
    let l = layout(64, 8);
    for _ in 0..5 {
        page.allocate(l).unwrap();
    }
    let before = *page.bitfield();
    let addr = page.allocate(l).unwrap();
    assert_eq!(addr, BASE + 5 * 64);
    assert_ne!(*page.bitfield(), before);
    assert_eq!(page.deallocate(addr, l), Ok(()));
    assert_eq!(*page.bitfield(), before);
    assert_eq!(page.allocate(l), Some(addr));
}

#[test]
fn deallocate_frees_the_slot_of_the_address() {
    let mut page = page_for(BASE, 128);
    let l = layout(128, 8);
    let a = page.allocate(l).unwrap();
    let b = page.allocate(l).unwrap();
    let c = page.allocate(l).unwrap();
    assert_eq!((a, b, c), (BASE, BASE + 128, BASE + 256));
    assert_eq!(page.deallocate(b, l), Ok(()));
    assert!(page.bitfield().is_allocated(0));
    assert!(!page.bitfield().is_allocated(1));
    assert!(page.bitfield().is_allocated(2));
    assert_eq!(page.allocate(l), Some(b));
    assert_eq!(page.deallocate(a, l), Ok(()));
    assert_eq!(page.deallocate(b, l), Ok(()));
    assert_eq!(page.deallocate(c, l), Ok(()));
    assert!(page.is_empty(63));
}

#[test]
fn a_freed_address_cannot_be_freed_again() {
    let mut page = page_for(BASE, 64);
    let l = layout(64, 8);
    let addr = page.allocate(l).unwrap();
    assert!(page.owns_allocated(addr, l));
    assert_eq!(page.deallocate(addr, l), Ok(()));
    assert!(!page.owns_allocated(addr, l));
}

#[test]
fn owns_allocated_tells_wild_addresses_apart() {
    let mut page = page_for(BASE, 64);
    let l = layout(64, 8);
    let addr = page.allocate(l).unwrap();
    assert!(page.owns_allocated(addr, l));
    assert!(!page.owns_allocated(addr + 8, l));
    assert!(!page.owns_allocated(addr + 64, l));
    assert!(page.owns_allocated(BASE + 126 * 64, l));
    assert!(!page.owns_allocated(addr, Layout::from_size_align(0, 1).unwrap()));
    assert!(!page.owns_allocated(BASE + 8, layout(8, 8)));
    let mut small = page_for(BASE, 8);
    assert!(!small.owns_allocated(BASE + 512 * 8, layout(8, 8)));
    assert!(!small.owns_allocated(BASE + 511 * 8, layout(8, 8)));
    small.bitfield_mut().set_bit(511);
    assert!(small.owns_allocated(BASE + 511 * 8, layout(8, 8)));
    assert!(small.owns_allocated(BASE + 8192 + 511 * 8, layout(8, 8)));
}

#[test]
fn is_empty_looks_below_the_bound_only() {
    let mut page = page_for(BASE, 64);
    assert!(page.is_empty(126));
    assert!(!page.is_empty(127));
    let l = layout(64, 8);
    let addr = page.allocate(l).unwrap();
    assert!(!page.is_empty(126));
    assert!(page.is_empty(0));
    assert_eq!(page.deallocate(addr, l), Ok(()));
    assert!(page.is_empty(126));
}

#[test]
fn large_objects_use_few_slots() {
    let mut page = page_for(BASE, 4096);
    let l = layout(4096, 4096);
    assert_eq!(page.allocate(l), Some(BASE));
    assert!(page.is_full());
    assert_eq!(page.allocate(l), None);
    let mut none = page_for(BASE, 8097);
    assert!(none.is_full());
    assert_eq!(none.allocate(layout(8097, 1)), None);
}
