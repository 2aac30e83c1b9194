//! Page-level machinery of a slab allocator.
//!
//! A page serves objects of one size. One bit per object slot records whether
//! the slot is handed out ([`bitfield`]). A page bundles that tracker with the
//! handle of its backing region ([`region`]), a heap tag and two list links
//! ([`pages`]); it finds a free slot for a request ([`layout`]) and gives the
//! slot's address. Pages that serve the same size class are chained into a
//! doubly linked list ([`page_list`]). A link is the address of a page
//! ([`rawlink`]); the list owns the pages that are linked into it and is the
//! one place where a link is followed.

pub mod bitfield;
pub mod layout;
pub mod page_list;
pub mod pages;
pub mod rawlink;
pub mod region;

pub use bitfield::Bitfield;
pub use layout::Layout;
pub use page_list::{ObjectPageIterMut, PageList};
pub use pages::{AllocablePage, ObjectPage8k, PageModel};
pub use rawlink::Rawlink;
pub use region::MappedPages;
