use slab_pages::{AllocablePage, MappedPages, ObjectPage8k, PageList, Rawlink};

const A: usize = 0x2000;
const B: usize = 0x4000;
const C: usize = 0x6000;

fn page_at(base: usize) -> ObjectPage8k {
    ObjectPage8k::new(MappedPages::new(base, 8192, true), base / 8192).unwrap()
}

fn addresses(list: &mut PageList<ObjectPage8k>) -> Vec<usize> {
    let mut out = Vec::new();
    let mut cursor = list.iter_mut();
    while let Some(page) = cursor.next(list) {
        out.push(page.base_address());
    }
    out
}

fn links(list: &mut PageList<ObjectPage8k>) -> Vec<(Option<usize>, usize, Option<usize>)> {
    let mut out = Vec::new();
    let mut cursor = list.iter_mut();
    while let Some(page) = cursor.next(list) {
        let prev = page.prev().address();
        let next = page.next().address();
        out.push((prev, page.base_address(), next));
    }
    out
}

fn list_of(bases: &[usize]) -> PageList<ObjectPage8k> {
    let mut list = PageList::new();
    for base in bases.iter().rev() {
        list.insert_front(page_at(*base));
    }
    list
}

#[test]
fn new_list_is_empty() {
    let mut list: PageList<ObjectPage8k> = PageList::new();
    assert_eq!(list.elements(), 0);
    assert_eq!(list.head().address(), None);
    assert_eq!(addresses(&mut list), Vec::<usize>::new());
    assert!(!list.contains(A));
    assert!(list.pop().is_none());
    assert_eq!(list.elements(), 0);
}

#[test]
fn insert_front_twice_iterates_newest_first() {
    let mut list = PageList::new();
    list.insert_front(page_at(A));
    list.insert_front(page_at(B));
    assert_eq!(addresses(&mut list), vec![B, A]);
    assert_eq!(list.elements(), 2);
    assert_eq!(list.head().address(), Some(B));
    assert_eq!(links(&mut list), vec![(None, B, Some(A)), (Some(B), A, None)]);
}

#[test]
fn insert_front_overwrites_stale_links() {
    let mut list = PageList::new();
    let mut page = page_at(A);
    let mut other = page_at(C);
    *page.prev() = Rawlink::some(&mut other);
    *page.next() = Rawlink::some(&mut other);
    list.insert_front(page);
    assert_eq!(links(&mut list), vec![(None, A, None)]);
    let mut second = page_at(B);
    *second.prev() = Rawlink::some(&mut other);
    list.insert_front(second);
    assert_eq!(links(&mut list), vec![(None, B, Some(A)), (Some(B), A, None)]);
}

#[test]
fn elements_counts_the_pages_reachable_from_head() {
    let mut list = PageList::new();
    let bases = [A, B, C, 0x8000, 0xA000];
    for (n, base) in bases.iter().enumerate() {
        assert_eq!(list.elements(), n);
        assert_eq!(addresses(&mut list).len(), n);
        list.insert_front(page_at(*base));
    }
    assert_eq!(list.elements(), 5);
    assert_eq!(addresses(&mut list), vec![0xA000, 0x8000, C, B, A]);
    let _ = list.remove_from_list(C);
    assert_eq!(list.elements(), 4);
    assert_eq!(addresses(&mut list), vec![0xA000, 0x8000, B, A]);
    let _ = list.pop();
    assert_eq!(list.elements(), 3);
    assert_eq!(addresses(&mut list), vec![0x8000, B, A]);
    let _ = list.remove_from_list(A);
    let _ = list.remove_from_list(0x8000);
    assert_eq!(list.elements(), 1);
    assert_eq!(addresses(&mut list), vec![B]);
    let _ = list.pop();
    assert_eq!(list.elements(), 0);
    assert_eq!(addresses(&mut list), Vec::<usize>::new());
    assert!(list.pop().is_none());
    assert_eq!(list.elements(), 0);
}

#[test]
fn pop_hands_out_the_head_unlinked() {
    let mut list = list_of(&[A, B, C]);
    let mut page = list.pop().unwrap();
    assert_eq!(page.base_address(), A);
    assert_eq!(page.heap_id, 1);
    assert_eq!(page.prev().address(), None);
    assert_eq!(page.next().address(), None);
    assert_eq!(list.head().address(), Some(B));
    assert_eq!(links(&mut list), vec![(None, B, Some(C)), (Some(B), C, None)]);
    assert_eq!(list.pop().unwrap().base_address(), B);
    assert_eq!(links(&mut list), vec![(None, C, None)]);
    assert_eq!(list.pop().unwrap().base_address(), C);
    assert_eq!(list.head().address(), None);
    assert!(list.pop().is_none());
}

#[test]
fn remove_from_list_relinks_the_neighbours() {
    let mut list = list_of(&[A, B, C]);
    let mut page = list.remove_from_list(B);
    assert_eq!(page.base_address(), B);
    assert_eq!(page.prev().address(), None);
    assert_eq!(page.next().address(), None);
    assert_eq!(list.elements(), 2);
    assert_eq!(links(&mut list), vec![(None, A, Some(C)), (Some(A), C, None)]);
}

#[test]
fn remove_from_list_at_the_head_moves_the_head() {
    let mut list = list_of(&[A, B, C]);
    let mut page = list.remove_from_list(A);
    assert_eq!(page.base_address(), A);
    assert_eq!(page.next().address(), None);
    assert_eq!(list.head().address(), Some(B));
    assert_eq!(links(&mut list), vec![(None, B, Some(C)), (Some(B), C, None)]);
}

#[test]
fn remove_from_list_at_the_tail_ends_the_list_earlier() {
    let mut list = list_of(&[A, B, C]);
    let mut page = list.remove_from_list(C);
    assert_eq!(page.base_address(), C);
    assert_eq!(page.prev().address(), None);
    assert_eq!(list.head().address(), Some(A));
    assert_eq!(links(&mut list), vec![(None, A, Some(B)), (Some(A), B, None)]);
}

#[test]
fn remove_from_list_of_the_only_page_empties_the_list() {
    let mut list = list_of(&[A]);
    let page = list.remove_from_list(A);
    assert_eq!(page.base_address(), A);
    assert_eq!(list.elements(), 0);
    assert_eq!(list.head().address(), None);
    assert!(!list.contains(A));
}

#[test]
fn a_removed_page_can_be_linked_into_another_list() {
    let mut partial = list_of(&[A, B, C]);
    let mut full = list_of(&[0x8000]);
    let page = partial.remove_from_list(B);
    full.insert_front(page);
    assert_eq!(addresses(&mut partial), vec![A, C]);
    assert_eq!(links(&mut full), vec![(None, B, Some(0x8000)), (Some(B), 0x8000, None)]);
    assert!(full.contains(B));
    assert!(!partial.contains(B));
}

#[test]
fn contains_goes_by_address() {
    let mut list = list_of(&[A, B]);
    assert!(list.contains(A));
    assert!(list.contains(B));
    assert!(!list.contains(C));
    assert!(!list.contains(A + 64));
    assert!(!list.contains(0));
    assert_eq!(list.elements(), 2);
    assert_eq!(links(&mut list), vec![(None, A, Some(B)), (Some(A), B, None)]);
}

#[test]
fn cursor_runs_once_from_head_to_tail() {
    let mut list = list_of(&[A, B, C]);
    let mut cursor = list.iter_mut();
    assert_eq!(cursor.next(&mut list).map(|p| p.base_address()), Some(A));
    assert_eq!(cursor.next(&mut list).map(|p| p.base_address()), Some(B));
    assert_eq!(cursor.next(&mut list).map(|p| p.base_address()), Some(C));
    assert!(cursor.next(&mut list).is_none());
    assert!(cursor.next(&mut list).is_none());
    let mut again = list.iter_mut();
    assert_eq!(again.next(&mut list).map(|p| p.base_address()), Some(A));
}

#[test]
fn cursor_hands_out_pages_to_write_to() {
    let mut list = list_of(&[A, B]);
    let mut cursor = list.iter_mut();
    while let Some(page) = cursor.next(&mut list) {
        page.heap_id = 99;
        page.bitfield_mut()[0] = 5;
    }
    assert_eq!(list.page_ref(A).unwrap().heap_id, 99);
    assert_eq!(list.page_ref(B).unwrap().bitfield()[0], 5);
    assert_eq!(addresses(&mut list), vec![A, B]);
}

#[test]
fn page_ref_and_page_mut_find_pages_by_address() {
    let mut list = list_of(&[A, B]);
    assert_eq!(list.page_ref(A).map(|p| p.heap_id), Some(1));
    assert_eq!(list.page_ref(B).map(|p| p.heap_id), Some(2));
    assert!(list.page_ref(C).is_none());
    assert!(list.page_mut(C).is_none());
    list.page_mut(B).unwrap().heap_id = 12;
    assert_eq!(list.page_ref(B).map(|p| p.heap_id), Some(12));
    assert_eq!(list.elements(), 2);
}

#[test]
fn rawlink_none_and_default_lead_nowhere() {
    let list = list_of(&[A]);
    assert_eq!(Rawlink::none().address(), None);
    assert_eq!(Rawlink::default().address(), None);
    assert!(Rawlink::none().resolve(&list).is_none());
}

#[test]
fn rawlink_some_leads_to_the_page() {
    let mut page = page_at(B);
    let link = Rawlink::some(&mut page);
    assert_eq!(link.address(), Some(B));
    assert_eq!(page.base_address(), B);
    let mut list = list_of(&[A, B]);
    assert_eq!(link.resolve(&list).map(|p| p.base_address()), Some(B));
    let mut link = link;
    link.resolve_mut(&mut list).unwrap().heap_id = 3;
    assert_eq!(list.page_ref(B).unwrap().heap_id, 3);
    let _ = list.remove_from_list(B);
    assert!(link.resolve(&list).is_none());
    assert!(link.resolve_mut(&mut list).is_none());
}

#[test]
fn rawlink_take_leaves_none() {
    let mut page = page_at(A);
    let mut link = Rawlink::some(&mut page);
    let taken = link.take();
    assert_eq!(taken.address(), Some(A));
    assert_eq!(link.address(), None);
    assert_eq!(link.take().address(), None);
}

#[test]
fn head_link_resolves_to_the_head_page() {
    let list = list_of(&[C, A]);
    let head = list.head();
    assert_eq!(head.resolve(&list).map(|p| p.base_address()), Some(C));
}
