//! A doubly linked list of pages.
//!
//! The links are the pages' own `prev` and `next` fields, which hold page
//! addresses. The list owns the pages that are linked into it and finds a
//! page by its address, so every link of a well-formed list leads to a page
//! that is there.

use vstd::prelude::*;
use std::collections::hash_map::Entry;
use std::collections::HashMap;
use crate::pages::{AllocablePage, PageModel};
use crate::rawlink::Rawlink;

verus! {

/// The link to the page at position `i` of `pages`: its address, or nothing
/// where there is no such position.
pub open spec fn link_to(pages: Seq<PageModel>, i: int) -> Option<usize> {
    if 0 <= i < pages.len() {
        Some(pages[i].base)
    } else {
        None
    }
}

/// Whether `pages`, read from head to tail, are linked as a doubly linked
/// list: no two lie at the same address, each page's `prev` leads to the page
/// before it and its `next` to the page after it; the head has no `prev`, the
/// tail has no `next`.
pub open spec fn linked(pages: Seq<PageModel>) -> bool {
    &&& distinct(pages)
    &&& forall|i: int| 0 <= i < pages.len() ==> #[trigger] links_fit(pages, i)
}

/// Whether no two of `pages` lie at the same address.
pub open spec fn distinct(pages: Seq<PageModel>) -> bool {
    forall|i: int, j: int|
        0 <= i < j < pages.len() ==> (#[trigger] pages[i]).base != (#[trigger] pages[j]).base
}

/// Whether the links of the page at position `i` of `pages` lead to its
/// neighbours.
pub open spec fn links_fit(pages: Seq<PageModel>, i: int) -> bool {
    &&& pages[i].prev == link_to(pages, i - 1)
    &&& pages[i].next == link_to(pages, i + 1)
}

/// Whether one of `pages` lies at `addr`.
pub open spec fn holds(pages: Seq<PageModel>, addr: usize) -> bool {
    exists|i: int| 0 <= i < pages.len() && (#[trigger] pages[i]).base == addr
}

/// The position of the page at `addr` in `pages`; meaningful where `pages`
/// holds such a page.
pub open spec fn position(pages: Seq<PageModel>, addr: usize) -> int {
    choose|i: int| 0 <= i < pages.len() && (#[trigger] pages[i]).base == addr
}

/// `page` with both links cleared.
pub open spec fn unlinked(page: PageModel) -> PageModel {
    PageModel { prev: None, next: None, ..page }
}

/// `pages` with `page` linked in before the head.
pub open spec fn with_front(pages: Seq<PageModel>, page: PageModel) -> Seq<PageModel> {
    let head = PageModel { prev: None, next: link_to(pages, 0), ..page };
    if pages.len() == 0 {
        seq![head]
    } else {
        seq![head] + pages.update(0, PageModel { prev: Some(page.base), ..pages[0] })
    }
}

/// `pages` with the page at position `i` spliced out: the page before it
/// takes over its `next`, the page after it takes over its `prev`.
pub open spec fn without(pages: Seq<PageModel>, i: int) -> Seq<PageModel> {
    Seq::new(
        pages.len(),
        |j: int|
            if j == i - 1 {
                PageModel { next: pages[i].next, ..pages[j] }
            } else if j == i + 1 {
                PageModel { prev: pages[i].prev, ..pages[j] }
            } else {
                pages[j]
            },
    ).remove(i)
}

/// The addresses that a walk along the `next` links visits, if it starts at
/// `from` and takes at most `steps` steps. The walk ends at a link that leads
/// nowhere or to no page of `pages`.
pub open spec fn reachable(pages: Seq<PageModel>, from: Option<usize>, steps: nat) -> Seq<usize>
    decreases steps,
{
    if steps == 0 || from is None || !holds(pages, from->0) {
        Seq::empty()
    } else {
        seq![from->0] + reachable(
            pages,
            pages[position(pages, from->0)].next,
            (steps - 1) as nat,
        )
    }
}

/// Among pages at distinct addresses a page is found at its own position.
pub proof fn lemma_position(pages: Seq<PageModel>, i: int)
    requires
        distinct(pages),
        0 <= i < pages.len(),
    ensures
        holds(pages, pages[i].base),
        position(pages, pages[i].base) == i,
{
    let found = position(pages, pages[i].base);
    assert(0 <= found < pages.len() && pages[found].base == pages[i].base);
    if found < i {
        assert(pages[found].base != pages[i].base);
    }
    if i < found {
        assert(pages[i].base != pages[found].base);
    }
}

/// Linking a page in before the head of a linked sequence gives a linked
/// sequence, one longer, with that page as its head.
pub proof fn lemma_with_front(pages: Seq<PageModel>, page: PageModel)
    requires
        linked(pages),
        !holds(pages, page.base),
    ensures
        linked(with_front(pages, page)),
        with_front(pages, page).len() == pages.len() + 1,
        link_to(with_front(pages, page), 0) == Some(page.base),
        forall|i: int|
            0 <= i < pages.len() ==> (#[trigger] with_front(pages, page)[i + 1]).base
                == pages[i].base,
{
    let after = with_front(pages, page);
    assert forall|i: int, j: int| 0 <= i < j < after.len() implies (#[trigger] after[i]).base != (
    #[trigger] after[j]).base by {
        if i == 0 {
            assert(pages[j - 1].base == after[j].base);
        } else {
            assert(pages[i - 1].base != pages[j - 1].base);
        }
    }
    assert forall|i: int| 0 <= i < after.len() implies #[trigger] links_fit(after, i) by {
        if i >= 1 {
            assert(links_fit(pages, i - 1));
        }
    }
}

/// Splicing a page out of a linked sequence gives a linked sequence, one
/// shorter, that holds the other pages in the order they had.
pub proof fn lemma_without(pages: Seq<PageModel>, i: int)
    requires
        linked(pages),
        0 <= i < pages.len(),
    ensures
        linked(without(pages, i)),
        without(pages, i).len() == pages.len() - 1,
        link_to(without(pages, i), 0) == if i == 0 {
            pages[0].next
        } else {
            link_to(pages, 0)
        },
        forall|j: int| 0 <= j < i ==> (#[trigger] without(pages, i)[j]).base == pages[j].base,
        forall|j: int|
            i <= j < pages.len() - 1 ==> (#[trigger] without(pages, i)[j]).base == pages[j
                + 1].base,
        !holds(without(pages, i), pages[i].base),
{
    let after = without(pages, i);
    assert(links_fit(pages, i));
    assert forall|j: int| 0 <= j < after.len() implies (#[trigger] after[j]).base == pages[if j
        < i {
        j
    } else {
        j + 1
    }].base by {}
    assert forall|a: int, b: int| 0 <= a < b < after.len() implies (#[trigger] after[a]).base != (
    #[trigger] after[b]).base by {
        let x = if a < i {
            a
        } else {
            a + 1
        };
        let y = if b < i {
            b
        } else {
            b + 1
        };
        assert(pages[x].base != pages[y].base);
    }
    assert forall|j: int| 0 <= j < after.len() implies #[trigger] links_fit(after, j) by {
        let x = if j < i {
            j
        } else {
            j + 1
        };
        assert(links_fit(pages, x));
    }
    if holds(after, pages[i].base) {
        let j = position(after, pages[i].base);
        let x = if j < i {
            j
        } else {
            j + 1
        };
        if x < i {
            assert(pages[x].base != pages[i].base);
        } else {
            assert(pages[i].base != pages[x].base);
        }
    }
}

/// A walk along the `next` links that starts at position `k` of a linked
/// sequence visits the pages from there to the tail, in order, and then
/// ends, however many steps more it may take.
pub proof fn lemma_walk_visits_all(pages: Seq<PageModel>, k: int, steps: nat)
    requires
        linked(pages),
        0 <= k <= pages.len(),
        steps >= pages.len() - k,
    ensures
        reachable(pages, link_to(pages, k), steps).len() == pages.len() - k,
        forall|j: int|
            0 <= j < pages.len() - k ==> #[trigger] reachable(pages, link_to(pages, k), steps)[j]
                == pages[k + j].base,
    decreases pages.len() - k,
{
    if k < pages.len() {
        lemma_position(pages, k);
        let next = pages[k].next;
        assert(links_fit(pages, k));
        lemma_walk_visits_all(pages, k + 1, (steps - 1) as nat);
        let rest = reachable(pages, next, (steps - 1) as nat);
        let walk = reachable(pages, link_to(pages, k), steps);
        assert(walk == seq![pages[k].base] + rest);
        assert forall|j: int| 0 <= j < pages.len() - k implies #[trigger] walk[j] == pages[k
            + j].base by {
            if j > 0 {
                assert(walk[j] == rest[j - 1]);
            }
        }
    }
}

/// A list of pages.
pub struct PageList<T: AllocablePage> {
    /// Points to the head of the list.
    head: Rawlink,
    /// Number of elements in the list.
    elements: usize,
    /// The pages that are linked into the list, by address.
    pages: HashMap<usize, T>,
    /// The addresses of the pages, from head to tail.
    order: Ghost<Seq<usize>>,
}

impl<T: AllocablePage> PageList<T> {
    /// The pages of the list, from head to tail.
    pub closed spec fn view(&self) -> Seq<PageModel> {
        Seq::new(self.order@.len(), |i: int| self.pages@[self.order@[i]]@)
    }

    /// Whether the list finds each of its pages under the page's own address.
    pub closed spec fn inv(&self) -> bool {
        &&& self.order@.no_duplicates()
        &&& forall|k: usize| self.pages@.contains_key(k) <==> self.order@.contains(k)
        &&& forall|i: int|
            0 <= i < self.order@.len() ==> (#[trigger] self.pages@[self.order@[i]])@.base
                == self.order@[i]
    }

    /// Whether the list is in order: its pages are linked from head to tail,
    /// `head` leads to the first of them and `elements` is their number.
    pub open spec fn wf(&self) -> bool {
        &&& self.inv()
        &&& linked(self@)
        &&& self.head_link() == link_to(self@, 0)
        &&& self.element_count() == self@.len()
    }

    /// Where `head` leads.
    pub closed spec fn head_link(&self) -> Option<usize> {
        self.head@
    }

    /// What `elements` holds.
    pub closed spec fn element_count(&self) -> usize {
        self.elements
    }

    /// The link to the head of the list.
    pub fn head(&self) -> (r: Rawlink)
        ensures
            r@ == self.head_link(),
    {
        self.head
    }

    /// The number of elements in the list.
    pub fn elements(&self) -> (r: usize)
        ensures
            r == self.element_count(),
    {
        self.elements
    }

    proof fn lemma_view(&self)
        requires
            self.inv(),
        ensures
            self@.len() == self.order@.len(),
            forall|i: int| 0 <= i < self@.len() ==> (#[trigger] self@[i]).base == self.order@[i],
            forall|i: int|
                0 <= i < self@.len() ==> #[trigger] self@[i] == self.pages@[self.order@[i]]@,
            distinct(self@),
            forall|a: usize| holds(self@, a) <==> self.pages@.contains_key(a),
            forall|a: usize|
                holds(self@, a) ==> 0 <= position(self@, a) < self@.len() && self.order@[position(
                    self@,
                    a,
                )] == a,
    {
        let view = self@;
        assert forall|i: int| 0 <= i < view.len() implies (#[trigger] view[i]).base
            == self.order@[i] by {
            assert(self.pages@[self.order@[i]]@.base == self.order@[i]);
        }
        assert forall|a: usize| holds(view, a) <==> self.pages@.contains_key(a) by {
            if holds(view, a) {
                let i = position(view, a);
                assert(self.order@[i] == a);
                assert(self.order@.contains(a));
            }
            if self.pages@.contains_key(a) {
                assert(self.order@.contains(a));
                let i = choose|i: int| 0 <= i < self.order@.len() && self.order@[i] == a;
                assert(view[i].base == a);
            }
        }
    }

    /// A walk along the `next` links that starts at `head` visits the pages
    /// of the list in order, and `elements` is the number of pages it visits,
    /// however many steps more it may take.
    pub proof fn lemma_elements_counts_reachable(&self, steps: nat)
        requires
            self.wf(),
            steps >= self.element_count(),
        ensures
            reachable(self@, self.head_link(), steps).len() == self.element_count(),
            forall|j: int|
                0 <= j < self.element_count() ==> #[trigger] reachable(
                    self@,
                    self.head_link(),
                    steps,
                )[j] == self@[j].base,
    {
        lemma_walk_visits_all(self@, 0, steps);
    }

    /// Creates the empty list.
    pub fn new() -> (r: PageList<T>)
        ensures
            r@ == Seq::<PageModel>::empty(),
            r.wf(),
    {
        let r = PageList {
            head: Rawlink::none(),
            elements: 0,
            pages: HashMap::new(),
            order: Ghost(Seq::empty()),
        };
        assert(r@ =~= Seq::<PageModel>::empty());
        r
    }

    /// The page at `addr`, to write to. While the page is out on loan the list
    /// is as it was; when the page comes back, the list holds what the
    /// borrower left.
    pub fn page_mut(&mut self, addr: usize) -> (r: Option<&mut T>)
        requires
            old(self).inv(),
        ensures
            final(self).head_link() == old(self).head_link(),
            final(self).element_count() == old(self).element_count(),
            match r {
                Some(page) => {
                    &&& holds(old(self)@, addr)
                    &&& page@ == old(self)@[position(old(self)@, addr)]
                    &&& final(self)@ == old(self)@.update(
                        position(old(self)@, addr),
                        final(page)@,
                    )
                    &&& final(page)@.base == addr ==> final(self).inv()
                },
                None => {
                    &&& !holds(old(self)@, addr)
                    &&& final(self)@ == old(self)@
                    &&& final(self).inv()
                },
            },
    {
        proof {
            self.lemma_view();
        }
        let ghost before = *self;
        if !self.pages.contains_key(&addr) {
            return None;
        }
        match self.pages.entry(addr) {
            Entry::Occupied(entry) => {
                let page = entry.into_mut();
                proof {
                    let pos = position(before@, addr);
                    let pages_after = before.pages@.insert(addr, *final(page));
                    let view_after = Seq::new(
                        before.order@.len(),
                        |i: int| pages_after[before.order@[i]]@,
                    );
                    assert(before.pages@.contains_key(addr));
                    assert(holds(before@, addr));
                    assert(0 <= pos < before@.len() && before.order@[pos] == addr);
                    assert forall|i: int| 0 <= i < before@.len() implies view_after[i]
                        == before@.update(pos, final(page)@)[i] by {
                        if i != pos {
                            assert(before.order@[i] != before.order@[pos]);
                        }
                    }
                    assert(view_after =~= before@.update(pos, final(page)@));
                }
                Some(page)
            },
            Entry::Vacant(_) => None,
        }
    }

    /// The page at `addr`, to read.
    pub fn page_ref(&self, addr: usize) -> (r: Option<&T>)
        requires
            self.inv(),
        ensures
            match r {
                Some(page) => holds(self@, addr) && page@ == self@[position(self@, addr)],
                None => !holds(self@, addr),
            },
    {
        proof {
            self.lemma_view();
        }
        let found = self.pages.get(&addr);
        proof {
            if holds(self@, addr) {
                assert(self.order@[position(self@, addr)] == addr);
            }
        }
        found
    }

    /// A cursor that stands at the head of the list. The list stays as it
    /// is.
    pub fn iter_mut(&mut self) -> (r: ObjectPageIterMut)
        ensures
            r@ == old(self).head_link(),
            *final(self) == *old(self),
    {
        ObjectPageIterMut { head: self.head }
    }

    /// Inserts `new_head` at the front of the list.
    pub fn insert_front(&mut self, new_head: T)
        requires
            old(self).wf(),
            !holds(old(self)@, new_head@.base),
            old(self)@.len() < usize::MAX,
        ensures
            final(self).wf(),
            final(self)@ == with_front(old(self)@, new_head@),
    {
        let mut new_head = new_head;
        let ghost page = new_head@;
        let ghost before = *self;
        proof {
            self.lemma_view();
        }
        let addr: usize = new_head.base_address();
        *new_head.prev() = Rawlink::none();
        *new_head.next() = self.head;
        match self.head.address() {
            None => {},
            Some(h) => {
                proof {
                    lemma_position(self@, 0);
                }
                match self.page_mut(h) {
                    Some(head) => {
                        *head.prev() = Rawlink::some(&mut new_head);
                    },
                    None => {},
                }
            },
        }
        let ghost relinked = self@;
        proof {
            self.lemma_view();
            assert(self@.len() == before@.len());
            assert forall|i: int| 0 <= i < self.order@.len() implies self.order@[i]
                == before.order@[i] by {
                assert(self@[i].base == self.order@[i]);
                assert(before@[i].base == before.order@[i]);
            }
            assert(self.order@ =~= before.order@);
            assert(relinked =~= if before@.len() == 0 {
                before@
            } else {
                before@.update(0, PageModel { prev: Some(addr), ..before@[0] })
            });
        }
        self.head = Rawlink::some(&mut new_head);
        self.pages.insert(addr, new_head);
        self.elements = self.elements + 1;
        self.order = Ghost(seq![addr] + self.order@);
        proof {
            lemma_with_front(before@, page);
            assert forall|i: int| 0 <= i < self@.len() implies self@[i] == with_front(
                before@,
                page,
            )[i] by {
                if i > 0 {
                    assert(self.order@[i] == before.order@[i - 1]);
                    assert(self@[i] == relinked[i - 1]);
                }
            }
            assert(self@ =~= with_front(before@, page));
            assert forall|k: usize| self.pages@.contains_key(k) <==> self.order@.contains(
                k,
            ) by {
                if before.order@.contains(k) {
                    let j = choose|j: int| 0 <= j < before.order@.len() && before.order@[j] == k;
                    assert(self.order@[j + 1] == k);
                }
                if k == addr {
                    assert(self.order@[0] == k);
                }
            }
            assert(!before.pages@.contains_key(addr));
            assert(!before.order@.contains(addr));
            assert forall|i: int, j: int|
                0 <= i < self.order@.len() && 0 <= j < self.order@.len() && i
                    != j implies self.order@[i] != self.order@[j] by {
                if i > 0 {
                    assert(before.order@[i - 1] == self.order@[i]);
                }
                if j > 0 {
                    assert(before.order@[j - 1] == self.order@[j]);
                }
            }
        }
    }

    /// Removes the page at `slab_page` from the list and hands it out, its
    /// links cleared.
    pub fn remove_from_list(&mut self, slab_page: usize) -> (r: T)
        requires
            old(self).wf(),
            holds(old(self)@, slab_page),
        ensures
            final(self).wf(),
            final(self)@ == without(old(self)@, position(old(self)@, slab_page)),
            r@ == unlinked(old(self)@[position(old(self)@, slab_page)]),
    {
        proof {
            self.lemma_view();
        }
        let ghost before = *self;
        let ghost i = position(self@, slab_page);
        let removed = self.pages.remove(&slab_page);
        self.order = Ghost(self.order@.remove(i));
        let mut page = removed.unwrap();
        let ghost cut = self@;
        proof {
            assert(links_fit(before@, i));
            assert(cut =~= before@.remove(i));
            assert forall|k: usize| self.pages@.contains_key(k) <==> self.order@.contains(
                k,
            ) by {
                if self.order@.contains(k) {
                    let j = choose|j: int| 0 <= j < self.order@.len() && self.order@[j] == k;
                    let x = if j < i {
                        j
                    } else {
                        j + 1
                    };
                    assert(before.order@[x] == k);
                    assert(before.order@.contains(k));
                    assert(before.order@[x] != before.order@[i]);
                }
                if self.pages@.contains_key(k) {
                    assert(before.pages@.contains_key(k));
                    assert(before.order@.contains(k));
                    let x = choose|x: int| 0 <= x < before.order@.len() && before.order@[x] == k;
                    let j = if x < i {
                        x
                    } else {
                        x - 1
                    };
                    assert(self.order@[j] == k);
                }
            }
            assert(self.inv());
            self.lemma_view();
        }
        let prev = *page.prev();
        let next = *page.next();
        match prev.address() {
            None => {
                self.head = next;
            },
            Some(p) => {
                proof {
                    lemma_position(cut, i - 1);
                }
                match self.page_mut(p) {
                    Some(before_it) => {
                        *before_it.next() = next;
                    },
                    None => {},
                }
            },
        }
        let ghost half = self@;
        proof {
            self.lemma_view();
        }
        match next.address() {
            None => {},
            Some(n) => {
                proof {
                    lemma_position(half, i);
                }
                match self.page_mut(n) {
                    Some(after_it) => {
                        *after_it.prev() = prev;
                    },
                    None => {},
                }
            },
        }
        *page.prev() = Rawlink::none();
        *page.next() = Rawlink::none();
        self.elements = self.elements - 1;
        proof {
            lemma_without(before@, i);
            assert(self@ =~= without(before@, i));
        }
        page
    }

    /// Removes the head of the list and hands it out, its links cleared.
    /// Returns `None` where the list is empty.
    pub fn pop(&mut self) -> (r: Option<T>)
        requires
            old(self).wf(),
        ensures
            final(self).wf(),
            match r {
                Some(page) => {
                    &&& old(self)@.len() > 0
                    &&& page@ == unlinked(old(self)@[0])
                    &&& final(self)@ == without(old(self)@, 0)
                },
                None => old(self)@.len() == 0 && final(self)@ == old(self)@,
            },
    {
        match self.head.address() {
            None => None,
            Some(h) => {
                proof {
                    lemma_position(self@, 0);
                }
                Some(self.remove_from_list(h))
            },
        }
    }

    /// Does the list contain the page at `s`?
    pub fn contains(&mut self, s: usize) -> (r: bool)
        requires
            old(self).wf(),
        ensures
            r == holds(old(self)@, s),
            final(self)@ == old(self)@,
            final(self).wf(),
    {
        let mut cursor = self.iter_mut();
        let ghost k: int = 0;
        loop
            invariant
                self.wf(),
                self@ == old(self)@,
                0 <= k <= self@.len(),
                cursor@ == link_to(self@, k),
                forall|j: int| 0 <= j < k ==> self@[j].base != s,
            decreases self@.len() - k,
        {
            let ghost pages = self@;
            proof {
                if k < self@.len() {
                    lemma_position(self@, k);
                    assert(links_fit(self@, k));
                }
            }
            match cursor.next(self) {
                None => {
                    return false;
                },
                Some(page) => {
                    if page.base_address() == s {
                        proof {
                            assert(pages.update(k, page@) =~= pages);
                        }
                        return true;
                    }
                },
            }
            proof {
                assert(self@ =~= pages);
                k = k + 1;
            }
        }
    }
}

/// A cursor over the pages of a list, from head to tail.
///
/// The cursor holds a link, not the list: each step is handed the list that
/// the link is to be followed in.
pub struct ObjectPageIterMut {
    head: Rawlink,
}

impl ObjectPageIterMut {
    /// The address of the page that the next step yields, if any.
    pub closed spec fn view(&self) -> Option<usize> {
        self.head@
    }

    /// Yields the page that the cursor stands at, to write to, and moves the
    /// cursor along that page's `next` link. Yields nothing, and stays, where
    /// the cursor has run off the tail.
    pub fn next<'a, P: AllocablePage>(&mut self, list: &'a mut PageList<P>) -> (r: Option<
        &'a mut P,
    >)
        requires
            old(list).inv(),
        ensures
            final(list).head_link() == old(list).head_link(),
            final(list).element_count() == old(list).element_count(),
            match r {
                Some(page) => {
                    &&& old(self)@ matches Some(addr)
                    &&& holds(old(list)@, addr)
                    &&& page@ == old(list)@[position(old(list)@, addr)]
                    &&& final(self)@ == page@.next
                    &&& final(list)@ == old(list)@.update(
                        position(old(list)@, addr),
                        final(page)@,
                    )
                    &&& final(page)@.base == addr ==> final(list).inv()
                },
                None => {
                    &&& old(self)@ matches Some(addr) ==> !holds(old(list)@, addr)
                    &&& final(self)@ == old(self)@
                    &&& final(list)@ == old(list)@
                    &&& final(list).inv()
                },
            },
    {
        match self.head.resolve_mut(list) {
            None => None,
            Some(page) => {
                self.head = *page.next();
                Some(page)
            },
        }
    }
}

} // verus!
