//! A nullable, non-owning link to a page.

use vstd::prelude::*;
use crate::page_list::{holds, position, PageList};
use crate::pages::AllocablePage;

verus! {

/// Either nothing or the address of a page.
///
/// A link owns nothing and keeps nothing alive. Whoever holds the pages
/// decides whether the link still leads anywhere.
#[derive(Clone, Copy, Debug, PartialEq, Eq, Structural)]
pub struct Rawlink {
    target: Option<usize>,
}

impl Rawlink {
    /// The address that the link holds, if any.
    pub closed spec fn view(&self) -> Option<usize> {
        self.target
    }

    /// The link that leads nowhere.
    pub fn none() -> (r: Rawlink)
        ensures
            r@ is None,
    {
        Rawlink { target: None }
    }

    /// The link to the page `n`.
    pub fn some<T: AllocablePage>(n: &mut T) -> (r: Rawlink)
        ensures
            r@ == Some(old(n)@.base),
            *final(n) == *old(n),
    {
        Rawlink { target: Some(n.base_address()) }
    }

    /// The address that the link holds, if any.
    pub fn address(&self) -> (r: Option<usize>)
        ensures
            r == self@,
    {
        self.target
    }

    /// The page that the link leads to in `list`, to read. `None` where the
    /// link leads nowhere or to no page of `list`.
    pub fn resolve<'a, T: AllocablePage>(&self, list: &'a PageList<T>) -> (r: Option<&'a T>)
        requires
            list.inv(),
        ensures
            match r {
                Some(page) => {
                    &&& self@ matches Some(addr)
                    &&& holds(list@, addr)
                    &&& page@ == list@[position(list@, addr)]
                },
                None => self@ matches Some(addr) ==> !holds(list@, addr),
            },
    {
        match self.target {
            None => None,
            Some(addr) => list.page_ref(addr),
        }
    }

    /// The page that the link leads to in `list`, to write to. `None` where
    /// the link leads nowhere or to no page of `list`.
    pub fn resolve_mut<'a, T: AllocablePage>(&mut self, list: &'a mut PageList<T>) -> (r: Option<
        &'a mut T,
    >)
        requires
            old(list).inv(),
        ensures
            final(self)@ == old(self)@,
            final(list).head_link() == old(list).head_link(),
            final(list).element_count() == old(list).element_count(),
            match r {
                Some(page) => {
                    &&& old(self)@ matches Some(addr)
                    &&& holds(old(list)@, addr)
                    &&& page@ == old(list)@[position(old(list)@, addr)]
                    &&& final(list)@ == old(list)@.update(
                        position(old(list)@, addr),
                        final(page)@,
                    )
                    &&& final(page)@.base == addr ==> final(list).inv()
                },
                None => {
                    &&& old(self)@ matches Some(addr) ==> !holds(old(list)@, addr)
                    &&& final(list)@ == old(list)@
                    &&& final(list).inv()
                },
            },
    {
        match self.target {
            None => None,
            Some(addr) => list.page_mut(addr),
        }
    }

    /// Hands out the link and leaves the link that leads nowhere in its place.
    pub fn take(&mut self) -> (r: Rawlink)
        ensures
            r@ == old(self)@,
            final(self)@ is None,
    {
        let mut taken = Rawlink::none();
        core::mem::swap(self, &mut taken);
        taken
    }
}

impl Default for Rawlink {
    fn default() -> (r: Rawlink)
        ensures
            r@ is None,
    {
        Rawlink { target: None }
    }
}

} // verus!
