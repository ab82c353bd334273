//! Bookkeeping of the pages that are in use.

use vstd::prelude::*;

use crate::config::PAGE_COUNT;
use crate::types::PageID;

verus! {

/// The first free page at or after `from`, or the number of pages if there is none.
pub open spec fn lowest_free_from(used: Seq<bool>, from: int) -> int
    decreases used.len() - from,
{
    if from >= used.len() {
        used.len() as int
    } else if !used[from] {
        from
    } else {
        lowest_free_from(used, from + 1)
    }
}

/// The first free page, or the number of pages if there is none.
pub open spec fn lowest_free(used: Seq<bool>) -> int {
    lowest_free_from(used, 0)
}

/// Whether a page is left to allocate.
pub open spec fn has_free(used: Seq<bool>) -> bool {
    lowest_free(used) < used.len()
}

/// `lowest_free_from` is the first index from `from` on that is free.
pub proof fn lemma_lowest_free_from(used: Seq<bool>, from: int)
    requires
        0 <= from <= used.len(),
    ensures
        from <= lowest_free_from(used, from) <= used.len(),
        lowest_free_from(used, from) < used.len() ==> !used[lowest_free_from(used, from)],
        forall|i: int| from <= i < lowest_free_from(used, from) ==> used[i],
    decreases used.len() - from,
{
    if from < used.len() && used[from] {
        lemma_lowest_free_from(used, from + 1);
    }
}

/// Keeps track of the pages in use.
pub struct Allocator {
    pub used: [bool; PAGE_COUNT],
}

impl View for Allocator {
    type V = Seq<bool>;

    open spec fn view(&self) -> Seq<bool> {
        self.used@
    }
}

impl Allocator {
    /// An allocator with every page free.
    pub fn new() -> (r: Allocator)
        ensures
            r@ == Seq::new(PAGE_COUNT as nat, |i: int| false),
    {
        let r = Allocator { used: [false; PAGE_COUNT] };
        assert(r@ =~= Seq::new(PAGE_COUNT as nat, |i: int| false));
        r
    }

    /// Frees every page.
    pub fn reset(&mut self)
        ensures
            final(self)@ == Seq::new(PAGE_COUNT as nat, |i: int| false),
    {
        *self = Allocator::new();
    }

    /// Whether a page is in use.
    pub fn is_used(&self, page_id: PageID) -> (r: bool)
        requires
            page_id.in_range(),
        ensures
            r == self@[page_id.raw as int],
    {
        self.used[page_id.index()]
    }

    /// Marks a page as in use.
    pub fn mark_used(&mut self, page_id: PageID)
        requires
            page_id.in_range(),
        ensures
            final(self)@ == old(self)@.update(page_id.raw as int, true),
    {
        self.used[page_id.index()] = true;
    }

    /// Gives a page back.
    pub fn free(&mut self, page_id: PageID)
        requires
            page_id.in_range(),
        ensures
            final(self)@ == old(self)@.update(page_id.raw as int, false),
    {
        self.used[page_id.index()] = false;
    }

    /// Takes the lowest free page.
    pub fn allocate(&mut self) -> (r: PageID)
        requires
            has_free(old(self)@),
        ensures
            r.in_range(),
            r.raw == lowest_free(old(self)@),
            final(self)@ == old(self)@.update(lowest_free(old(self)@), true),
    {
        let mut i: usize = 0;
        proof {
            lemma_lowest_free_from(self@, 0);
        }
        while self.used[i]
            invariant
                i < PAGE_COUNT,
                lowest_free(self@) < PAGE_COUNT,
                lowest_free_from(self@, i as int) == lowest_free(self@),
            decreases PAGE_COUNT - i,
        {
            proof {
                lemma_lowest_free_from(self@, i + 1);
            }
            i += 1;
        }
        self.used[i] = true;
        PageID { raw: i as u16 }
    }
}

} // verus!
