//! The flash device.

use vstd::prelude::*;

use crate::bytes::splice;
use crate::config::{ERASE_VALUE, PAGE_COUNT, PAGE_SIZE};
use crate::types::PageID;

verus! {

/// The contents of a device: `PAGE_COUNT` pages of `PAGE_SIZE` bytes.
pub open spec fn flash_shape(fl: Seq<Seq<u8>>) -> bool {
    &&& fl.len() == PAGE_COUNT
    &&& forall|i: int| 0 <= i < PAGE_COUNT ==> (#[trigger] fl[i]).len() == PAGE_SIZE
}

/// The contents of an erased page.
pub open spec fn erased_page() -> Seq<u8> {
    Seq::new(PAGE_SIZE as nat, |i: int| ERASE_VALUE)
}

/// A flash device, to be provided by the user of the library.
pub trait Flash: Sized {
    /// The bytes of each page.
    spec fn view(&self) -> Seq<Seq<u8>>;

    /// Erases a page.
    fn erase(&mut self, page_id: PageID)
        requires
            page_id.in_range(),
            flash_shape((*old(self))@),
        ensures
            (*final(self))@ == (*old(self))@.update(page_id.raw as int, erased_page()),
    ;

    /// Reads the bytes of a page from `offset` on until `data` is full.
    fn read(&mut self, page_id: PageID, offset: usize, data: &mut [u8])
        requires
            page_id.in_range(),
            flash_shape((*old(self))@),
            offset + old(data)@.len() <= PAGE_SIZE,
        ensures
            (*final(self))@ == (*old(self))@,
            final(data)@ == (*old(self))@[page_id.raw as int].subrange(
                offset as int,
                offset + old(data)@.len(),
            ),
    ;

    /// Writes bytes into a page from `offset` on.
    fn write(&mut self, page_id: PageID, offset: usize, data: &[u8])
        requires
            page_id.in_range(),
            flash_shape((*old(self))@),
            offset + data@.len() <= PAGE_SIZE,
        ensures
            (*final(self))@ == (*old(self))@.update(
                page_id.raw as int,
                splice((*old(self))@[page_id.raw as int], offset as int, data@),
            ),
    ;
}

impl<F: Flash> Flash for &mut F {
    open spec fn view(&self) -> Seq<Seq<u8>> {
        (**self).view()
    }

    fn erase(&mut self, page_id: PageID) {
        (**self).erase(page_id)
    }

    fn read(&mut self, page_id: PageID, offset: usize, data: &mut [u8]) {
        (**self).read(page_id, offset, data)
    }

    fn write(&mut self, page_id: PageID, offset: usize, data: &[u8]) {
        (**self).write(page_id, offset, data)
    }
}

/// A flash device held in memory.
pub struct MemFlash {
    pub pages: Vec<Vec<u8>>,
}

impl MemFlash {
    /// The bytes of each page.
    pub open spec fn contents(self) -> Seq<Seq<u8>> {
        Seq::new(self.pages@.len(), |i: int| self.pages@[i]@)
    }

    /// A device with every page erased.
    pub fn new() -> (r: MemFlash)
        ensures
            flash_shape(r.contents()),
            forall|i: int| 0 <= i < PAGE_COUNT ==> #[trigger] r.contents()[i] == erased_page(),
    {
        let mut pages: Vec<Vec<u8>> = Vec::new();
        while pages.len() < PAGE_COUNT
            invariant
                pages@.len() <= PAGE_COUNT,
                forall|i: int| 0 <= i < pages@.len() ==> (#[trigger] pages@[i])@ == erased_page(),
            decreases PAGE_COUNT - pages@.len(),
        {
            let page: Vec<u8> = vec![ERASE_VALUE; PAGE_SIZE];
            assert(page@ =~= erased_page());
            pages.push(page);
        }
        MemFlash { pages }
    }
}

impl Flash for MemFlash {
    open spec fn view(&self) -> Seq<Seq<u8>> {
        self.contents()
    }

    fn erase(&mut self, page_id: PageID) {
        let page: Vec<u8> = vec![ERASE_VALUE; PAGE_SIZE];
        assert(page@ =~= erased_page());
        let i: usize = page_id.index();
        assert(self.contents()[i as int].len() == PAGE_SIZE);
        self.pages[i] = page;
        assert(self.contents() =~= old(self).contents().update(i as int, erased_page()));
    }

    fn read(&mut self, page_id: PageID, offset: usize, data: &mut [u8]) {
        let n: usize = data.len();
        let src: &Vec<u8> = &self.pages[page_id.index()];
        assert(self.contents()[page_id.raw as int] == src@);
        let mut i: usize = 0;
        while i < n
            invariant
                i <= n,
                n == data@.len(),
                offset + n <= src.len(),
                forall|k: int| 0 <= k < i ==> data@[k] == src@[offset + k],
            decreases n - i,
        {
            data[i] = src[offset + i];
            i += 1;
        }
        assert(data@ =~= src@.subrange(offset as int, offset + n));
    }

    fn write(&mut self, page_id: PageID, offset: usize, data: &[u8]) {
        let n: usize = data.len();
        let p: usize = page_id.index();
        let ghost before = self.pages@;
        assert(self.contents()[p as int] == before[p as int]@);
        let dst: &mut Vec<u8> = &mut self.pages[p];
        let ghost page = dst@;
        let mut i: usize = 0;
        while i < n
            invariant
                i <= n,
                n == data@.len(),
                offset + n <= PAGE_SIZE,
                dst@.len() == PAGE_SIZE,
                page.len() == PAGE_SIZE,
                dst@ == splice(page, offset as int, data@.subrange(0, i as int)),
            decreases n - i,
        {
            dst[offset + i] = data[i];
            i += 1;
            assert(dst@ =~= splice(page, offset as int, data@.subrange(0, i as int)));
        }
        assert(data@.subrange(0, n as int) =~= data@);
        assert(self.contents() =~= old(self).contents().update(
            p as int,
            splice(page, offset as int, data@),
        ));
    }
}

} // verus!
