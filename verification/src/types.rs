//! Page identifiers.

use vstd::prelude::*;

use crate::config::PAGE_COUNT;

verus! {

/// A page number as it is stored on flash.
pub type RawPageID = u16;

/// The raw value that stands for "no page".
pub const NO_PAGE: u16 = 0xffff;

/// Identifies a page of the flash device.
#[derive(Clone, Copy, PartialEq, Eq, Structural, Debug)]
pub struct PageID {
    pub raw: RawPageID,
}

impl PageID {
    /// Whether the id names a page of the device.
    pub open spec fn in_range(self) -> bool {
        self.raw < PAGE_COUNT
    }

    /// Makes an id out of its raw value. The value that stands for "no page" is refused.
    pub fn from_raw(raw: RawPageID) -> (r: Option<PageID>)
        ensures
            r == (if raw == NO_PAGE { None } else { Some(PageID { raw }) }),
    {
        if raw == NO_PAGE {
            None
        } else {
            Some(PageID { raw })
        }
    }

    /// The position of the page on the device.
    pub fn index(self) -> (r: usize)
        ensures
            r == self.raw,
    {
        self.raw as usize
    }
}

/// A page id, or nothing, in the size of a page id.
#[derive(Clone, Copy, PartialEq, Eq, Structural, Debug)]
pub struct OptionPageID {
    pub raw: RawPageID,
}

impl OptionPageID {
    pub open spec fn spec_into_option(self) -> Option<PageID> {
        if self.raw == NO_PAGE {
            None
        } else {
            Some(PageID { raw: self.raw })
        }
    }

    /// No page.
    pub fn none() -> (r: OptionPageID)
        ensures
            r.raw == NO_PAGE,
    {
        OptionPageID { raw: NO_PAGE }
    }

    /// The given page.
    pub fn some(page_id: PageID) -> (r: OptionPageID)
        ensures
            r.raw == page_id.raw,
    {
        OptionPageID { raw: page_id.raw }
    }

    /// Converts to an ordinary `Option`.
    pub fn into_option(self) -> (r: Option<PageID>)
        ensures
            r == self.spec_into_option(),
    {
        PageID::from_raw(self.raw)
    }

    /// Whether this is no page.
    pub fn is_none(self) -> (r: bool)
        ensures
            r == (self.raw == NO_PAGE),
    {
        self.raw == NO_PAGE
    }
}

} // verus!
