//! Geometry of the flash device and of the file layer.

use vstd::prelude::*;

verus! {

/// Number identifying a file.
pub type FileID = u8;

/// Size of a flash page in bytes.
pub const PAGE_SIZE: usize = 256;

/// Number of pages on the flash device.
pub const PAGE_COUNT: usize = 256;

/// Value of every byte of an erased page.
pub const ERASE_VALUE: u8 = 0xff;

/// Number of files. Valid file ids are `0..FILE_COUNT`.
pub const FILE_COUNT: usize = 7;

/// Number of back pointers in the header of a data page.
pub const SKIPLIST_LEN: usize = 5;

/// Back pointer `i >= 1` points at the latest page holding a byte whose sequence number is a
/// multiple of `2**(SKIPLIST_SHIFT + i)`.
pub const SKIPLIST_SHIFT: usize = 8;

} // verus!
