//! The file layer of a key-value store for flash devices: append-only files on pages that have to
//! be erased before they are written.

use vstd::prelude::*;

pub mod allocator;
pub mod bytes;
pub mod chain;
pub mod commit_laws;
pub mod commits;
pub mod config;
pub mod dump;
pub mod durability;
pub mod file;
pub mod flash;
pub mod headers;
pub mod layout;
pub mod mount_laws;
pub mod mounting;
pub mod page;
pub mod read_laws;
pub mod reader;
pub mod readers;
pub mod readers_on;
pub mod record_laws;
pub mod record_runs;
pub mod search_again;
pub mod search_any;
pub mod search_laws;
pub mod search_runs;
pub mod searcher;
pub mod seqnum;
pub mod session_records;
pub mod sessions;
pub mod sound;
pub mod space;
pub mod store;
pub mod tables;
pub mod types;
pub mod walks;
pub mod write_laws;
pub mod writer;

use crate::page::ReadError;

verus! {

/// What can go wrong in the file layer.
#[derive(Clone, Copy, PartialEq, Eq, Structural, Debug)]
pub enum Error {
    Corrupted,
}

/// What can go wrong when the value of a key is read.
#[derive(Clone, Copy, PartialEq, Eq, Structural, Debug)]
pub enum ReadKeyError {
    BufferTooSmall,
    Corrupted,
}

impl From<Error> for ReadKeyError {
    fn from(e: Error) -> (r: ReadKeyError) {
        match e {
            Error::Corrupted => ReadKeyError::Corrupted,
        }
    }
}

impl vstd::std_specs::convert::FromSpecImpl<Error> for ReadKeyError {
    open spec fn obeys_from_spec() -> bool {
        true
    }

    open spec fn from_spec(e: Error) -> ReadKeyError {
        ReadKeyError::Corrupted
    }
}

impl From<ReadError> for ReadKeyError {
    fn from(e: ReadError) -> (r: ReadKeyError) {
        match e {
            ReadError::Eof => ReadKeyError::Corrupted,
            ReadError::Corrupted => ReadKeyError::Corrupted,
        }
    }
}

impl vstd::std_specs::convert::FromSpecImpl<ReadError> for ReadKeyError {
    open spec fn obeys_from_spec() -> bool {
        true
    }

    open spec fn from_spec(e: ReadError) -> ReadKeyError {
        ReadKeyError::Corrupted
    }
}

} // verus!
