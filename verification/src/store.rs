//! The file layer as a mathematical object: what each operation does to the contents of the
//! flash device and to the tables that the file manager keeps in memory.

use vstd::prelude::*;

use crate::allocator::lowest_free;
use crate::config::{FileID, FILE_COUNT, PAGE_COUNT, PAGE_SIZE, SKIPLIST_LEN};
use crate::flash::{erased_page, flash_shape};
use crate::headers::{
    data_header, data_payload, decode_meta, encode_meta, meta_appended, meta_end, meta_header,
    meta_image, meta_payload, DataModel, FileMeta, FILE_META_SIZE,
};
use crate::page::CHUNK_HEADER_SIZE;
use crate::seqnum::{skip_index, SeqNum};
use crate::types::{OptionPageID, NO_PAGE};
use crate::Error;

verus! {

/// A data page and its header.
#[verifier::ext_equal]
pub struct Ptr {
    pub page: u16,
    pub header: DataModel,
}

/// A file: its last page, and the sequence numbers of its first byte and of the end.
#[verifier::ext_equal]
pub struct FileModel {
    pub last: Option<Ptr>,
    pub first: u32,
    pub end: u32,
}

/// The flash device, and the tables in memory.
#[verifier::ext_equal]
pub struct Store {
    pub flash: Seq<Seq<u8>>,
    pub files: Seq<FileModel>,
    pub meta_page: u16,
    pub meta_seq: u32,
    pub used: Seq<bool>,
}

/// A file without bytes.
pub open spec fn empty_file() -> FileModel {
    FileModel { last: None, first: 0, end: 0 }
}

impl Store {
    /// The shape of the tables: every page they name is a page of the device.
    pub open spec fn wf(self) -> bool {
        &&& flash_shape(self.flash)
        &&& self.files.len() == FILE_COUNT
        &&& self.used.len() == PAGE_COUNT
        &&& self.meta_page < PAGE_COUNT
        &&& forall|i: int| 0 <= i < FILE_COUNT ==> ptr_wf((#[trigger] self.files[i]).last)
    }
}

pub open spec fn ptr_wf(p: Option<Ptr>) -> bool {
    p matches Some(pp) ==> pp.page < PAGE_COUNT && pp.header.skiplist.len() == SKIPLIST_LEN
}

/// Follows back pointer `i` of a page. The page it leads to has to start earlier.
pub open spec fn jump(fl: Seq<Seq<u8>>, pp: Ptr, i: int) -> Result<Option<Ptr>, Error> {
    let q = pp.header.skiplist[i];
    if q == NO_PAGE {
        Ok(None)
    } else if q >= PAGE_COUNT {
        Err(Error::Corrupted)
    } else {
        match data_header(fl[q as int]) {
            None => Err(Error::Corrupted),
            Some(h) => if h.seq >= pp.header.seq {
                Err(Error::Corrupted)
            } else {
                Ok(Some(Ptr { page: q, header: h }))
            },
        }
    }
}

/// The page before `pp`, unless `pp` already reaches back to `limit`.
pub open spec fn step_back(fl: Seq<Seq<u8>>, pp: Ptr, limit: u32) -> Result<Option<Ptr>, Error> {
    if pp.header.seq <= limit {
        Ok(None)
    } else {
        jump(fl, pp, 0)
    }
}

/// The page, at or before `pp`, where a walk along the skiplist in search of `seq` ends.
pub open spec fn find_page(fl: Seq<Seq<u8>>, pp: Ptr, seq: u32) -> Result<Ptr, Error>
    decreases pp.header.seq,
{
    if pp.header.seq <= seq {
        Ok(pp)
    } else {
        match jump(fl, pp, skip_index(seq, pp.header.seq)) {
            Ok(Some(q)) => find_page(fl, q, seq),
            _ => Err(Error::Corrupted),
        }
    }
}

/// The page of a file where `seq` is to be found. `None` if the file does not have that byte.
pub open spec fn file_page(fl: Seq<Seq<u8>>, f: FileModel, seq: u32) -> Result<
    Option<Ptr>,
    Error,
> {
    match f.last {
        None => Ok(None),
        Some(last) => if seq < f.first || seq >= f.end {
            Ok(None)
        } else {
            match find_page(fl, last, seq) {
                Ok(pp) => Ok(Some(pp)),
                Err(e) => Err(e),
            }
        },
    }
}

/// A walk along the skiplist ends at a page that starts at or before `seq`: the page that it
/// started from, or a page as the device has it.
pub proof fn lemma_find_page(fl: Seq<Seq<u8>>, pp: Ptr, seq: u32)
    ensures
        find_page(fl, pp, seq) matches Ok(q) ==> {
            &&& q.header.seq <= seq
            &&& q == pp || (q.page < PAGE_COUNT && data_header(fl[q.page as int]) == Some(q.header))
        },
    decreases pp.header.seq,
{
    if pp.header.seq > seq {
        if let Ok(Some(q)) = jump(fl, pp, skip_index(seq, pp.header.seq)) {
            lemma_find_page(fl, q, seq);
        }
    }
}

pub proof fn lemma_file_page(fl: Seq<Seq<u8>>, f: FileModel, seq: u32)
    ensures
        file_page(fl, f, seq) matches Ok(Some(q)) ==> {
            &&& q.header.seq <= seq
            &&& Some(q) == f.last || (q.page < PAGE_COUNT && data_header(fl[q.page as int]) == Some(
                q.header,
            ))
        },
{
    if let Some(last) = f.last {
        lemma_find_page(fl, last, seq);
    }
}

/// Bounds the length of the walk back from a page.
pub open spec fn chain_rank(p: Option<Ptr>) -> int {
    match p {
        Some(pp) => pp.header.seq + 1,
        None => 0,
    }
}

/// Walks back from `from` and frees the pages on the way, up to but without `to`.
pub open spec fn free_chain(
    fl: Seq<Seq<u8>>,
    used: Seq<bool>,
    from: Option<Ptr>,
    to: Option<Ptr>,
    limit: u32,
) -> (Seq<bool>, Result<(), Error>)
    decreases chain_rank(from),
{
    match from {
        None => (used, Ok(())),
        Some(pp) => if to is Some && to->0.page == pp.page {
            (used, Ok(()))
        } else {
            let used2 = used.update(pp.page as int, false);
            match step_back(fl, pp, limit) {
                Err(e) => (used2, Err(e)),
                Ok(None) => (used2, Ok(())),
                Ok(Some(q)) => free_chain(fl, used2, Some(q), to, limit),
            }
        },
    }
}

/// The sequence number behind the first `n` bytes of a file.
pub open spec fn truncate_point(f: FileModel, n: int) -> u32 {
    if n <= f.end - f.first {
        (f.first + n) as u32
    } else {
        f.end
    }
}

/// Drops the first `n` bytes of a file, and frees the pages that hold nothing else.
pub open spec fn truncate_one(st: Store, fid: int, n: int) -> (Store, Result<(), Error>) {
    let f = st.files[fid];
    let seq = truncate_point(f, n);
    let unneeded = if seq == f.end {
        Ok(f.last)
    } else {
        match file_page(st.flash, f, seq) {
            Err(e) => Err(e),
            Ok(None) => Ok(None),
            Ok(Some(pp)) => step_back(st.flash, pp, f.first),
        }
    };
    match unneeded {
        Err(e) => (st, Err(e)),
        Ok(p) => {
            let (used, r) = free_chain(st.flash, st.used, p, None, f.first);
            let st2 = Store { used, ..st };
            match r {
                Err(e) => (st2, Err(e)),
                Ok(_) => (
                    Store {
                        files: st2.files.update(
                            fid,
                            if seq == f.end {
                                empty_file()
                            } else {
                                FileModel { first: seq, ..f }
                            },
                        ),
                        ..st2
                    },
                    Ok(()),
                ),
            }
        },
    }
}

/// Carries out the first `k` truncations of a list, or fewer if one fails.
pub open spec fn truncate_some(st: Store, list: Seq<(FileID, usize)>, k: int) -> (
    Store,
    Result<(), Error>,
)
    decreases k,
{
    if k <= 0 {
        (st, Ok(()))
    } else {
        let (st1, r) = truncate_some(st, list, k - 1);
        match r {
            Err(e) => (st1, Err(e)),
            Ok(_) => truncate_one(st1, list[k - 1].0 as int, list[k - 1].1 as int),
        }
    }
}

/// The entry of a file on the meta page.
pub open spec fn file_entry(files: Seq<FileModel>, fid: FileID) -> FileMeta {
    let f = files[fid as int];
    FileMeta {
        file_id: fid,
        last_page_id: OptionPageID {
            raw: match f.last {
                Some(pp) => pp.page,
                None => NO_PAGE,
            },
        },
        first_seq: SeqNum(f.first),
    }
}

/// The entries of the files of a list.
pub open spec fn file_entries(files: Seq<FileModel>, fids: Seq<FileID>) -> Seq<u8>
    decreases fids.len(),
{
    if fids.len() == 0 {
        Seq::empty()
    } else {
        file_entries(files, fids.drop_last()) + encode_meta(file_entry(files, fids.last()))
    }
}

/// The files among the first `k` that are not empty.
pub open spec fn nonempty_files(files: Seq<FileModel>, k: int) -> Seq<FileID>
    decreases k,
{
    if k <= 0 {
        Seq::empty()
    } else if files[k - 1].last is Some {
        nonempty_files(files, k - 1).push((k - 1) as FileID)
    } else {
        nonempty_files(files, k - 1)
    }
}

/// Whether entries for `n` files can be added to the meta page.
pub open spec fn meta_fits(st: Store, n: int) -> bool {
    n == 0 || meta_end(st.flash[st.meta_page as int]) + CHUNK_HEADER_SIZE + n * FILE_META_SIZE
        <= PAGE_SIZE
}

/// Whether the meta page is one.
pub open spec fn meta_readable(st: Store) -> bool {
    let p = st.flash[st.meta_page as int];
    meta_header(p) is Some && meta_payload(p) is Some
}

/// Writes the entries of all files to a new meta page, which takes the place of the old one.
pub open spec fn rewrite_meta(st: Store) -> (Store, Result<(), Error>) {
    let page = lowest_free(st.used);
    let used = st.used.update(page, true);
    if st.meta_seq == u32::MAX {
        (Store { used, ..st }, Err(Error::Corrupted))
    } else {
        let seq = (st.meta_seq + 1) as u32;
        (
            Store {
                flash: st.flash.update(
                    page,
                    meta_image(
                        seq,
                        file_entries(st.files, nonempty_files(st.files, FILE_COUNT as int)),
                    ),
                ),
                meta_page: page as u16,
                meta_seq: seq,
                used: used.update(st.meta_page as int, false),
                ..st
            },
            Ok(()),
        )
    }
}

/// Makes the state of the files of a list durable.
pub open spec fn write_meta(st: Store, fids: Seq<FileID>) -> (Store, Result<(), Error>) {
    if !meta_readable(st) {
        (st, Err(Error::Corrupted))
    } else if !meta_fits(st, fids.len() as int) {
        rewrite_meta(st)
    } else if fids.len() == 0 {
        (st, Ok(()))
    } else {
        (
            Store {
                flash: st.flash.update(
                    st.meta_page as int,
                    meta_appended(st.flash[st.meta_page as int], file_entries(st.files, fids)),
                ),
                ..st
            },
            Ok(()),
        )
    }
}

/// The meta page among the first `k` pages: the first one with the highest sequence number.
pub open spec fn find_meta(fl: Seq<Seq<u8>>, k: int) -> (Option<u16>, u32)
    decreases k,
{
    if k <= 0 {
        (None, 0)
    } else {
        let (page, seq) = find_meta(fl, k - 1);
        match meta_header(fl[k - 1]) {
            Some(s) => if s > seq {
                (Some((k - 1) as u16), s)
            } else {
                (page, seq)
            },
            None => (page, seq),
        }
    }
}

/// What the meta page says of a file: its last page and the sequence number of its first byte.
#[derive(Clone, Copy)]
pub struct FileInfo {
    pub last: u16,
    pub first: u32,
}

/// Takes in one entry of the meta page. `None` if it makes no sense.
pub open spec fn apply_entry(infos: Seq<FileInfo>, m: FileMeta) -> Option<Seq<FileInfo>> {
    if m.file_id >= FILE_COUNT {
        None
    } else if m.last_page_id.raw != NO_PAGE && m.last_page_id.raw >= PAGE_COUNT {
        None
    } else if m.last_page_id.raw == NO_PAGE && m.first_seq.0 != 0 {
        None
    } else {
        Some(
            infos.update(
                m.file_id as int,
                FileInfo { last: m.last_page_id.raw, first: m.first_seq.0 },
            ),
        )
    }
}

pub open spec fn no_infos() -> Seq<FileInfo> {
    Seq::new(FILE_COUNT as nat, |i: int| FileInfo { last: NO_PAGE, first: 0 })
}

/// What the first `k` entries of a meta page say, later entries overriding earlier ones.
pub open spec fn parse_entries(b: Seq<u8>, k: int) -> Option<Seq<FileInfo>>
    decreases k,
{
    if k <= 0 {
        Some(no_infos())
    } else {
        match parse_entries(b, k - 1) {
            None => None,
            Some(infos) => apply_entry(infos, decode_meta(b, (k - 1) * FILE_META_SIZE)),
        }
    }
}

/// What the payload of a meta page says. `None` if it is not a sequence of sensible entries.
pub open spec fn parse_meta(b: Seq<u8>) -> Option<Seq<FileInfo>> {
    if b.len() % (FILE_META_SIZE as nat) != 0 {
        None
    } else {
        parse_entries(b, (b.len() / (FILE_META_SIZE as nat)) as int)
    }
}

/// An entry that makes no sense spoils everything behind it.
pub proof fn lemma_parse_entries_none(b: Seq<u8>, k: int, n: int)
    requires
        0 <= k <= n,
        parse_entries(b, k) is None,
    ensures
        parse_entries(b, n) is None,
    decreases n,
{
    if k < n {
        lemma_parse_entries_none(b, k, n - 1);
    }
}

pub proof fn lemma_parse_entries_range(b: Seq<u8>, k: int)
    requires
        parse_entries(b, k) is Some,
    ensures
        parse_entries(b, k)->0.len() == FILE_COUNT,
        forall|i: int|
            0 <= i < FILE_COUNT ==> (#[trigger] parse_entries(b, k)->0[i]).last == NO_PAGE
                || parse_entries(b, k)->0[i].last < PAGE_COUNT,
    decreases k,
{
    if k > 0 {
        lemma_parse_entries_range(b, k - 1);
    }
}

/// The last pages that a sensible meta page names are pages of the device.
pub proof fn lemma_parse_meta_range(b: Seq<u8>)
    requires
        parse_meta(b) is Some,
    ensures
        parse_meta(b)->0.len() == FILE_COUNT,
        forall|i: int|
            0 <= i < FILE_COUNT ==> (#[trigger] parse_meta(b)->0[i]).last == NO_PAGE || parse_meta(
                b,
            )->0[i].last < PAGE_COUNT,
{
    lemma_parse_entries_range(b, (b.len() / (FILE_META_SIZE as nat)) as int);
}

/// Walks back from `pp` and marks the pages on the way as used. Fails if one already is.
pub open spec fn mark_chain(fl: Seq<Seq<u8>>, used: Seq<bool>, pp: Ptr, limit: u32) -> (
    Seq<bool>,
    Result<(), Error>,
)
    decreases pp.header.seq,
{
    if used[pp.page as int] {
        (used, Err(Error::Corrupted))
    } else {
        let used2 = used.update(pp.page as int, true);
        match step_back(fl, pp, limit) {
            Err(e) => (used2, Err(e)),
            Ok(None) => (used2, Ok(())),
            Ok(Some(q)) => mark_chain(fl, used2, q, limit),
        }
    }
}

/// Brings one file into the tables.
pub open spec fn mount_file(st: Store, fid: int, info: FileInfo) -> (Store, Result<(), Error>) {
    if info.last == NO_PAGE {
        (st, Ok(()))
    } else {
        let p = st.flash[info.last as int];
        match (data_header(p), data_payload(p)) {
            (Some(h), Some(b)) => {
                let end = h.seq + b.len();
                if end > u32::MAX || info.first >= end {
                    (st, Err(Error::Corrupted))
                } else {
                    let pp = Ptr { page: info.last, header: h };
                    let (used, r) = mark_chain(st.flash, st.used, pp, info.first);
                    (
                        Store {
                            files: st.files.update(
                                fid,
                                FileModel { last: Some(pp), first: info.first, end: end as u32 },
                            ),
                            used,
                            ..st
                        },
                        r,
                    )
                }
            },
            _ => (st, Err(Error::Corrupted)),
        }
    }
}

/// Brings the first `k` files into the tables, or fewer if one fails.
pub open spec fn mount_files(st: Store, infos: Seq<FileInfo>, k: int) -> (Store, Result<(), Error>)
    decreases k,
{
    if k <= 0 {
        (st, Ok(()))
    } else {
        let (st1, r) = mount_files(st, infos, k - 1);
        match r {
            Err(e) => (st1, Err(e)),
            Ok(_) => mount_file(st1, k - 1, infos[k - 1]),
        }
    }
}

/// Nothing happens after a file has failed to mount.
pub proof fn lemma_mount_files_err(st: Store, infos: Seq<FileInfo>, k: int, n: int)
    requires
        0 <= k <= n,
        mount_files(st, infos, k).1 is Err,
    ensures
        mount_files(st, infos, n) == mount_files(st, infos, k),
    decreases n,
{
    if k < n {
        lemma_mount_files_err(st, infos, k, n - 1);
    }
}

/// Nothing happens after a truncation has failed.
pub proof fn lemma_truncate_some_err(st: Store, list: Seq<(FileID, usize)>, k: int, n: int)
    requires
        0 <= k <= n,
        truncate_some(st, list, k).1 is Err,
    ensures
        truncate_some(st, list, n) == truncate_some(st, list, k),
    decreases n,
{
    if k < n {
        lemma_truncate_some_err(st, list, k, n - 1);
    }
}

pub open spec fn all_free() -> Seq<bool> {
    Seq::new(PAGE_COUNT as nat, |i: int| false)
}

/// Rebuilds the tables from the flash device. Files that the meta page does not mention keep
/// what the tables say of them.
pub open spec fn mount(st: Store) -> (Store, Result<(), Error>) {
    match find_meta(st.flash, PAGE_COUNT as int) {
        (None, _) => (Store { used: all_free(), ..st }, Err(Error::Corrupted)),
        (Some(page), seq) => {
            let st1 = Store {
                meta_page: page,
                meta_seq: seq,
                used: all_free().update(page as int, true),
                ..st
            };
            match meta_payload(st.flash[page as int]) {
                None => (st1, Err(Error::Corrupted)),
                Some(b) => match parse_meta(b) {
                    None => (st1, Err(Error::Corrupted)),
                    Some(infos) => mount_files(st1, infos, FILE_COUNT as int),
                },
            }
        },
    }
}

/// Exchanges two files in the tables.
pub open spec fn swapped(st: Store, a: int, b: int) -> Store {
    Store { files: st.files.update(a, st.files[b]).update(b, st.files[a]), ..st }
}

/// The flash device after the meta pages among the first `k` pages have been erased.
pub open spec fn erase_metas(fl: Seq<Seq<u8>>, k: int) -> Seq<Seq<u8>> {
    Seq::new(
        fl.len(),
        |i: int|
            if i < k && meta_header(fl[i]) is Some {
                erased_page()
            } else {
                fl[i]
            },
    )
}

/// The flash device after formatting: its only meta page is page 0, which lists no files.
pub open spec fn formatted(fl: Seq<Seq<u8>>) -> Seq<Seq<u8>> {
    erase_metas(fl, PAGE_COUNT as int).update(0, meta_image(1, Seq::empty()))
}

} // verus!
