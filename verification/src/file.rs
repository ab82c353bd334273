//! The file manager: a fixed number of append-only files on a flash device.

use vstd::prelude::*;

use crate::allocator::{has_free, Allocator};
use crate::commit_laws::law_rename;
use crate::commits::bytes_committed;
use crate::config::{FileID, FILE_COUNT, PAGE_COUNT, PAGE_SIZE, SKIPLIST_LEN};
use crate::durability::{added, committable, committed, law_commit_only, lemma_commit_outcome};
use crate::flash::{flash_shape, Flash};
use crate::headers::{
    data_header, data_payload, decode_meta, encode_meta, lemma_data_payload_len, meta_appended,
    meta_end, meta_header, meta_image, meta_payload, DataHeader, FileMeta, MetaHeader, DATA_START,
    FILE_META_SIZE,
};
use crate::mount_laws::{durable, law_mount, mounts};
use crate::page::{
    lemma_payload_len, page_header, payload_from, payload_start, Header, PageManager, PageReader,
    PageWriter,
};
use crate::read_laws::reader_at;
use crate::reader::{FileReader, ReaderModel};
use crate::seqnum::{skiplist_index, SeqNum};
use crate::sound::{file_bytes, law_empty, sound, tight};
use crate::store::{
    all_free, apply_entry, chain_rank, empty_file, erase_metas, file_entries, file_entry, file_page,
    find_meta, find_page, formatted, free_chain, jump, lemma_mount_files_err,
    lemma_parse_entries_none, lemma_parse_meta_range, lemma_truncate_some_err, mark_chain,
    meta_fits, meta_readable, mount, mount_file, mount_files, no_infos, nonempty_files,
    parse_entries, parse_meta, rewrite_meta, step_back, swapped, truncate_one, truncate_point,
    truncate_some, write_meta, FileInfo, FileModel, Ptr, Store,
};
use crate::types::{OptionPageID, PageID, NO_PAGE};
use crate::write_laws::{writer_ok, writer_open, written};
use crate::writer::{
    commit_all, commit_list, commit_ready, last_before_end, new_writer, ordered, truncation_ready,
    FileWriter, WriterModel,
};
use crate::Error;

verus! {

/// "cursor" pointing to a page within a file.
#[derive(Clone, Copy, Debug)]
pub struct PagePointer {
    pub page_id: PageID,
    pub header: DataHeader,
}

impl View for PagePointer {
    type V = Ptr;

    open spec fn view(&self) -> Ptr {
        Ptr { page: self.page_id.raw, header: self.header@ }
    }
}

pub open spec fn ptr_view(p: Option<PagePointer>) -> Option<Ptr> {
    match p {
        Some(pp) => Some(pp@),
        None => None,
    }
}

/// What the file manager keeps in memory of a file.
#[derive(Clone, Copy, Debug)]
pub struct FileState {
    pub last_page: Option<PagePointer>,
    pub first_seq: SeqNum,
    pub last_seq: SeqNum,
}

impl View for FileState {
    type V = FileModel;

    open spec fn view(&self) -> FileModel {
        FileModel {
            last: ptr_view(self.last_page),
            first: self.first_seq.0,
            end: self.last_seq.0,
        }
    }
}

/// Manages the files on a flash device.
pub struct FileManager<F: Flash> {
    pub flash: F,
    pub pages: PageManager,
    pub files: [FileState; FILE_COUNT],
    pub meta_page_id: PageID,
    pub meta_seq: SeqNum,
    pub alloc: Allocator,
}

impl<F: Flash> View for FileManager<F> {
    type V = Store;

    open spec fn view(&self) -> Store {
        Store {
            flash: self.flash.view(),
            files: Seq::new(FILE_COUNT as nat, |i: int| self.files@[i]@),
            meta_page: self.meta_page_id.raw,
            meta_seq: self.meta_seq.0,
            used: self.alloc@,
        }
    }
}

impl PagePointer {
    /// Follows back pointer `i`. The page it leads to has to start earlier: this avoids infinite
    /// loops.
    fn jump<F: Flash>(self, m: &mut FileManager<F>, i: usize) -> (r: Result<
        Option<PagePointer>,
        Error,
    >)
        requires
            old(m)@.wf(),
            i < SKIPLIST_LEN,
        ensures
            final(m)@ == old(m)@,
            match r {
                Ok(p) => jump(old(m)@.flash, self@, i as int) == Ok::<_, Error>(ptr_view(p)),
                Err(e) => jump(old(m)@.flash, self@, i as int) == Err::<Option<Ptr>, _>(e),
            },
    {
        let p2: PageID = match self.header.skiplist[i].into_option() {
            Some(p2) => p2,
            None => {
                return Ok(None);
            },
        };
        if p2.index() >= PAGE_COUNT {
            return Err(Error::Corrupted);
        }
        proof {
            reveal(data_header);
        }
        let h2: DataHeader = match m.read_header::<DataHeader>(p2) {
            Ok(h) => h,
            Err(e) => {
                return Err(Error::Corrupted);
            },
        };
        if h2.seq.0 >= self.header.seq.0 {
            return Err(Error::Corrupted);
        }
        Ok(Some(PagePointer { page_id: p2, header: h2 }))
    }

    /// The previous page of the file, unless this page already reaches back to `seq_limit`.
    pub fn prev<F: Flash>(self, m: &mut FileManager<F>, seq_limit: SeqNum) -> (r: Result<
        Option<PagePointer>,
        Error,
    >)
        requires
            old(m)@.wf(),
        ensures
            final(m)@ == old(m)@,
            match r {
                Ok(p) => step_back(old(m)@.flash, self@, seq_limit.0) == Ok::<_, Error>(
                    ptr_view(p),
                ),
                Err(e) => step_back(old(m)@.flash, self@, seq_limit.0) == Err::<Option<Ptr>, _>(
                    e,
                ),
            },
    {
        if self.header.seq.0 <= seq_limit.0 {
            return Ok(None);
        }
        self.jump(m, 0)
    }

    /// The page that holds `seq`, found by walking back along the skiplist.
    pub fn prev_seq<F: Flash>(self, m: &mut FileManager<F>, seq: SeqNum) -> (r: Result<
        PagePointer,
        Error,
    >)
        requires
            old(m)@.wf(),
        ensures
            final(m)@ == old(m)@,
            match r {
                Ok(p) => find_page(old(m)@.flash, self@, seq.0) == Ok::<_, Error>(p@) && (p == self
                    || p.page_id.in_range()),
                Err(e) => find_page(old(m)@.flash, self@, seq.0) == Err::<Ptr, _>(e),
            },
    {
        let mut pp: PagePointer = self;
        while pp.header.seq.0 > seq.0
            invariant
                m@ == old(m)@,
                m@.wf(),
                find_page(m@.flash, pp@, seq.0) == find_page(m@.flash, self@, seq.0),
                pp == self || pp.page_id.in_range(),
            decreases pp.header.seq.0,
        {
            let i: usize = skiplist_index(seq, pp.header.seq);
            match pp.jump(m, i) {
                Ok(Some(q)) => {
                    pp = q;
                },
                Ok(None) => {
                    return Err(Error::Corrupted);
                },
                Err(e) => {
                    return Err(Error::Corrupted);
                },
            }
        }
        Ok(pp)
    }
}

impl<F: Flash> FileManager<F> {
    /// A manager for the files on a device. Nothing can be done with the files before mounting.
    pub fn new(flash: F) -> (r: FileManager<F>)
        ensures
            r.flash == flash,
            r@ == (Store {
                flash: flash.view(),
                files: Seq::new(FILE_COUNT as nat, |i: int| empty_file()),
                meta_page: 0,
                meta_seq: 0,
                used: all_free(),
            }),
    {
        let file = FileState { last_page: None, first_seq: SeqNum(0), last_seq: SeqNum(0) };
        let r = FileManager {
            flash,
            pages: PageManager {  },
            files: [file; FILE_COUNT],
            meta_page_id: PageID { raw: 0 },
            meta_seq: SeqNum(0),
            alloc: Allocator::new(),
        };
        assert(r@.files =~= Seq::new(FILE_COUNT as nat, |i: int| empty_file()));
        r
    }

    /// The flash device.
    pub fn flash_mut(&mut self) -> (r: &mut F)
        ensures
            *r == old(self).flash,
            *final(self) == (FileManager { flash: *final(r), ..*old(self) }),
    {
        &mut self.flash
    }

    /// Whether a file has no bytes.
    pub fn is_empty(&mut self, file_id: FileID) -> (r: bool)
        requires
            file_id < FILE_COUNT,
        ensures
            *final(self) == *old(self),
            r == (old(self)@.files[file_id as int].last is None),
            sound(old(self)@) ==> (r <==> file_bytes(old(self)@, file_id as int).len() == 0),
    {
        proof {
            if sound(self@) {
                law_empty(self@, file_id as int);
            }
        }
        self.files[file_id as usize].last_page.is_none()
    }

    /// Reads the header of a page.
    pub fn read_header<H: Header>(&mut self, page_id: PageID) -> (r: Result<H, Error>)
        requires
            page_id.in_range(),
            old(self)@.wf(),
        ensures
            final(self)@ == old(self)@,
            match page_header::<H>(old(self)@.flash[page_id.raw as int]) {
                Some(h) => r matches Ok(x) && x.model() == h,
                None => r == Err::<H, Error>(Error::Corrupted),
            },
    {
        self.pages.read_header(&mut self.flash, page_id)
    }

    /// Opens a page for reading.
    pub fn read_page<H: Header>(&mut self, page_id: PageID) -> (r: Result<(H, PageReader), Error>)
        requires
            page_id.in_range(),
            old(self)@.wf(),
        ensures
            final(self)@ == old(self)@,
            ({
                let p = old(self)@.flash[page_id.raw as int];
                match (page_header::<H>(p), payload_from(p, payload_start::<H>())) {
                    (Some(h), Some(b)) => r matches Ok(x) && x.0.model() == h && x.1 == (
                    PageReader { page_id, start: payload_start::<H>() as usize, pos: 0 })
                        && x.1.wf(),
                    _ => r == Err::<(H, PageReader), Error>(Error::Corrupted),
                }
            }),
    {
        self.pages.read(&mut self.flash, page_id)
    }

    /// Opens a data page for reading.
    pub fn read_data_page(&mut self, page_id: PageID) -> (r: Result<
        (DataHeader, PageReader),
        Error,
    >)
        requires
            page_id.in_range(),
            old(self)@.wf(),
        ensures
            final(self)@ == old(self)@,
            ({
                let p = old(self)@.flash[page_id.raw as int];
                match (data_header(p), data_payload(p)) {
                    (Some(h), Some(b)) => r matches Ok(x) && x.0@ == h && x.1 == (PageReader {
                        page_id,
                        start: DATA_START,
                        pos: 0,
                    }) && x.1.wf() && x.1.payload(old(self)@.flash) == Some(b),
                    _ => r == Err::<(DataHeader, PageReader), Error>(Error::Corrupted),
                }
            }),
    {
        proof {
            reveal(data_header);
            reveal(data_payload);
        }
        self.read_page(page_id)
    }

    /// Opens a page for writing it anew.
    pub fn write_page<H: Header>(&mut self, page_id: PageID) -> (r: PageWriter)
        requires
            page_id.in_range(),
        ensures
            *final(self) == *old(self),
            r.wf(),
            r.page_id == page_id,
            r.needs_erase,
            r.offset == payload_start::<H>(),
            r.committed == 0,
            r.buf@ == Seq::<u8>::empty(),
    {
        self.pages.write::<H>(page_id)
    }

    /// Erases all files.
    pub fn format(&mut self)
        requires
            old(self)@.wf(),
        ensures
            final(self)@ == (Store { flash: formatted(old(self)@.flash), ..old(self)@ }),
    {
        let ghost fl = self@.flash;
        let mut i: usize = 0;
        assert(erase_metas(fl, 0) =~= fl);
        while i < PAGE_COUNT
            invariant
                i <= PAGE_COUNT,
                flash_shape(fl),
                fl == old(self)@.flash,
                self@ == (Store { flash: erase_metas(fl, i as int), ..old(self)@ }),
                self@.wf(),
            decreases PAGE_COUNT - i,
        {
            let page_id = PageID { raw: i as u16 };
            proof {
                reveal(meta_header);
            }
            let h: Result<MetaHeader, Error> = self.read_header(page_id);
            let ghost before = self@;
            if let Ok(_) = h {
                self.flash.erase(page_id);
            }
            assert(self@.flash =~= erase_metas(fl, i + 1));
            assert(self@ =~= (Store { flash: erase_metas(fl, i + 1), ..old(self)@ }));
            i += 1;
        }
        let page_id = PageID { raw: 0 };
        let mut w: PageWriter = self.write_page::<MetaHeader>(page_id);
        w.write_header(&mut self.flash, MetaHeader { seq: SeqNum(1) });
        proof {
            reveal(meta_image);
        }
        assert(self@ =~= (Store { flash: formatted(fl), ..old(self)@ }));
    }

    /// The page of a file that holds `seq`, if the file has that byte.
    pub fn get_file_page(&mut self, file_id: FileID, seq: SeqNum) -> (r: Result<
        Option<PagePointer>,
        Error,
    >)
        requires
            file_id < FILE_COUNT,
            old(self)@.wf(),
        ensures
            final(self)@ == old(self)@,
            match r {
                Ok(p) => file_page(old(self)@.flash, old(self)@.files[file_id as int], seq.0)
                    == Ok::<_, Error>(ptr_view(p)) && (p matches Some(pp)
                    ==> pp.page_id.in_range()),
                Err(e) => file_page(old(self)@.flash, old(self)@.files[file_id as int], seq.0)
                    == Err::<Option<Ptr>, _>(e),
            },
    {
        let f: FileState = self.files[file_id as usize];
        assert(self@.files[file_id as int] == f@);
        match f.last_page {
            None => Ok(None),
            Some(last) => {
                if seq.0 < f.first_seq.0 || seq.0 >= f.last_seq.0 {
                    Ok(None)
                } else {
                    match last.prev_seq(self, seq) {
                        Ok(pp) => Ok(Some(pp)),
                        Err(e) => Err(e),
                    }
                }
            },
        }
    }

    /// Walks back from `from` and frees the pages on the way, up to but without `to`.
    pub fn free_between(
        &mut self,
        from: Option<PagePointer>,
        to: Option<PagePointer>,
        seq_limit: SeqNum,
    ) -> (r: Result<(), Error>)
        requires
            old(self)@.wf(),
            from matches Some(pp) ==> pp.page_id.in_range(),
        ensures
            ({
                let (used, res) = free_chain(
                    old(self)@.flash,
                    old(self)@.used,
                    ptr_view(from),
                    ptr_view(to),
                    seq_limit.0,
                );
                final(self)@ == (Store { used, ..old(self)@ }) && r == res
            }),
    {
        let mut cur: Option<PagePointer> = from;
        let ghost goal = free_chain(
            self@.flash,
            self@.used,
            ptr_view(from),
            ptr_view(to),
            seq_limit.0,
        );
        loop
            invariant
                self@.wf(),
                self@ == (Store { used: self@.used, ..old(self)@ }),
                cur matches Some(pp) ==> pp.page_id.in_range(),
                goal == free_chain(
                    self@.flash,
                    self@.used,
                    ptr_view(cur),
                    ptr_view(to),
                    seq_limit.0,
                ),
                goal == free_chain(
                    old(self)@.flash,
                    old(self)@.used,
                    ptr_view(from),
                    ptr_view(to),
                    seq_limit.0,
                ),
            decreases chain_rank(ptr_view(cur)),
        {
            let pp: PagePointer = match cur {
                None => {
                    return Ok(());
                },
                Some(pp) => pp,
            };
            if let Some(to) = to {
                if pp.page_id.raw == to.page_id.raw {
                    return Ok(());
                }
            }
            self.alloc.free(pp.page_id);
            match pp.prev(self, seq_limit) {
                Err(e) => {
                    return Err(e);
                },
                Ok(p) => {
                    cur = p;
                },
            }
        }
    }

    /// The meta page: the first page with the highest sequence number.
    fn find_meta(&mut self) -> (r: Option<(PageID, SeqNum)>)
        requires
            old(self)@.wf(),
        ensures
            final(self)@ == old(self)@,
            match find_meta(old(self)@.flash, PAGE_COUNT as int) {
                (Some(page), seq) => r == Some((PageID { raw: page }, SeqNum(seq))) && page
                    < PAGE_COUNT && meta_header(old(self)@.flash[page as int]) is Some,
                (None, _) => r is None,
            },
    {
        let mut meta_page_id: Option<PageID> = None;
        let mut meta_seq: SeqNum = SeqNum(0);
        let mut i: usize = 0;
        while i < PAGE_COUNT
            invariant
                i <= PAGE_COUNT,
                self@ == old(self)@,
                self@.wf(),
                find_meta(self@.flash, i as int) == (
                    (match meta_page_id {
                        Some(p) => Some(p.raw),
                        None => None,
                    }),
                    meta_seq.0,
                ),
                meta_page_id matches Some(p) ==> p.in_range() && meta_header(
                    self@.flash[p.raw as int],
                ) is Some,
            decreases PAGE_COUNT - i,
        {
            let page_id = PageID { raw: i as u16 };
            proof {
                reveal(meta_header);
            }
            let h: Result<MetaHeader, Error> = self.read_header(page_id);
            if let Ok(h) = h {
                if h.seq.0 > meta_seq.0 {
                    meta_page_id = Some(page_id);
                    meta_seq = h.seq;
                }
            }
            i += 1;
        }
        match meta_page_id {
            Some(page_id) => Some((page_id, meta_seq)),
            None => None,
        }
    }

    /// Reads the entries of a meta page.
    fn read_meta(&mut self, page_id: PageID) -> (r: Result<[FileInfo; FILE_COUNT], Error>)
        requires
            old(self)@.wf(),
            page_id.in_range(),
            meta_header(old(self)@.flash[page_id.raw as int]) is Some,
        ensures
            final(self)@ == old(self)@,
            ({
                let b = meta_payload(old(self)@.flash[page_id.raw as int]);
                let infos = match b {
                    Some(b) => parse_meta(b),
                    None => None,
                };
                match r {
                    Ok(x) => infos == Some(x@),
                    Err(e) => infos is None && e == Error::Corrupted,
                }
            }),
    {
        proof {
            reveal(meta_header);
            reveal(meta_payload);
        }
        let ghost p = self@.flash[page_id.raw as int];
        let page: Result<(MetaHeader, PageReader), Error> = self.read_page(page_id);
        let mut r: PageReader = match page {
            Ok(x) => x.1,
            Err(e) => {
                return Err(Error::Corrupted);
            },
        };
        let mut files: [FileInfo; FILE_COUNT] = [FileInfo { last: NO_PAGE, first: 0 }; FILE_COUNT];
        assert(files@ =~= no_infos());
        let ghost b = r.payload(self@.flash)->0;
        let ghost total = (b.len() / (FILE_META_SIZE as nat)) as int;
        let ghost mut k: int = 0;
        proof {
            lemma_payload_len(p, payload_start::<MetaHeader>());
        }
        loop
            invariant
                self@ == old(self)@,
                self@.wf(),
                r.wf(),
                r.payload(self@.flash) == Some(b),
                meta_payload(self@.flash[page_id.raw as int]) == Some(b),
                b.len() <= PAGE_SIZE,
                r.pos == k * FILE_META_SIZE,
                0 <= k <= total,
                total == b.len() / (FILE_META_SIZE as nat),
                parse_entries(b, k) == Some(files@),
            decreases total - k,
        {
            let mut buf: [u8; 8] = [0u8; 8];
            let ghost before = self@;
            let n: usize = match r.read(&mut self.flash, &mut buf, 0) {
                Ok(n) => n,
                Err(e) => {
                    return Err(Error::Corrupted);
                },
            };
            assert(self@ =~= before);
            if n == 0 {
                return Ok(files);
            }
            if n != FILE_META_SIZE {
                return Err(Error::Corrupted);
            }
            let meta: FileMeta = FileMeta::from_bytes(buf.as_slice());
            assert(meta == decode_meta(b, k * FILE_META_SIZE)) by {
                let off = k * FILE_META_SIZE;
                assert(buf@ =~= b.subrange(off, off + 8));
                assert(forall|i: int| 0 <= i < 8 ==> #[trigger] buf@[i] == b[off + i]);
            }
            let ghost next = apply_entry(files@, meta);
            proof {
                if next is None {
                    assert(parse_entries(b, k + 1) is None);
                    lemma_parse_entries_none(b, k + 1, total);
                }
            }
            if meta.file_id as usize >= FILE_COUNT {
                return Err(Error::Corrupted);
            }
            match meta.last_page_id.into_option() {
                Some(page_id) => {
                    if page_id.index() >= PAGE_COUNT {
                        return Err(Error::Corrupted);
                    }
                },
                None => {
                    if meta.first_seq.0 != 0 {
                        return Err(Error::Corrupted);
                    }
                },
            }
            files[meta.file_id as usize] = FileInfo {
                last: meta.last_page_id.raw,
                first: meta.first_seq.0,
            };
            proof {
                k = k + 1;
            }
        }
    }

    /// Marks the pages of a file as used. Fails if a page is used by two files.
    fn mark_file(&mut self, last: PagePointer, first_seq: SeqNum) -> (r: Result<(), Error>)
        requires
            old(self)@.wf(),
            last.page_id.in_range(),
        ensures
            ({
                let (used, res) = mark_chain(
                    old(self)@.flash,
                    old(self)@.used,
                    last@,
                    first_seq.0,
                );
                final(self)@ == (Store { used, ..old(self)@ }) && r == res
            }),
    {
        let ghost goal = mark_chain(self@.flash, self@.used, last@, first_seq.0);
        let mut pp: PagePointer = last;
        loop
            invariant
                self@.wf(),
                self@ == (Store { used: self@.used, ..old(self)@ }),
                pp.page_id.in_range(),
                goal == mark_chain(self@.flash, self@.used, pp@, first_seq.0),
                goal == mark_chain(old(self)@.flash, old(self)@.used, last@, first_seq.0),
            decreases pp.header.seq.0,
        {
            if self.alloc.is_used(pp.page_id) {
                return Err(Error::Corrupted);
            }
            self.alloc.mark_used(pp.page_id);
            match pp.prev(self, first_seq) {
                Err(e) => {
                    return Err(e);
                },
                Ok(None) => {
                    return Ok(());
                },
                Ok(Some(p)) => {
                    pp = p;
                },
            }
        }
    }

    /// Brings one file into the tables.
    fn mount_file(&mut self, file_id: FileID, fi: FileInfo) -> (r: Result<(), Error>)
        requires
            old(self)@.wf(),
            file_id < FILE_COUNT,
            fi.last == NO_PAGE || fi.last < PAGE_COUNT,
        ensures
            (final(self)@, r) == mount_file(old(self)@, file_id as int, fi),
            final(self)@.wf(),
    {
        let last_page_id: PageID = match PageID::from_raw(fi.last) {
            Some(p) => p,
            None => {
                return Ok(());
            },
        };
        let ghost p = self@.flash[fi.last as int];
        let (h, mut r): (DataHeader, PageReader) = match self.read_data_page(last_page_id) {
            Ok(x) => x,
            Err(e) => {
                return Err(Error::Corrupted);
            },
        };
        proof {
            lemma_data_payload_len(p);
        }
        let page_len: usize = match r.skip(&mut self.flash, PAGE_SIZE) {
            Ok(n) => n,
            Err(e) => {
                return Err(Error::Corrupted);
            },
        };
        assert(self@ =~= old(self)@);
        let last_seq: SeqNum = match h.seq.add(page_len) {
            Ok(s) => s,
            Err(e) => {
                return Err(Error::Corrupted);
            },
        };
        // note: first_seq == last_seq is corruption too, because in that case what we do is
        // delete the file.
        if fi.first >= last_seq.0 {
            return Err(Error::Corrupted);
        }
        let pp = PagePointer { page_id: last_page_id, header: h };
        self.files[file_id as usize] = FileState {
            last_page: Some(pp),
            first_seq: SeqNum(fi.first),
            last_seq,
        };
        let ghost f = FileModel { last: Some(pp@), first: fi.first, end: last_seq.0 };
        assert(self@.files =~= old(self)@.files.update(file_id as int, f));
        self.mark_file(pp, SeqNum(fi.first))
    }

    /// Reads the state of the files from the flash device.
    pub fn mount(&mut self) -> (r: Result<(), Error>)
        requires
            old(self)@.wf(),
        ensures
            (final(self)@, r) == mount(old(self)@),
            final(self)@.wf(),
            forall|st: Store| #[trigger]
                sound(st) && durable(st) && mounts(st, old(self)@) ==> r == Ok::<(), Error>(())
                    && final(self)@ == (Store { used: final(self)@.used, ..st }) && sound(
                    final(self)@,
                ) && tight(final(self)@),
    {
        proof {
            assert forall|st: Store| #[trigger]
                sound(st) && durable(st) && mounts(st, self@) implies {
                let (st1, r) = mount(self@);
                &&& r == Ok::<(), Error>(())
                &&& st1 == Store { used: st1.used, ..st }
                &&& sound(st1)
                &&& tight(st1)
            } by {
                law_mount(st, self@);
            }
        }
        let ghost start = self@;
        let ghost goal = mount(self@);
        assert(forall|st: Store| #[trigger]
            sound(st) && durable(st) && mounts(st, start) ==> goal.1 == Ok::<(), Error>(())
                && goal.0 == (Store { used: goal.0.used, ..st }) && sound(goal.0) && tight(goal.0));
        self.alloc.reset();
        assert(self@ =~= (Store { used: all_free(), ..old(self)@ }));
        let (meta_page_id, meta_seq): (PageID, SeqNum) = match self.find_meta() {
            Some(x) => x,
            None => {
                return Err(Error::Corrupted);
            },
        };
        self.meta_page_id = meta_page_id;
        self.meta_seq = meta_seq;
        self.alloc.mark_used(meta_page_id);
        let ghost st1 = Store {
            meta_page: meta_page_id.raw,
            meta_seq: meta_seq.0,
            used: all_free().update(meta_page_id.raw as int, true),
            ..old(self)@
        };
        assert(self@ =~= st1);
        let files: [FileInfo; FILE_COUNT] = match self.read_meta(meta_page_id) {
            Ok(files) => files,
            Err(e) => {
                return Err(e);
            },
        };
        let ghost infos = files@;
        let mut file_id: FileID = 0;
        proof {
            lemma_parse_meta_range(meta_payload(st1.flash[st1.meta_page as int])->0);
        }
        while (file_id as usize) < FILE_COUNT
            invariant
                file_id <= FILE_COUNT,
                infos == files@,
                self@.wf(),
                (self@, Ok::<(), Error>(())) == mount_files(st1, infos, file_id as int),
                mount(old(self)@) == mount_files(st1, infos, FILE_COUNT as int),
                start == old(self)@,
                goal == mount(start),
                forall|st: Store| #[trigger]
                    sound(st) && durable(st) && mounts(st, start) ==> goal.1 == Ok::<(), Error>(())
                        && goal.0 == (Store { used: goal.0.used, ..st }) && sound(goal.0) && tight(
                        goal.0,
                    ),
                forall|i: int|
                    0 <= i < FILE_COUNT ==> (#[trigger] infos[i]).last == NO_PAGE || infos[i].last
                        < PAGE_COUNT,
            decreases FILE_COUNT - file_id,
        {
            let fi: FileInfo = files[file_id as usize];
            let r: Result<(), Error> = self.mount_file(file_id, fi);
            assert((self@, r) == mount_files(st1, infos, file_id + 1));
            match r {
                Ok(u) => {
                    assert(u == ());
                },
                Err(e) => {
                    proof {
                        lemma_mount_files_err(st1, infos, file_id + 1, FILE_COUNT as int);
                    }
                    return Err(e);
                },
            }
            file_id += 1;
        }
        Ok(())
    }

    /// A reader at the start of a file.
    pub fn read(&mut self, file_id: FileID) -> (r: FileReader)
        requires
            file_id < FILE_COUNT,
        ensures
            *final(self) == *old(self),
            r.wf(),
            r.file_id == file_id,
            r@ == ReaderModel::Created,
            reader_at(old(self)@.flash, old(self)@.files[file_id as int], r@, 0),
    {
        proof {
            reveal(reader_at);
        }
        FileReader::new(file_id)
    }

    /// A writer that appends to a file.
    pub fn write(&mut self, file_id: FileID) -> (r: FileWriter)
        requires
            file_id < FILE_COUNT,
            old(self)@.wf(),
        ensures
            *final(self) == *old(self),
            r.wf() <==> last_before_end(old(self)@.files[file_id as int]),
            r@ == new_writer(old(self)@, file_id),
            r@.bounds_ok(),
            sound(old(self)@) ==> r.wf() && writer_ok(old(self)@, r@) && writer_open(
                old(self)@,
                r@,
            ) && written(old(self)@, r@) == Seq::<u8>::empty(),
    {
        FileWriter::new(self, file_id)
    }

    /// Adds the entry of a file to a meta page.
    fn write_file_meta(&mut self, w: &mut PageWriter, file_id: FileID) -> (r: Result<
        (),
        WriteError,
    >)
        requires
            file_id < FILE_COUNT,
            old(w).wf(),
        ensures
            *final(self) == *old(self),
            final(w).wf(),
            r == (if old(w).room() >= FILE_META_SIZE {
                Ok::<(), WriteError>(())
            } else {
                Err(WriteError::Full)
            }),
            *final(w) == (PageWriter { buf: final(w).buf, ..*old(w) }),
            r is Ok ==> final(w).buf@ == old(w).buf@ + encode_meta(
                file_entry(old(self)@.files, file_id),
            ),
    {
        let f: FileState = self.files[file_id as usize];
        assert(self@.files[file_id as int] == f@);
        let meta = FileMeta {
            file_id,
            last_page_id: match f.last_page {
                Some(pp) => OptionPageID::some(pp.page_id),
                None => OptionPageID::none(),
            },
            first_seq: f.first_seq,
        };
        let b: Vec<u8> = meta.to_bytes();
        let n: usize = w.write(b.as_slice());
        if n != FILE_META_SIZE {
            return Err(WriteError::Full);
        }
        assert(b@.subrange(0, n as int) =~= b@);
        Ok(())
    }

    /// Drops the first bytes of a file, and frees the pages that hold nothing else.
    fn truncate(&mut self, file_id: FileID, trunc_len: usize) -> (r: Result<(), Error>)
        requires
            file_id < FILE_COUNT,
            old(self)@.wf(),
            ordered(old(self)@.files[file_id as int]),
        ensures
            (final(self)@, r) == truncate_one(old(self)@, file_id as int, trunc_len as int),
            final(self)@.wf(),
    {
        let f: FileState = self.files[file_id as usize];
        assert(self@.files[file_id as int] == f@);
        let len: usize = f.last_seq.sub(f.first_seq);
        let seq = SeqNum(
            f.first_seq.0 + (if len <= trunc_len {
                len as u32
            } else {
                trunc_len as u32
            }),
        );
        assert(seq.0 == truncate_point(f@, trunc_len as int));
        let p: Option<PagePointer> = if seq.0 == f.last_seq.0 {
            f.last_page
        } else {
            match self.get_file_page(file_id, seq) {
                Err(e) => {
                    return Err(e);
                },
                Ok(None) => None,
                Ok(Some(pp)) => match pp.prev(self, f.first_seq) {
                    Err(e) => {
                        return Err(e);
                    },
                    Ok(p) => p,
                },
            }
        };
        match self.free_between(p, None, f.first_seq) {
            Err(e) => {
                return Err(e);
            },
            Ok(u) => {
                assert(u == ());
            },
        }
        let f2 = if seq.0 == f.last_seq.0 {
            FileState { last_page: None, first_seq: SeqNum(0), last_seq: SeqNum(0) }
        } else {
            FileState { last_page: f.last_page, first_seq: seq, last_seq: f.last_seq }
        };
        self.files[file_id as usize] = f2;
        assert(self@ =~= truncate_one(old(self)@, file_id as int, trunc_len as int).0);
        Ok(())
    }

    /// Carries out a list of truncations, and lists their files.
    fn truncate_all(&mut self, truncate: &[(FileID, usize)], fids: &mut Vec<FileID>) -> (r: Result<
        (),
        Error,
    >)
        requires
            old(self)@.wf(),
            forall|k: int|
                0 <= k < truncate@.len() ==> #[trigger] truncation_ready(old(self)@, truncate@, k),
        ensures
            (final(self)@, r) == truncate_some(old(self)@, truncate@, truncate@.len() as int),
            final(self)@.wf(),
            r is Ok ==> final(fids)@ == old(fids)@ + truncate@.map_values(
                |t: (FileID, usize)| t.0,
            ),
            r is Ok ==> forall|k: int|
                0 <= k < truncate@.len() ==> (#[trigger] truncate@[k]).0 < FILE_COUNT,
    {
        let ghost st1 = self@;
        let mut i: usize = 0;
        while i < truncate.len()
            invariant
                i <= truncate@.len(),
                self@.wf(),
                forall|k: int| 0 <= k < i ==> (#[trigger] truncate@[k]).0 < FILE_COUNT,
                forall|k: int|
                    0 <= k < truncate@.len() ==> #[trigger] truncation_ready(st1, truncate@, k),
                st1 == old(self)@,
                (self@, Ok::<(), Error>(())) == truncate_some(st1, truncate@, i as int),
                fids@ =~= old(fids)@ + truncate@.subrange(0, i as int).map_values(
                    |t: (FileID, usize)| t.0,
                ),
            decreases truncate@.len() - i,
        {
            let (file_id, trunc_len) = truncate[i];
            assert(truncation_ready(st1, truncate@, i as int));
            fids.push(file_id);
            let r: Result<(), Error> = self.truncate(file_id, trunc_len);
            assert((self@, r) == truncate_some(st1, truncate@, i + 1));
            match r {
                Ok(u) => {
                    assert(u == ());
                },
                Err(e) => {
                    proof {
                        lemma_truncate_some_err(st1, truncate@, i + 1, truncate@.len() as int);
                    }
                    return Err(e);
                },
            }
            i += 1;
        }
        assert(truncate@.subrange(0, truncate@.len() as int) =~= truncate@);
        Ok(())
    }

    /// Adds the entries of files to the meta page.
    fn append_meta(&mut self, fids: &Vec<FileID>) -> (r: Result<(), WriteError>)
        requires
            old(self)@.wf(),
            forall|i: int| 0 <= i < fids@.len() ==> (#[trigger] fids@[i]) < FILE_COUNT,
        ensures
            match r {
                Ok(_) => (final(self)@, Ok::<(), Error>(())) == write_meta(old(self)@, fids@)
                    && meta_fits(old(self)@, fids@.len() as int),
                Err(WriteError::Full) => final(self)@ == old(self)@ && meta_readable(old(self)@)
                    && !meta_fits(old(self)@, fids@.len() as int),
                Err(WriteError::Corrupted) => final(self)@ == old(self)@ && !meta_readable(
                    old(self)@,
                ),
            },
            final(self)@.wf(),
    {
        proof {
            reveal(meta_header);
            reveal(meta_payload);
            reveal(meta_end);
            reveal(meta_appended);
        }
        let ghost p = self@.flash[self@.meta_page as int];
        let opened: Result<(MetaHeader, PageWriter), Error> = self.pages.write_append(
            &mut self.flash,
            self.meta_page_id,
        );
        assert(self@ =~= old(self)@);
        let mut mw: PageWriter = match opened {
            Ok(x) => x.1,
            Err(e) => {
                return Err(WriteError::Corrupted);
            },
        };
        let ghost start = mw;
        let mut i: usize = 0;
        assert(fids@.subrange(0, 0) =~= Seq::<FileID>::empty());
        while i < fids.len()
            invariant
                i <= fids@.len(),
                self@ == old(self)@,
                self@.wf(),
                meta_readable(self@),
                forall|k: int| 0 <= k < fids@.len() ==> (#[trigger] fids@[k]) < FILE_COUNT,
                mw.wf(),
                mw == (PageWriter { buf: mw.buf, ..start }),
                start.offset == meta_end(self@.flash[self@.meta_page as int]),
                mw.buf@ == file_entries(self@.files, fids@.subrange(0, i as int)),
                mw.buf@.len() == i * FILE_META_SIZE,
            decreases fids@.len() - i,
        {
            let fid: FileID = fids[i];
            let ghost before = fids@.subrange(0, i as int);
            let ghost after = fids@.subrange(0, i + 1);
            assert(after.drop_last() =~= before);
            assert(after.last() == fid);
            match self.write_file_meta(&mut mw, fid) {
                Ok(u) => {},
                Err(e) => {
                    assert(!meta_fits(self@, fids@.len() as int));
                    return Err(WriteError::Full);
                },
            }
            i += 1;
        }
        assert(fids@.subrange(0, fids@.len() as int) =~= fids@);
        mw.commit(&mut self.flash);
        assert(self@ =~= write_meta(old(self)@, fids@).0);
        Ok(())
    }

    /// Writes a new meta page with the entries of all files.
    fn rewrite_meta(&mut self) -> (r: Result<(), Error>)
        requires
            old(self)@.wf(),
            has_free(old(self)@.used),
        ensures
            (final(self)@, r) == rewrite_meta(old(self)@),
            final(self)@.wf(),
    {
        let page_id = self.alloc.allocate();
        let mut w: PageWriter = self.write_page::<MetaHeader>(page_id);
        let ghost start = w;
        let ghost st = self@;
        let mut file_id: FileID = 0;
        assert(st =~= (Store {
            used: old(self)@.used.update(page_id.raw as int, true),
            ..old(self)@
        }));
        while (file_id as usize) < FILE_COUNT
            invariant
                file_id <= FILE_COUNT,
                self@ == st,
                st.wf(),
                w.wf(),
                w == (PageWriter { buf: w.buf, ..start }),
                start.offset == payload_start::<MetaHeader>(),
                w.buf@ == file_entries(st.files, nonempty_files(st.files, file_id as int)),
                w.buf@.len() <= file_id * FILE_META_SIZE,
            decreases FILE_COUNT - file_id,
        {
            // Since we're writing a new page from scratch, no need to
            // write metas for empty files.
            if self.files[file_id as usize].last_page.is_some() {
                let ghost before = nonempty_files(st.files, file_id as int);
                assert(before.push(file_id).drop_last() =~= before);
                let r: Result<(), WriteError> = self.write_file_meta(&mut w, file_id);
                assert(r is Ok);
            }
            file_id += 1;
        }
        let seq: SeqNum = match self.meta_seq.add(1) {
            Ok(s) => s,
            Err(e) => {
                return Err(e);
            },
        };
        self.meta_seq = seq;
        let ghost payload = w.buf@;
        w.write_header(&mut self.flash, MetaHeader { seq });
        w.commit(&mut self.flash);
        // free the old one.
        self.alloc.free(self.meta_page_id);
        self.meta_page_id = page_id;
        proof {
            reveal(meta_image);
        }
        assert(self@.flash =~= rewrite_meta(old(self)@).0.flash);
        assert(self@ =~= rewrite_meta(old(self)@).0);
        Ok(())
    }

    /// Commits a writer, drops the first bytes of files, and makes the outcome durable.
    pub fn commit_and_truncate(
        &mut self,
        w: Option<&mut FileWriter>,
        truncate: &[(FileID, usize)],
    ) -> (r: Result<(), Error>)
        requires
            old(self)@.wf(),
            w matches Some(x) ==> x.wf(),
            commit_ready(
                old(self)@,
                match w {
                    Some(x) => Some(x@),
                    None => None,
                },
                truncate@,
            ),
        ensures
            (
                final(self)@,
                match w {
                    Some(x) => Some(final(x)@),
                    None => None,
                },
                r,
            ) == commit_all(
                old(self)@,
                match w {
                    Some(x) => Some((*x)@),
                    None => None,
                },
                truncate@,
            ),
            final(self)@.wf(),
            w matches Some(x) ==> final(x).wf(),
            ({
                let w0 = match w {
                    Some(x) => Some((*x)@),
                    None => None,
                };
                let n = commit_list(w0, truncate@).len() as int;
                sound(old(self)@) && durable(old(self)@) && committable(old(self)@, w0) && (
                meta_fits(old(self)@, n) || old(self)@.meta_seq < u32::MAX) ==> r == Ok::<
                    (),
                    Error,
                >(()) && committed(old(self)@, w0, truncate@, final(self)@)
            }),
            ({
                let w0 = match w {
                    Some(x) => Some((*x)@),
                    None => None,
                };
                let n = commit_list(w0, truncate@).len() as int;
                sound(old(self)@) && meta_readable(old(self)@) && committable(old(self)@, w0) && (
                meta_fits(old(self)@, n) || old(self)@.meta_seq < u32::MAX) ==> r == Ok::<
                    (),
                    Error,
                >(()) && bytes_committed(old(self)@, w0, truncate@, final(self)@)
            }),
    {
        let mut fids: Vec<FileID> = Vec::new();
        let ghost mut w0: Option<WriterModel> = None;
        let ghost st0 = self@;
        match w {
            Some(w) => {
                proof {
                    w0 = Some((*w)@);
                    lemma_commit_outcome(self@, w0, truncate@);
                }
                fids.push(w.file_id);
                match w.do_commit(self) {
                    Ok(u) => {
                        assert(u == ());
                    },
                    Err(e) => {
                        return Err(e);
                    },
                }
            },
            None => {
                proof {
                    lemma_commit_outcome(self@, w0, truncate@);
                }
            },
        }
        match self.truncate_all(truncate, &mut fids) {
            Ok(u) => {
                assert(u == ());
            },
            Err(e) => {
                return Err(e);
            },
        }
        assert(fids@ =~= commit_list(w0, truncate@));
        // Try appending to the existing meta page.
        match self.append_meta(&fids) {
            Ok(_) => Ok(()),
            Err(WriteError::Corrupted) => Err(Error::Corrupted),
            // Existing meta page was full. Write a new one.
            Err(WriteError::Full) => self.rewrite_meta(),
        }
    }

    /// Commits a writer: what has been written becomes part of the file, durably.
    pub fn commit(&mut self, w: &mut FileWriter) -> (r: Result<(), Error>)
        requires
            old(self)@.wf(),
            old(w).wf(),
            commit_ready(old(self)@, Some(old(w)@), Seq::empty()),
        ensures
            (final(self)@, Some(final(w)@), r) == commit_all(
                old(self)@,
                Some(old(w)@),
                Seq::empty(),
            ),
            final(self)@.wf(),
            final(w).wf(),
            sound(old(self)@) && durable(old(self)@) && committable(old(self)@, Some(old(w)@)) && (
            meta_fits(old(self)@, 1) || old(self)@.meta_seq < u32::MAX) ==> {
                &&& r == Ok::<(), Error>(())
                &&& sound(final(self)@)
                &&& durable(final(self)@)
                &&& writer_ok(final(self)@, final(w)@)
                &&& writer_open(final(self)@, final(w)@)
                &&& written(final(self)@, final(w)@) == Seq::<u8>::empty()
                &&& forall|fid: int|
                    0 <= fid < FILE_COUNT ==> #[trigger] file_bytes(final(self)@, fid)
                        == file_bytes(old(self)@, fid) + added(old(self)@, Some(old(w)@), fid)
            },
    {
        proof {
            if sound(self@) && durable(self@) && committable(self@, Some(w@)) && (meta_fits(
                self@,
                1,
            ) || self@.meta_seq < u32::MAX) {
                law_commit_only(self@, w@);
            }
        }
        let none: [(FileID, usize); 0] = [];
        assert(none@ =~= Seq::empty());
        self.commit_and_truncate(Some(w), none.as_slice())
    }

    /// Exchanges two files. The exchange lasts until the next mount, unless a new meta page is
    /// written before.
    pub fn rename(&mut self, from: FileID, to: FileID) -> (r: Result<(), Error>)
        requires
            old(self)@.wf(),
            from < FILE_COUNT,
            to < FILE_COUNT,
        ensures
            final(self)@ == swapped(old(self)@, from as int, to as int),
            r == (if meta_readable(old(self)@) {
                Ok::<(), Error>(())
            } else {
                Err(Error::Corrupted)
            }),
            sound(old(self)@) ==> {
                &&& sound(final(self)@)
                &&& file_bytes(final(self)@, from as int) == file_bytes(old(self)@, to as int)
                &&& file_bytes(final(self)@, to as int) == file_bytes(old(self)@, from as int)
            },
    {
        proof {
            if sound(self@) {
                law_rename(self@, from as int, to as int);
            }
        }
        let a: FileState = self.files[from as usize];
        let b: FileState = self.files[to as usize];
        self.files[from as usize] = b;
        self.files[to as usize] = a;
        assert(self@ =~= swapped(old(self)@, from as int, to as int));
        let none: [(FileID, usize); 0] = [];
        self.commit_and_truncate(None, none.as_slice())
    }
}

/// Failure of adding to the meta page.
#[derive(Clone, Copy, PartialEq, Eq, Structural, Debug)]
pub enum WriteError {
    Full,
    Corrupted,
}

impl From<Error> for WriteError {
    fn from(e: Error) -> (r: WriteError) {
        match e {
            Error::Corrupted => WriteError::Corrupted,
        }
    }
}

impl vstd::std_specs::convert::FromSpecImpl<Error> for WriteError {
    open spec fn obeys_from_spec() -> bool {
        true
    }

    open spec fn from_spec(e: Error) -> WriteError {
        WriteError::Corrupted
    }
}

} // verus!
