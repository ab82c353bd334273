//! Writing to files.

use vstd::prelude::*;

use crate::allocator::{has_free, lowest_free};
use crate::commit_laws::{law_commit_writer, law_discard};
use crate::config::{FileID, FILE_COUNT, PAGE_COUNT, SKIPLIST_LEN};
use crate::durability::law_append_durable;
use crate::file::{ptr_view, FileManager, FileState, PagePointer};
use crate::flash::Flash;
use crate::headers::{
    data_image, lemma_data_round_trip, skip_model, DataHeader, DataModel, DATA_START, NO_BOUNDARY,
    PAGE_MAX_PAYLOAD_SIZE,
};
use crate::mount_laws::durable;
use crate::page::PageWriter;
use crate::seqnum::{lemma_skip_index, skip_target, skiplist_index, SeqNum};
use crate::sound::{file_bytes, sound};
use crate::store::{
    free_chain, meta_fits, meta_readable, ptr_wf, truncate_some, write_meta, FileModel, Ptr, Store,
};
use crate::types::{OptionPageID, NO_PAGE};
use crate::write_laws::{
    appended, law_append, law_new_writer, writer_has, writer_ok, writer_open, written,
};
use crate::Error;

verus! {

/// A page that is being filled.
#[verifier::ext_equal]
pub struct OpenPage {
    pub page: u16,
    pub buf: Seq<u8>,
}

/// A file writer as a mathematical value.
#[verifier::ext_equal]
pub struct WriterModel {
    pub fid: FileID,
    /// The last complete page.
    pub last: Option<Ptr>,
    /// Sequence number of the first byte that is not in a complete page.
    pub seq: u32,
    /// Offset of the first record boundary at or after `seq`.
    pub boundary: Option<usize>,
    /// Whether a record ends at the current position.
    pub at_end: bool,
    /// Every record boundary so far.
    pub bounds: Set<int>,
    /// The page that is being filled.
    pub page: Option<OpenPage>,
}

impl WriterModel {
    /// The bytes in the page that is being filled.
    pub open spec fn buffered(self) -> Seq<u8> {
        match self.page {
            Some(op) => op.buf,
            None => Seq::empty(),
        }
    }

    /// The sequence number of the next byte.
    pub open spec fn position(self) -> int {
        self.seq + self.buffered().len()
    }

    /// What the writer remembers of the record boundaries is what there is to remember.
    pub open spec fn bounds_ok(self) -> bool {
        &&& self.at_end <==> self.bounds.contains(self.position())
        &&& forall|x: int| #[trigger] self.bounds.contains(x) ==> x <= self.position()
        &&& match self.boundary {
            Some(b) => is_first_bound(self.bounds, self.seq as int, self.seq + b),
            None => forall|x: int| #[trigger] self.bounds.contains(x) ==> x < self.seq,
        }
    }

    /// The shape of a writer. A page is only opened when there is a byte to put in it.
    pub open spec fn wf(self) -> bool {
        &&& self.shape()
        &&& self.page matches Some(op) ==> op.buf.len() > 0
    }

    pub open spec fn shape(self) -> bool {
        &&& self.fid < FILE_COUNT
        &&& ptr_wf(self.last)
        &&& self.last matches Some(pp) ==> pp.header.seq < self.seq
        &&& self.page matches Some(op) ==> op.page < PAGE_COUNT && op.buf.len()
            <= PAGE_MAX_PAYLOAD_SIZE
    }

    /// Whether the next byte needs a new page.
    pub open spec fn needs_page(self) -> bool {
        match self.page {
            Some(op) => op.buf.len() >= PAGE_MAX_PAYLOAD_SIZE,
            None => true,
        }
    }

    /// The writer after bytes have been put into the page that is being filled.
    pub open spec fn filled(self, data: Seq<u8>) -> WriterModel {
        WriterModel {
            page: Some(OpenPage { page: self.page->0.page, buf: self.page->0.buf + data }),
            at_end: self.at_end && data.len() == 0,
            ..self
        }
    }
}

/// Whether `x` is the first of the record boundaries at or after `from`.
pub open spec fn is_first_bound(bounds: Set<int>, from: int, x: int) -> bool {
    &&& from <= x
    &&& bounds.contains(x)
    &&& forall|y: int| #[trigger] bounds.contains(y) && from <= y ==> x <= y
}

/// Whether the header of a page of `len` bytes has the offset of the first record boundary on the
/// page, or says that there is none.
pub open spec fn names_first_bound(h: DataModel, len: int, bounds: Set<int>) -> bool {
    if exists|x: int| #[trigger] bounds.contains(x) && h.seq <= x < h.seq + len {
        h.record_boundary < len && is_first_bound(
            bounds,
            h.seq as int,
            h.seq + h.record_boundary,
        )
    } else {
        h.record_boundary == NO_BOUNDARY
    }
}

/// The back pointers of a page that starts at `seq` and follows `last`.
pub open spec fn next_skiplist(last: Option<Ptr>, seq: u32) -> Seq<u16> {
    Seq::new(
        SKIPLIST_LEN as nat,
        |j: int|
            match last {
                None => NO_PAGE,
                Some(pp) => if skip_target(seq, j) >= pp.header.seq {
                    pp.page
                } else {
                    pp.header.skiplist[j]
                },
            },
    )
}

/// The header of the page that is being filled, once it is complete.
pub open spec fn page_header_model(w: WriterModel) -> DataModel {
    DataModel {
        seq: w.seq,
        skiplist: next_skiplist(w.last, w.seq),
        record_boundary: match w.boundary {
            Some(b) => if b < w.buffered().len() {
                b as u16
            } else {
                NO_BOUNDARY
            },
            None => NO_BOUNDARY,
        },
    }
}

/// Completes the page that is being filled and writes it to the device.
pub open spec fn flush(st: Store, w: WriterModel) -> (Store, WriterModel, Result<(), Error>) {
    let op = w.page->0;
    if w.seq + op.buf.len() > u32::MAX {
        (st, WriterModel { page: None, ..w }, Err(Error::Corrupted))
    } else {
        let header = page_header_model(w);
        (
            Store { flash: st.flash.update(op.page as int, data_image(header, op.buf)), ..st },
            WriterModel {
                last: Some(Ptr { page: op.page, header }),
                seq: (w.seq + op.buf.len()) as u32,
                boundary: if w.at_end {
                    Some(0)
                } else {
                    None
                },
                page: None,
                ..w
            },
            Ok(()),
        )
    }
}

/// Completes the page that is being filled, if there is one, and opens a new one.
pub open spec fn next_page(st: Store, w: WriterModel) -> (Store, WriterModel, Result<(), Error>) {
    let (st1, w1, r) = if w.page is Some {
        flush(st, w)
    } else {
        (st, w, Ok(()))
    };
    match r {
        Err(e) => (st1, w1, Err(e)),
        Ok(_) => {
            let page = lowest_free(st1.used);
            (
                Store { used: st1.used.update(page, true), ..st1 },
                WriterModel {
                    page: Some(OpenPage { page: page as u16, buf: Seq::empty() }),
                    ..w1
                },
                Ok(()),
            )
        },
    }
}

/// Makes sure that the page that is being filled can take a byte.
pub open spec fn make_room(st: Store, w: WriterModel) -> (Store, WriterModel, Result<(), Error>) {
    if w.needs_page() {
        next_page(st, w)
    } else {
        (st, w, Ok(()))
    }
}

/// How many of `n` bytes the page that is being filled can take.
pub open spec fn fitting(w: WriterModel, n: int) -> int {
    let room = PAGE_MAX_PAYLOAD_SIZE - w.page->0.buf.len();
    if n <= room {
        n
    } else {
        room
    }
}

/// Appends bytes, page by page.
pub open spec fn append(st: Store, w: WriterModel, data: Seq<u8>) -> (
    Store,
    WriterModel,
    Result<(), Error>,
)
    decreases data.len(),
{
    if data.len() == 0 {
        (st, w, Ok(()))
    } else {
        let (st1, w1, r) = make_room(st, w);
        let n = fitting(w1, data.len() as int);
        match r {
            Err(e) => (st1, w1, Err(e)),
            Ok(_) => if n <= 0 {
                (st1, w1, Ok(()))
            } else {
                append(
                    st1,
                    w1.filled(data.subrange(0, n)),
                    data.subrange(n, data.len() as int),
                )
            },
        }
    }
}

/// Whether there is a free page each time that appending needs one.
pub open spec fn append_has_space(st: Store, w: WriterModel, data: Seq<u8>) -> bool
    decreases data.len(),
{
    data.len() > 0 ==> {
        let (st1, w1, r) = make_room(st, w);
        let n = fitting(w1, data.len() as int);
        &&& w.needs_page() && r is Ok ==> has_free(st.used)
        &&& r is Ok && n > 0 ==> append_has_space(
            st1,
            w1.filled(data.subrange(0, n)),
            data.subrange(n, data.len() as int),
        )
    }
}

/// Completes what has been written, and makes it the end of the file.
pub open spec fn commit_writer(st: Store, w: WriterModel) -> (
    Store,
    WriterModel,
    Result<(), Error>,
) {
    if w.page is None {
        (st, w, Ok(()))
    } else {
        let (st1, w1, r) = flush(st, w);
        match r {
            Err(e) => (st1, w1, Err(e)),
            Ok(_) => (
                Store {
                    files: st1.files.update(
                        w.fid as int,
                        FileModel {
                            last: w1.last,
                            first: st1.files[w.fid as int].first,
                            end: w1.seq,
                        },
                    ),
                    ..st1
                },
                w1,
                Ok(()),
            ),
        }
    }
}

/// The tables after the pages of a writer have been given back.
pub open spec fn discarded(st: Store, w: WriterModel) -> (Seq<bool>, Result<(), Error>) {
    match w.page {
        None => (st.used, Ok(())),
        Some(op) => free_chain(
            st.flash,
            st.used.update(op.page as int, false),
            w.last,
            st.files[w.fid as int].last,
            0,
        ),
    }
}

/// Whether the last page of a file starts before its end.
pub open spec fn last_before_end(f: FileModel) -> bool {
    f.last matches Some(pp) ==> pp.header.seq < f.end
}

/// Whether the sequence numbers of a file are those of a file.
pub open spec fn ordered(f: FileModel) -> bool {
    &&& f.first <= f.end
    &&& f.last is None ==> f.first == f.end
}

/// The files whose state a commit makes durable.
pub open spec fn commit_list(w: Option<WriterModel>, truncate: Seq<(FileID, usize)>) -> Seq<
    FileID,
> {
    (match w {
        Some(x) => seq![x.fid],
        None => Seq::empty(),
    }) + truncate.map_values(|t: (FileID, usize)| t.0)
}

/// The first step of a commit: what has been written becomes part of the file.
pub open spec fn commit_first(st: Store, w: Option<WriterModel>) -> (
    Store,
    Option<WriterModel>,
    Result<(), Error>,
) {
    match w {
        Some(x) => {
            let (st1, x1, r) = commit_writer(st, x);
            (st1, Some(x1), r)
        },
        None => (st, None, Ok(())),
    }
}

/// Commits a writer, drops bytes from the front of files, and makes the outcome durable.
pub open spec fn commit_all(
    st: Store,
    w: Option<WriterModel>,
    truncate: Seq<(FileID, usize)>,
) -> (Store, Option<WriterModel>, Result<(), Error>) {
    let (st1, w1, r1) = commit_first(st, w);
    match r1 {
        Err(e) => (st1, w1, Err(e)),
        Ok(_) => {
            let (st2, r2) = truncate_some(st1, truncate, truncate.len() as int);
            match r2 {
                Err(e) => (st2, w1, Err(e)),
                Ok(_) => {
                    let (st3, r3) = write_meta(st2, commit_list(w, truncate));
                    (st3, w1, r3)
                },
            }
        },
    }
}

/// Whether truncation `i` of a list, if it is reached, names a file and finds its sequence numbers
/// in order.
pub open spec fn truncation_ready(st: Store, list: Seq<(FileID, usize)>, i: int) -> bool {
    let (st1, r) = truncate_some(st, list, i);
    r is Ok ==> list[i].0 < FILE_COUNT && ordered(st1.files[list[i].0 as int])
}

/// Whether a commit can carry out the truncations that it reaches, and finds a free page if it
/// needs one.
pub open spec fn commit_ready(
    st: Store,
    w: Option<WriterModel>,
    truncate: Seq<(FileID, usize)>,
) -> bool {
    let (st1, w1, r1) = commit_first(st, w);
    let (st2, r2) = truncate_some(st1, truncate, truncate.len() as int);
    &&& r1 is Ok ==> forall|i: int|
        0 <= i < truncate.len() ==> #[trigger] truncation_ready(st1, truncate, i)
    &&& r1 is Ok && r2 is Ok && meta_readable(st2) && !meta_fits(
        st2,
        commit_list(w, truncate).len() as int,
    ) ==> has_free(st2.used)
}

/// Appends bytes to a file. They become part of the file when the writer is committed.
pub struct FileWriter {
    pub file_id: FileID,
    pub last_page: Option<PagePointer>,
    pub seq: SeqNum,
    pub record_boundary: Option<usize>,
    pub at_record_end: bool,
    pub writer: Option<PageWriter>,
    pub boundaries: Ghost<Set<int>>,
}

impl View for FileWriter {
    type V = WriterModel;

    open spec fn view(&self) -> WriterModel {
        WriterModel {
            fid: self.file_id,
            last: ptr_view(self.last_page),
            seq: self.seq.0,
            boundary: self.record_boundary,
            at_end: self.at_record_end,
            bounds: self.boundaries@,
            page: match self.writer {
                Some(w) => Some(OpenPage { page: w.page_id.raw, buf: w.buf@ }),
                None => None,
            },
        }
    }
}

/// Whether a page writer has been opened for a data page and nothing has been committed yet.
pub open spec fn data_writer(w: PageWriter) -> bool {
    &&& w.wf()
    &&& w.needs_erase
    &&& w.offset == DATA_START
    &&& w.committed == 0
}

impl FileWriter {
    /// The shape of a writer.
    pub open spec fn wf(self) -> bool {
        &&& self@.wf()
        &&& self.writer matches Some(w) ==> data_writer(w)
    }

    pub open spec fn shape(self) -> bool {
        &&& self@.shape()
        &&& self.writer matches Some(w) ==> data_writer(w)
    }

    /// A writer that appends to a file.
    pub fn new<F: Flash>(m: &mut FileManager<F>, file_id: FileID) -> (r: FileWriter)
        requires
            file_id < FILE_COUNT,
            old(m)@.wf(),
        ensures
            *final(m) == *old(m),
            r.wf() <==> last_before_end(old(m)@.files[file_id as int]),
            r@ == new_writer(old(m)@, file_id),
            r@.bounds_ok(),
            sound(old(m)@) ==> r.wf() && writer_ok(old(m)@, r@) && writer_open(old(m)@, r@)
                && written(old(m)@, r@) == Seq::<u8>::empty(),
    {
        proof {
            if sound(m@) {
                law_new_writer(m@, file_id);
            }
        }
        let f: FileState = m.files[file_id as usize];
        assert(m@.files[file_id as int] == f@);
        let r = FileWriter {
            file_id,
            last_page: f.last_page,
            seq: f.last_seq,
            record_boundary: Some(0),
            at_record_end: true,
            writer: None,
            boundaries: Ghost(Set::<int>::empty().insert(f.last_seq.0 as int)),
        };
        assert(r@ =~= new_writer(m@, file_id));
        r
    }

    /// Completes a page and writes it to the device.
    fn flush_header<F: Flash>(&mut self, m: &mut FileManager<F>, w: PageWriter) -> (r: Result<
        (),
        Error,
    >)
        requires
            old(m)@.wf(),
            old(self).writer is None,
            data_writer(w),
            ({
                let whole = WriterModel {
                    page: Some(OpenPage { page: w.page_id.raw, buf: w.buf@ }),
                    ..old(self)@
                };
                whole.wf()
            }),
        ensures
            ({
                let whole = WriterModel {
                    page: Some(OpenPage { page: w.page_id.raw, buf: w.buf@ }),
                    ..old(self)@
                };
                &&& (final(m)@, final(self)@, r) == flush(old(m)@, whole)
                &&& whole.bounds_ok() && r is Ok ==> {
                    &&& final(self)@.bounds_ok()
                    &&& final(self)@.last is Some
                    &&& names_first_bound(
                        final(self)@.last->0.header,
                        final(self)@.seq - whole.seq,
                        whole.bounds,
                    )
                }
            }),
            final(m)@.wf(),
            final(self).wf(),
            final(self).writer is None,
    {
        let ghost whole = WriterModel {
            page: Some(OpenPage { page: w.page_id.raw, buf: w.buf@ }),
            ..self@
        };
        let mut w: PageWriter = w;
        let page_size: usize = w.len();
        let page_id = w.page_id();
        let mut skiplist: [OptionPageID; SKIPLIST_LEN] = [OptionPageID::none(); SKIPLIST_LEN];
        if let Some(last_page) = self.last_page {
            skiplist = last_page.header.skiplist;
            let top: usize = skiplist_index(last_page.header.seq, self.seq);
            proof {
                lemma_skip_index(last_page.header.seq.0, self.seq.0);
            }
            let mut j: usize = 0;
            while j <= top
                invariant
                    j <= top + 1,
                    top < SKIPLIST_LEN,
                    forall|k: int|
                        0 <= k < SKIPLIST_LEN ==> (#[trigger] skiplist@[k]).raw == (if k < j {
                            last_page.page_id.raw
                        } else {
                            last_page.header.skiplist@[k].raw
                        }),
                decreases top + 1 - j,
            {
                skiplist[j] = OptionPageID::some(last_page.page_id);
                j += 1;
            }
            assert(skip_model(skiplist) =~= next_skiplist(self@.last, self@.seq));
        } else {
            assert(skip_model(skiplist) =~= next_skiplist(self@.last, self@.seq));
        }
        let next_seq: SeqNum = match self.seq.add(page_size) {
            Ok(s) => s,
            Err(e) => {
                assert(self@ =~= (WriterModel { page: None, ..whole }));
                return Err(e);
            },
        };
        let record_boundary: u16 = match self.record_boundary {
            Some(b) => if b < page_size {
                b as u16
            } else {
                NO_BOUNDARY
            },
            None => NO_BOUNDARY,
        };
        let header = DataHeader { seq: self.seq, skiplist, record_boundary };
        assert(header@ == page_header_model(whole));
        w.write_header(&mut m.flash, header);
        w.commit(&mut m.flash);
        proof {
            reveal(data_image);
            lemma_data_round_trip(header@);
            assert(m@.flash =~= old(m)@.flash.update(
                page_id.raw as int,
                data_image(header@, whole.page->0.buf),
            ));
        }
        assert(m@ =~= flush(old(m)@, whole).0);
        // The first boundary of the next page is its start, if a record ends here.
        self.record_boundary = if self.at_record_end {
            Some(0)
        } else {
            None
        };
        self.seq = next_seq;
        self.last_page = Some(PagePointer { page_id, header });
        assert(self@ =~= flush(old(m)@, whole).1);
        proof {
            if whole.bounds_ok() {
                law_record_boundary(old(m)@, whole);
            }
        }
        Ok(())
    }

    /// Completes the page that is being filled, if there is one, and opens a new one.
    fn next_page<F: Flash>(&mut self, m: &mut FileManager<F>) -> (r: Result<(), Error>)
        requires
            old(m)@.wf(),
            old(self).wf(),
            next_page(old(m)@, old(self)@).2 is Ok ==> has_free(old(m)@.used),
        ensures
            (final(m)@, final(self)@, r) == next_page(old(m)@, old(self)@),
            final(m)@.wf(),
            r is Ok ==> final(self).shape(),
            r is Err ==> final(self).wf(),
    {
        let old_writer: Option<PageWriter> = self.writer.take();
        if let Some(w) = old_writer {
            assert((WriterModel {
                page: Some(OpenPage { page: w.page_id.raw, buf: w.buf@ }),
                ..self@
            }) =~= old(self)@);
            match self.flush_header(m, w) {
                Ok(u) => {
                    assert(u == ());
                },
                Err(e) => {
                    return Err(e);
                },
            }
        }
        let ghost w1 = self@;
        let ghost st1 = m@;
        let page_id = m.alloc.allocate();
        self.writer = Some(m.write_page::<DataHeader>(page_id));
        assert(m@ =~= next_page(old(m)@, old(self)@).0);
        assert(self@ =~= next_page(old(m)@, old(self)@).1);
        Ok(())
    }

    /// Appends bytes to the file.
    pub fn write<F: Flash>(&mut self, m: &mut FileManager<F>, data: &[u8]) -> (r: Result<
        (),
        Error,
    >)
        requires
            old(m)@.wf(),
            old(self).wf(),
            append_has_space(old(m)@, old(self)@, data@),
        ensures
            (final(m)@, final(self)@, r) == append(old(m)@, old(self)@, data@),
            final(m)@.wf(),
            final(self).wf(),
            r is Ok && old(self)@.bounds_ok() ==> final(self)@.bounds_ok(),
            sound(old(m)@) && writer_ok(old(m)@, old(self)@) ==> {
                &&& old(self)@.position() + data@.len() <= u32::MAX ==> r == Ok::<(), Error>(())
                &&& r is Ok ==> appended(old(m)@, old(self)@, data@, final(m)@, final(self)@)
                &&& r is Ok && durable(old(m)@) ==> durable(final(m)@)
            },
    {
        let mut rest: &[u8] = data;
        let ghost goal = append(m@, self@, data@);
        let ghost good = sound(m@) && writer_ok(m@, self@) && (self@.position() + data@.len()
            <= u32::MAX || goal.2 is Ok);
        proof {
            if good {
                law_append(m@, self@, data@);
                if durable(m@) {
                    law_append_durable(m@, self@, data@);
                }
            }
        }
        while rest.len() > 0
            invariant
                m@.wf(),
                self.wf(),
                append_has_space(m@, self@, rest@),
                goal == append(m@, self@, rest@),
                goal == append(old(m)@, old(self)@, data@),
                good == (sound(old(m)@) && writer_ok(old(m)@, old(self)@) && (
                old(self)@.position() + data@.len() <= u32::MAX || goal.2 is Ok)),
                good ==> {
                    &&& goal.2 == Ok::<(), Error>(())
                    &&& appended(old(m)@, old(self)@, data@, goal.0, goal.1)
                    &&& durable(old(m)@) ==> durable(goal.0)
                },
                old(self)@.bounds_ok() ==> self@.bounds_ok(),
            decreases rest@.len(),
        {
            let ghost before = self@;
            let full: bool = match &self.writer {
                None => true,
                Some(w) => w.buf.len() >= PAGE_MAX_PAYLOAD_SIZE,
            };
            if full {
                match self.next_page(m) {
                    Ok(u) => {
                        assert(u == ());
                    },
                    Err(e) => {
                        return Err(e);
                    },
                }
            }
            let ghost w1 = self@;
            let ghost n1 = fitting(w1, rest@.len() as int);
            match &mut self.writer {
                None => {},
                Some(w) => {
                    let n: usize = w.write(rest);
                    self.at_record_end = false;
                    assert(n == n1);
                    assert(n > 0);
                    rest = &rest[n..rest.len()];
                },
            }
        }
        Ok(())
    }

    /// Completes what has been written, and makes it the end of the file.
    pub fn do_commit<F: Flash>(&mut self, m: &mut FileManager<F>) -> (r: Result<(), Error>)
        requires
            old(m)@.wf(),
            old(self).wf(),
        ensures
            (final(m)@, final(self)@, r) == commit_writer(old(m)@, old(self)@),
            final(m)@.wf(),
            final(self).wf(),
            sound(old(m)@) && writer_ok(old(m)@, old(self)@) && writer_open(old(m)@, old(self)@)
                && old(self)@.position() <= u32::MAX ==> r == Ok::<(), Error>(()) && sound(
                final(m)@,
            ) && file_bytes(final(m)@, old(self)@.fid as int) == file_bytes(
                old(m)@,
                old(self)@.fid as int,
            ) + written(old(m)@, old(self)@),
    {
        proof {
            if sound(m@) && writer_ok(m@, self@) && writer_open(m@, self@) && self@.position()
                <= u32::MAX {
                law_commit_writer(m@, self@);
            }
        }
        let old_writer: Option<PageWriter> = self.writer.take();
        if let Some(w) = old_writer {
            assert((WriterModel {
                page: Some(OpenPage { page: w.page_id.raw, buf: w.buf@ }),
                ..self@
            }) =~= old(self)@);
            match self.flush_header(m, w) {
                Ok(u) => {
                    assert(u == ());
                },
                Err(e) => {
                    return Err(e);
                },
            }
            let ghost st1 = m@;
            let fid: usize = self.file_id as usize;
            let first_seq: SeqNum = m.files[fid].first_seq;
            m.files[fid] = FileState { last_page: self.last_page, first_seq, last_seq: self.seq };
            assert(m@ =~= commit_writer(old(m)@, old(self)@).0);
        } else {
            assert(self@ =~= old(self)@);
        }
        Ok(())
    }

    /// Gives back the pages that have been written since the last commit.
    pub fn discard<F: Flash>(&mut self, m: &mut FileManager<F>)
        requires
            old(m)@.wf(),
            old(self).wf(),
            discarded(old(m)@, old(self)@).1 is Ok,
        ensures
            *final(self) == *old(self),
            final(m)@ == (Store { used: discarded(old(m)@, old(self)@).0, ..old(m)@ }),
            sound(old(m)@) && writer_ok(old(m)@, old(self)@) && writer_open(old(m)@, old(self)@)
                ==> sound(final(m)@) && forall|p: int|
                0 <= p < PAGE_COUNT ==> (#[trigger] final(m)@.used[p] <==> old(m)@.used[p]
                    && !writer_has(old(m)@, old(self)@, p)),
    {
        proof {
            if sound(m@) && writer_ok(m@, self@) && writer_open(m@, self@) {
                law_discard(m@, self@);
            }
        }
        if let Some(w) = &self.writer {
            // Free the page we're writing now (not yet committed)
            let page_id = w.page_id();
            m.alloc.free(page_id);
            assert(m@ =~= (Store {
                used: old(m)@.used.update(page_id.raw as int, false),
                ..old(m)@
            }));
            // Free previous pages, if any
            let f: FileState = m.files[self.file_id as usize];
            assert(m@.files[self.file_id as int] == f@);
            let r: Result<(), Error> = m.free_between(self.last_page, f.last_page, SeqNum(0));
            assert(r is Ok);
        } else {
            assert(m@ =~= (Store { used: discarded(old(m)@, old(self)@).0, ..old(m)@ }));
        }
    }

    /// Marks the current position as the end of a record.
    pub fn record_end(&mut self)
        requires
            old(self).wf(),
            old(self).record_boundary is None ==> old(self).writer is Some,
        ensures
            final(self)@ == record_ended(old(self)@),
            final(self).wf(),
            old(self)@.bounds_ok() ==> final(self)@.bounds_ok(),
    {
        let len: usize = match &self.writer {
            Some(w) => w.len(),
            None => 0,
        };
        if self.record_boundary.is_none() {
            self.record_boundary = Some(len);
        }
        self.at_record_end = true;
        self.boundaries = Ghost(old(self)@.bounds.insert(old(self)@.position()));
        assert(self@ =~= record_ended(old(self)@));
    }
}

/// A writer after the current position has been marked as the end of a record.
pub open spec fn record_ended(w: WriterModel) -> WriterModel {
    WriterModel {
        boundary: match w.boundary {
            Some(b) => Some(b),
            None => Some(w.buffered().len() as usize),
        },
        at_end: true,
        bounds: w.bounds.insert(w.position()),
        ..w
    }
}

/// The writer that `FileManager::write` hands out.
pub open spec fn new_writer(st: Store, fid: FileID) -> WriterModel {
    let f = st.files[fid as int];
    WriterModel {
        fid,
        last: f.last,
        seq: f.end,
        boundary: Some(0),
        at_end: true,
        bounds: Set::<int>::empty().insert(f.end as int),
        page: None,
    }
}

/// The header of a completed page holds the offset of the first record boundary within the page,
/// and the writer goes on to remember the boundaries of what follows.
pub proof fn law_record_boundary(st: Store, w: WriterModel)
    requires
        w.wf(),
        w.bounds_ok(),
        w.page is Some,
        flush(st, w).2 is Ok,
    ensures
        ({
            let w1 = flush(st, w).1;
            &&& w1.bounds == w.bounds
            &&& w1.bounds_ok()
            &&& names_first_bound(w1.last->0.header, w1.seq - w.seq, w.bounds)
        }),
{
}

} // verus!
