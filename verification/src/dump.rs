//! A listing of the pages of files, for diagnosis.

use vstd::prelude::*;

use crate::chain::{
    chain, contents, file_ok, file_run, lemma_chain_of_run, lemma_contents_len, lemma_run_last,
    lemma_run_page, lemma_run_start, page_end, run_bytes,
};
use crate::config::{FileID, FILE_COUNT, PAGE_COUNT, PAGE_SIZE, SKIPLIST_LEN};
use crate::file::{ptr_view, FileManager, FileState, PagePointer};
use crate::flash::Flash;
use crate::headers::{
    data_header, data_payload, lemma_data_payload_len, skip_model, DataHeader, NO_BOUNDARY,
};
use crate::page::PageReader;
use crate::seqnum::SeqNum;
use crate::store::{chain_rank, FileModel, Ptr, Store};
use crate::types::{OptionPageID, PageID};
use crate::walks::{ends_at, law_walk, linked};

verus! {

/// How many bytes a row of a listing has.
pub const ROW_SIZE: usize = 32;

/// Some bytes of a page, and the sequence number of the first one.
pub struct RowDump {
    pub seq: SeqNum,
    pub bytes: Vec<u8>,
}

/// A page of a file.
pub struct PageDump {
    pub page_id: PageID,
    pub seq: SeqNum,
    pub end: SeqNum,
    /// The first record boundary: its offset and its sequence number.
    pub record_boundary: Option<(u16, SeqNum)>,
    pub skiplist: [OptionPageID; SKIPLIST_LEN],
    pub rows: Vec<RowDump>,
}

/// A file: its sequence numbers, its length, and its pages from front to back.
pub struct FileDump {
    pub first_seq: SeqNum,
    pub last_seq: SeqNum,
    pub len: usize,
    pub last_page: Option<PageID>,
    pub pages: Vec<PageDump>,
}

/// Whether a page can be listed: it is a data page, and its bytes and its record boundary have
/// sequence numbers.
pub open spec fn page_listable(fl: Seq<Seq<u8>>, page: u16) -> bool {
    let p = fl[page as int];
    &&& data_header(p) is Some
    &&& data_payload(p) is Some
    &&& data_header(p)->0.seq + data_payload(p)->0.len() <= u32::MAX
    &&& data_header(p)->0.record_boundary != NO_BOUNDARY ==> data_header(p)->0.seq + data_header(
        p,
    )->0.record_boundary <= u32::MAX
}

/// Whether a file can be listed: the walk back through its pages does not fail, and they can be
/// listed.
pub open spec fn listable(fl: Seq<Seq<u8>>, f: FileModel) -> bool {
    &&& f.first <= f.end
    &&& chain(fl, f.last, f.first) is Some
    &&& forall|i: int|
        0 <= i < chain(fl, f.last, f.first)->0.len() ==> page_listable(
            fl,
            (#[trigger] chain(fl, f.last, f.first)->0[i]).page,
        )
}

/// Whether a row shows the bytes of `b` from `at` on, where `b` starts at `seq`.
pub open spec fn row_shows(r: RowDump, b: Seq<u8>, seq: u32, at: int) -> bool {
    &&& r.seq.0 == seq + at
    &&& r.bytes@ == b.subrange(
        at,
        if at + ROW_SIZE <= b.len() {
            at + ROW_SIZE
        } else {
            b.len() as int
        },
    )
}

/// Whether a listing shows a page.
pub open spec fn page_shown(fl: Seq<Seq<u8>>, page: u16, d: PageDump) -> bool {
    let h = data_header(fl[page as int])->0;
    let b = data_payload(fl[page as int])->0;
    &&& d.page_id.raw == page
    &&& d.seq.0 == h.seq
    &&& d.end.0 == h.seq + b.len()
    &&& d.record_boundary == (if h.record_boundary == NO_BOUNDARY {
        None
    } else {
        Some((h.record_boundary, SeqNum((h.seq + h.record_boundary) as u32)))
    })
    &&& skip_model(d.skiplist) == h.skiplist
    &&& b.len() <= d.rows@.len() * ROW_SIZE < b.len() + ROW_SIZE
    &&& forall|i: int|
        0 <= i < d.rows@.len() ==> row_shows(#[trigger] d.rows@[i], b, h.seq, i * ROW_SIZE)
}

/// Whether a listing shows a file.
pub open spec fn file_shown(fl: Seq<Seq<u8>>, f: FileModel, d: FileDump) -> bool {
    let run = chain(fl, f.last, f.first)->0;
    &&& d.first_seq.0 == f.first
    &&& d.last_seq.0 == f.end
    &&& d.len == f.end - f.first
    &&& d.last_page == (match f.last {
        Some(pp) => Some(PageID { raw: pp.page }),
        None => None,
    })
    &&& d.pages@.len() == run.len()
    &&& forall|i: int| 0 <= i < run.len() ==> page_shown(fl, run[i].page, #[trigger] d.pages@[i])
}

/// Whether a page can be listed, and a listing shows it.
pub open spec fn page_listed(fl: Seq<Seq<u8>>, page: u16, d: PageDump) -> bool {
    page_listable(fl, page) && page_shown(fl, page, d)
}

/// Whether a file can be listed, and a listing shows it.
pub open spec fn file_listed(fl: Seq<Seq<u8>>, f: FileModel, d: FileDump) -> bool {
    listable(fl, f) && file_shown(fl, f, d)
}

/// A well-formed file can be listed, whatever the state of other files.
pub proof fn law_listable(st: Store, fid: int)
    requires
        0 <= fid < FILE_COUNT,
        file_ok(st.flash, st.files[fid]),
        forall|i: int|
            0 <= i < file_run(st.flash, st.files[fid]).len() ==> {
                let h = (#[trigger] file_run(st.flash, st.files[fid])[i]).header;
                h.record_boundary != NO_BOUNDARY ==> h.seq + h.record_boundary <= u32::MAX
            },
    ensures
        listable(st.flash, st.files[fid]),
        st.files[fid].last is Some ==> chain(
            st.flash,
            st.files[fid].last,
            st.files[fid].first,
        )->0 == file_run(st.flash, st.files[fid]),
{
    let f = st.files[fid];
    lemma_contents_len(st.flash, f);
    if f.last is Some {
        lemma_run_last(st.flash, f);
        lemma_chain_of_run(st.flash, file_run(st.flash, f), f.first, f.end);
        assert forall|i: int| 0 <= i < file_run(st.flash, f).len() implies page_listable(
            st.flash,
            (#[trigger] file_run(st.flash, f)[i]).page,
        ) by {
            lemma_run_page(st.flash, f, i);
        }
    }
}

/// Whether a page is a data page whose bytes, and the end of whose first record, have sequence
/// numbers.
pub open spec fn page_in_order(p: Seq<u8>) -> bool {
    data_header(p) matches Some(h) && data_payload(p) matches Some(b) && h.seq + b.len() <= u32::MAX
        && (h.record_boundary == NO_BOUNDARY || h.seq + h.record_boundary <= u32::MAX)
}

/// A file can be listed exactly if its pages can be walked through and each of them is in order,
/// whether or not they fit together.
pub proof fn law_listable_any(fl: Seq<Seq<u8>>, f: FileModel, run: Seq<Ptr>)
    requires
        f.first <= f.end,
    ensures
        f.last is None ==> listable(fl, f),
        linked(fl, run, f.first) && ends_at(run[0], f.first) && f.last == Some(run.last()) ==> (
        listable(fl, f) <==> forall|i: int|
            0 <= i < run.len() ==> page_in_order(fl[(#[trigger] run[i]).page as int])),
{
    if linked(fl, run, f.first) && ends_at(run[0], f.first) && f.last == Some(run.last()) {
        law_walk(fl, run, f.first);
        assert(chain(fl, f.last, f.first) == Some(run));
        if listable(fl, f) {
            assert forall|i: int| 0 <= i < run.len() implies page_in_order(
                fl[(#[trigger] run[i]).page as int],
            ) by {
                assert(page_listable(fl, chain(fl, f.last, f.first)->0[i].page));
            }
        }
        if forall|i: int|
            0 <= i < run.len() ==> page_in_order(fl[(#[trigger] run[i]).page as int]) {
            assert forall|i: int| 0 <= i < run.len() implies page_listable(
                fl,
                (#[trigger] chain(fl, f.last, f.first)->0[i]).page,
            ) by {
                assert(page_in_order(fl[run[i].page as int]));
            }
        }
    }
}

/// The bytes of the rows of a listing, one after the other.
pub open spec fn rows_bytes(rows: Seq<RowDump>) -> Seq<u8>
    decreases rows.len(),
{
    if rows.len() == 0 {
        Seq::empty()
    } else {
        rows_bytes(rows.drop_last()) + rows.last().bytes@
    }
}

/// The bytes of the pages of a listing, one after the other.
pub open spec fn pages_bytes(pages: Seq<PageDump>) -> Seq<u8>
    decreases pages.len(),
{
    if pages.len() == 0 {
        Seq::empty()
    } else {
        pages_bytes(pages.drop_last()) + rows_bytes(pages.last().rows@)
    }
}

/// The rows of a listing show the bytes of a page, each of them once.
proof fn lemma_rows(rows: Seq<RowDump>, b: Seq<u8>, seq: u32)
    requires
        (rows.len() - 1) * ROW_SIZE < b.len(),
        forall|i: int|
            0 <= i < rows.len() ==> row_shows(#[trigger] rows[i], b, seq, i * ROW_SIZE),
    ensures
        rows_bytes(rows) == b.subrange(
            0,
            if rows.len() * ROW_SIZE <= b.len() {
                (rows.len() * ROW_SIZE) as int
            } else {
                b.len() as int
            },
        ),
    decreases rows.len(),
{
    if rows.len() == 0 {
        assert(b.subrange(0, 0) =~= Seq::empty());
    } else {
        let d = rows.drop_last();
        let at = (rows.len() - 1) * ROW_SIZE;
        assert forall|i: int| 0 <= i < d.len() implies row_shows(
            #[trigger] d[i],
            b,
            seq,
            i * ROW_SIZE,
        ) by {
            assert(rows[i] == d[i]);
        }
        lemma_rows(d, b, seq);
        assert(row_shows(rows[rows.len() - 1], b, seq, at));
        let end = if at + ROW_SIZE <= b.len() {
            at + ROW_SIZE
        } else {
            b.len() as int
        };
        assert(b.subrange(0, at) + b.subrange(at, end) =~= b.subrange(0, end));
    }
}

/// The pages of a listing show what the pages of a run hold.
proof fn lemma_pages(fl: Seq<Seq<u8>>, run: Seq<Ptr>, pages: Seq<PageDump>)
    requires
        pages.len() == run.len(),
        forall|i: int| 0 <= i < run.len() ==> page_shown(fl, run[i].page, #[trigger] pages[i]),
    ensures
        pages_bytes(pages) == run_bytes(fl, run),
    decreases run.len(),
{
    if run.len() > 0 {
        let d = pages.drop_last();
        let k = run.len() - 1;
        assert forall|i: int| 0 <= i < k implies page_shown(
            fl,
            run.drop_last()[i].page,
            #[trigger] d[i],
        ) by {
            assert(pages[i] == d[i]);
        }
        lemma_pages(fl, run.drop_last(), d);
        assert(page_shown(fl, run[k].page, pages[k]));
        let b = data_payload(fl[run[k].page as int])->0;
        lemma_rows(pages[k].rows@, b, data_header(fl[run[k].page as int])->0.seq);
        assert(b.subrange(0, b.len() as int) =~= b);
    }
}

/// A listing of a well-formed file shows its bytes, each of them once and in order, after those
/// in front of its first byte that are still on its first page. Each page goes on where the one
/// before it ends.
pub proof fn law_listing(fl: Seq<Seq<u8>>, f: FileModel, d: FileDump)
    requires
        file_ok(fl, f),
        file_listed(fl, f, d),
    ensures
        d.len == contents(fl, f).len(),
        f.last is None ==> d.pages@.len() == 0,
        f.last is Some ==> {
            let pages = d.pages@;
            &&& pages.len() > 0
            &&& pages[0].seq.0 <= d.first_seq.0 < pages[0].end.0
            &&& contents(fl, f) == pages_bytes(pages).skip(d.first_seq.0 - pages[0].seq.0)
            &&& pages.last().end == d.last_seq
            &&& forall|i: int|
                #![trigger pages[i]]
                0 < i < pages.len() ==> pages[i].seq == pages[i - 1].end
        },
{
    lemma_contents_len(fl, f);
    let pages = d.pages@;
    if f.last is Some {
        let run = file_run(fl, f);
        lemma_run_last(fl, f);
        lemma_run_start(fl, f);
        lemma_chain_of_run(fl, run, f.first, f.end);
        lemma_pages(fl, run, pages);
        lemma_run_page(fl, f, 0);
        lemma_run_page(fl, f, run.len() - 1);
        assert(page_shown(fl, run[0].page, pages[0]));
        assert(page_shown(fl, run[run.len() - 1].page, pages[run.len() - 1]));
        assert(contents(fl, f) == run_bytes(fl, run).skip(f.first - run[0].header.seq)) by {
            reveal(contents);
        }
        assert forall|i: int| #![trigger pages[i]] 0 < i < pages.len() implies pages[i].seq
            == pages[i - 1].end by {
            lemma_run_page(fl, f, i);
            lemma_run_page(fl, f, i - 1);
            assert(page_shown(fl, run[i].page, pages[i]));
            assert(page_shown(fl, run[i - 1].page, pages[i - 1]));
            assert(page_end(fl, run[i - 1]) == run[i].header.seq);
        }
    }
}

impl<F: Flash> FileManager<F> {
    /// The pages of a file, from back to front.
    fn list_pages(&mut self, f: FileState) -> (r: Option<Vec<PagePointer>>)
        requires
            old(self)@.wf(),
            f@.last matches Some(pp) ==> pp.page < PAGE_COUNT,
        ensures
            final(self)@ == old(self)@,
            match (chain(old(self)@.flash, f@.last, f@.first), r) {
                (Some(run), Some(pages)) => {
                    &&& pages@.len() == run.len()
                    &&& forall|i: int|
                        0 <= i < run.len() ==> (#[trigger] pages@[run.len() - 1 - i])@ == run[i]
                            && run[i].page < PAGE_COUNT
                },
                (None, None) => true,
                _ => false,
            },
    {
        let ghost fl = self@.flash;
        let ghost whole = chain(fl, f@.last, f@.first);
        let ghost run = whole->0;
        let mut pages: Vec<PagePointer> = Vec::new();
        let mut pp: Option<PagePointer> = f.last_page;
        loop
            invariant
                self@ == old(self)@,
                self@.wf(),
                fl == self@.flash,
                whole == chain(old(self)@.flash, f@.last, f@.first),
                run == whole->0,
                pp matches Some(p) ==> p.page_id.in_range(),
                whole is Some <==> chain(fl, ptr_view(pp), f@.first) is Some,
                whole is Some ==> pages@.len() <= run.len() && chain(
                    fl,
                    ptr_view(pp),
                    f@.first,
                )->0 == run.subrange(0, run.len() - pages@.len()),
                whole is Some ==> forall|i: int|
                    0 <= i < pages@.len() ==> (#[trigger] pages@[i])@ == run[run.len() - 1 - i]
                        && pages@[i].page_id.in_range(),
            decreases chain_rank(ptr_view(pp)),
        {
            let ghost k = run.len() - pages@.len();
            match pp {
                None => {
                    assert(run.subrange(0, k).len() == 0);
                    proof {
                        assert forall|i: int| 0 <= i < run.len() implies (#[trigger] pages@[run.len()
                            - 1 - i])@ == run[i] && run[i].page < PAGE_COUNT by {}
                    }
                    return Some(pages);
                },
                Some(p) => {
                    match p.prev(self, f.first_seq) {
                        Err(_) => {
                            return None;
                        },
                        Ok(q) => {
                            proof {
                                if whole is Some {
                                    let part = run.subrange(0, k);
                                    let before = chain(fl, ptr_view(q), f@.first)->0;
                                    assert(part == before.push(p@));
                                    assert(part[k - 1] == p@);
                                    assert(run.subrange(0, k - 1) =~= before);
                                }
                            }
                            pages.push(p);
                            pp = q;
                        },
                    }
                },
            }
        }
    }

    /// Lists the bytes of a page in rows. The first `n` bytes of `buf` are the bytes of the page.
    fn dump_rows(seq: SeqNum, buf: &[u8; PAGE_SIZE], n: usize) -> (rows: Vec<RowDump>)
        requires
            n <= PAGE_SIZE,
            seq.0 + n <= u32::MAX,
        ensures
            n <= rows@.len() * ROW_SIZE < n + ROW_SIZE,
            forall|i: int|
                0 <= i < rows@.len() ==> row_shows(
                    #[trigger] rows@[i],
                    buf@.subrange(0, n as int),
                    seq.0,
                    i * ROW_SIZE,
                ),
    {
        let ghost b = buf@.subrange(0, n as int);
        let mut rows: Vec<RowDump> = Vec::new();
        let mut at: usize = 0;
        while at < n
            invariant
                n <= PAGE_SIZE,
                b == buf@.subrange(0, n as int),
                at == rows@.len() * ROW_SIZE,
                at < n + ROW_SIZE,
                seq.0 + n <= u32::MAX,
                forall|i: int|
                    0 <= i < rows@.len() ==> row_shows(
                        #[trigger] rows@[i],
                        b,
                        seq.0,
                        i * ROW_SIZE,
                    ),
            decreases n + ROW_SIZE - at,
        {
            let end: usize = if n - at >= ROW_SIZE {
                at + ROW_SIZE
            } else {
                n
            };
            let mut bytes: Vec<u8> = Vec::new();
            let mut i: usize = at;
            while i < end
                invariant
                    at <= i <= end,
                    end <= n,
                    n <= PAGE_SIZE,
                    b == buf@.subrange(0, n as int),
                    bytes@ == b.subrange(at as int, i as int),
                decreases end - i,
            {
                bytes.push(buf[i]);
                assert(bytes@ =~= b.subrange(at as int, i + 1));
                i += 1;
            }
            let row = RowDump { seq: SeqNum(seq.0 + at as u32), bytes };
            assert(row_shows(row, b, seq.0, at as int));
            rows.push(row);
            at += ROW_SIZE;
        }
        rows
    }

    /// Lists a page. `None` if it cannot be listed.
    fn dump_page(&mut self, page_id: PageID) -> (r: Option<PageDump>)
        requires
            old(self)@.wf(),
            page_id.in_range(),
        ensures
            final(self)@ == old(self)@,
            match r {
                Some(d) => page_listed(old(self)@.flash, page_id.raw, d),
                None => !page_listable(old(self)@.flash, page_id.raw),
            },
    {
        let ghost fl = self@.flash;
        let ghost b = data_payload(fl[page_id.raw as int])->0;
        let (h, mut r): (DataHeader, PageReader) = match self.read_data_page(page_id) {
            Ok(x) => x,
            Err(_) => {
                return None;
            },
        };
        proof {
            lemma_data_payload_len(fl[page_id.raw as int]);
        }
        let mut buf: [u8; PAGE_SIZE] = [0u8; PAGE_SIZE];
        let n: usize = match r.read(&mut self.flash, &mut buf, 0) {
            Ok(n) => n,
            Err(_) => {
                return None;
            },
        };
        assert(self@ =~= old(self)@);
        assert(buf@.subrange(0, n as int) =~= b);
        let end: SeqNum = match h.seq.add(n) {
            Ok(s) => s,
            Err(_) => {
                return None;
            },
        };
        let record_boundary: Option<(u16, SeqNum)> = if h.record_boundary == NO_BOUNDARY {
            None
        } else {
            match h.seq.add(h.record_boundary as usize) {
                Ok(s) => Some((h.record_boundary, s)),
                Err(_) => {
                    return None;
                },
            }
        };
        let rows: Vec<RowDump> = Self::dump_rows(h.seq, &buf, n);
        Some(PageDump { page_id, seq: h.seq, end, record_boundary, skiplist: h.skiplist, rows })
    }

    /// Lists a file. `None` if it cannot be listed.
    pub fn dump_file(&mut self, file_id: FileID) -> (r: Option<FileDump>)
        requires
            file_id < FILE_COUNT,
            old(self)@.wf(),
        ensures
            final(self)@ == old(self)@,
            match r {
                Some(d) => file_listed(old(self)@.flash, old(self)@.files[file_id as int], d),
                None => !listable(old(self)@.flash, old(self)@.files[file_id as int]),
            },
    {
        let f: FileState = self.files[file_id as usize];
        assert(self@.files[file_id as int] == f@);
        let ghost fl = self@.flash;
        if f.first_seq.0 > f.last_seq.0 {
            return None;
        }
        let list: Vec<PagePointer> = match self.list_pages(f) {
            Some(list) => list,
            None => {
                return None;
            },
        };
        let ghost run = chain(fl, f@.last, f@.first)->0;
        let mut pages: Vec<PageDump> = Vec::new();
        let mut i: usize = list.len();
        while i > 0
            invariant
                self@ == old(self)@,
                self@.wf(),
                fl == self@.flash,
                self@.files[file_id as int] == f@,
                chain(fl, f@.last, f@.first) is Some,
                run == chain(fl, f@.last, f@.first)->0,
                list@.len() == run.len(),
                i <= list@.len(),
                pages@.len() == list@.len() - i,
                forall|k: int|
                    0 <= k < run.len() ==> (#[trigger] list@[run.len() - 1 - k])@ == run[k]
                        && run[k].page < PAGE_COUNT,
                forall|k: int|
                    0 <= k < pages@.len() ==> page_listed(fl, run[k].page, #[trigger] pages@[k]),
            decreases i,
        {
            i -= 1;
            let ghost k = run.len() - 1 - i;
            assert(list@[run.len() - 1 - k]@ == run[k]);
            let shown: Option<PageDump> = self.dump_page(list[i].page_id);
            match shown {
                Some(d) => {
                    assert(page_listed(fl, run[k].page, d));
                    pages.push(d);
                    assert(pages@[k] == d);
                },
                None => {
                    assert(!page_listable(fl, run[k].page));
                    assert(!listable(fl, f@));
                    return None;
                },
            }
        }
        proof {
            assert forall|k: int| 0 <= k < run.len() implies page_listable(
                fl,
                (#[trigger] run[k]).page,
            ) by {
                assert(page_listed(fl, run[k].page, pages@[k]));
            }
        }
        Some(
            FileDump {
                first_seq: f.first_seq,
                last_seq: f.last_seq,
                len: f.last_seq.sub(f.first_seq),
                last_page: match f.last_page {
                    Some(pp) => Some(pp.page_id),
                    None => None,
                },
                pages,
            },
        )
    }

    /// Lists all files. `None` if one of them cannot be listed.
    pub fn dump(&mut self) -> (r: Option<Vec<FileDump>>)
        requires
            old(self)@.wf(),
        ensures
            final(self)@ == old(self)@,
            match r {
                Some(d) => d@.len() == FILE_COUNT && forall|fid: int|
                    0 <= fid < FILE_COUNT ==> file_listed(
                        old(self)@.flash,
                        old(self)@.files[fid],
                        #[trigger] d@[fid],
                    ),
                None => exists|fid: int|
                    0 <= fid < FILE_COUNT && !listable(
                        old(self)@.flash,
                        #[trigger] old(self)@.files[fid],
                    ),
            },
    {
        let mut r: Vec<FileDump> = Vec::new();
        let mut file_id: FileID = 0;
        while (file_id as usize) < FILE_COUNT
            invariant
                file_id <= FILE_COUNT,
                self@ == old(self)@,
                self@.wf(),
                r@.len() == file_id,
                forall|fid: int|
                    0 <= fid < file_id ==> file_listed(
                        self@.flash,
                        self@.files[fid],
                        #[trigger] r@[fid],
                    ),
            decreases FILE_COUNT - file_id,
        {
            let shown: Option<FileDump> = self.dump_file(file_id);
            match shown {
                Some(d) => {
                    r.push(d);
                    assert(r@[file_id as int] == d);
                },
                None => {
                    assert(!listable(self@.flash, self@.files[file_id as int]));
                    return None;
                },
            }
            file_id += 1;
        }
        Some(r)
    }
}

} // verus!
