//! What writing, committing and renaming do to the tables and the device, whatever these say.

use vstd::prelude::*;

use crate::allocator::{has_free, lemma_lowest_free_from, lowest_free};
use crate::config::{FileID, FILE_COUNT, PAGE_COUNT, PAGE_SIZE, SKIPLIST_LEN};
use crate::headers::{
    data_header, data_payload, encode_meta, lemma_data_image, lemma_meta_appended, lemma_meta_image,
    meta_appended, meta_end, meta_header, meta_payload, FILE_META_SIZE, META_START,
    PAGE_MAX_PAYLOAD_SIZE,
};
use crate::mount_laws::{
    describable, info_of, lemma_parse_file_entries, lemma_rewrite, stored_infos,
};
use crate::page::{chunk_slot, erased_from, payload_end, ChunkSlot, CHUNK_HEADER_SIZE};
use crate::seqnum::{lemma_skip_blocks, lemma_skip_target, skip_target};
use crate::space::room;
use crate::store::{
    file_entries, file_entry, lemma_parse_meta_range, lemma_truncate_some_err, meta_fits,
    meta_readable, nonempty_files, parse_meta, swapped, truncate_one, truncate_some, write_meta,
    FileModel, Ptr, Store,
};
use crate::types::NO_PAGE;
use crate::writer::{
    append, append_has_space, commit_all, commit_list, commit_ready, commit_writer, fitting, flush,
    make_room, new_writer, page_header_model, record_ended, OpenPage, WriterModel,
};
use crate::Error;

verus! {

/// Exchanging two files exchanges what the tables say of them, whatever that is, and changes
/// nothing else. Exchanging them again undoes it.
pub proof fn law_rename_any(st: Store, a: int, b: int)
    requires
        st.files.len() == FILE_COUNT,
        0 <= a < FILE_COUNT,
        0 <= b < FILE_COUNT,
    ensures
        ({
            let st1 = swapped(st, a, b);
            &&& st1 == (Store { files: st1.files, ..st })
            &&& st1.files.len() == FILE_COUNT
            &&& st1.files[a] == st.files[b]
            &&& st1.files[b] == st.files[a]
            &&& forall|i: int|
                0 <= i < FILE_COUNT && i != a && i != b ==> #[trigger] st1.files[i] == st.files[i]
            &&& swapped(st1, a, b) == st
        }),
{
    let st1 = swapped(st, a, b);
    assert(swapped(st1, a, b).files =~= st.files);
}

/// A new writer continues a file behind its last byte, whatever the device holds. It has nothing
/// to commit, and is at the end of a record.
pub proof fn law_new_writer_any(st: Store, fid: FileID)
    ensures
        ({
            let w = new_writer(st, fid);
            &&& w.fid == fid
            &&& w.position() == st.files[fid as int].end
            &&& w.last == st.files[fid as int].last
            &&& w.buffered() == Seq::<u8>::empty()
            &&& w.at_end
            &&& w.boundary == Some(0usize)
            &&& commit_writer(st, w) == (st, w, Ok::<(), Error>(()))
        }),
{
}

/// Whether a page has been completed by a writer that was filling it: it holds the bytes that the
/// writer had put into it, starts where they start, and leads back to the page before it. Where a
/// back pointer does not lead to that page, it leads where that page leads.
pub open spec fn completed(fl: Seq<Seq<u8>>, w: WriterModel, pp: Ptr) -> bool {
    &&& w.page is Some
    &&& pp.page == w.page->0.page
    &&& data_header(fl[pp.page as int]) == Some(pp.header)
    &&& data_payload(fl[pp.page as int]) == Some(w.page->0.buf)
    &&& meta_header(fl[pp.page as int]) is None
    &&& pp.header.seq == w.seq
    &&& pp.header.skiplist.len() == SKIPLIST_LEN
    &&& forall|j: int|
        0 <= j < SKIPLIST_LEN ==> #[trigger] pp.header.skiplist[j] == (match w.last {
            Some(last) => if skip_target(w.seq, j) >= last.header.seq {
                last.page
            } else {
                last.header.skiplist[j]
            },
            None => NO_PAGE,
        })
    &&& w.last is Some ==> pp.header.skiplist[0] == w.last->0.page
}

/// Completing a page writes it to the device and nothing else, whatever the state of the file. It
/// fails only if there are no sequence numbers for its bytes, and then nothing is written.
proof fn lemma_complete(st: Store, w: WriterModel)
    requires
        st.wf(),
        w.wf(),
        w.page is Some,
    ensures
        ({
            let (st1, w1, r) = flush(st, w);
            &&& w1.page is None
            &&& w1.fid == w.fid
            &&& w.position() > u32::MAX ==> st1 == st && r == Err::<(), Error>(Error::Corrupted)
            &&& w.position() <= u32::MAX ==> {
                &&& r == Ok::<(), Error>(())
                &&& st1.wf()
                &&& w1.wf()
                &&& w1.last is Some
                &&& completed(st1.flash, w, w1.last->0)
                &&& st1 == (Store { flash: st1.flash, ..st })
                &&& st1.flash == st.flash.update(
                    w.page->0.page as int,
                    st1.flash[w.page->0.page as int],
                )
                &&& w1.seq == w.position()
            }
        }),
{
    if w.position() <= u32::MAX {
        lemma_data_image(page_header_model(w), w.page->0.buf);
        if let Some(pp) = w.last {
            assert(skip_target(w.seq, 0) >= pp.header.seq) by {
                lemma_skip_target(w.seq, 0);
                lemma_skip_blocks();
            }
        }
    }
}

/// Committing a writer makes the page that it is filling the last one of its file, whatever the
/// state of the file, and the file ends behind the bytes of that page. It starts where it
/// started. A writer that is not filling a page changes nothing, nor does one for whose bytes
/// there are no sequence numbers.
pub proof fn law_commit_writer_any(st: Store, w: WriterModel)
    requires
        st.wf(),
        w.wf(),
    ensures
        ({
            let fid = w.fid as int;
            let (st1, w1, r) = commit_writer(st, w);
            &&& r is Ok <==> w.page is None || w.position() <= u32::MAX
            &&& w.page is None || r is Err ==> st1 == st
            &&& w.page is None ==> w1 == w
            &&& w1.fid == w.fid
            &&& w1.at_end == w.at_end
            &&& w1.bounds == w.bounds
            &&& w.page is Some && r is Ok ==> {
                let page = w.page->0.page as int;
                let pp = st1.files[fid].last->0;
                &&& st1.wf()
                &&& st1.files[fid].last is Some
                &&& completed(st1.flash, w, pp)
                &&& st1.files == st.files.update(
                    fid,
                    FileModel {
                        last: Some(pp),
                        first: st.files[fid].first,
                        end: w.position() as u32,
                    },
                )
                &&& st1 == (Store { files: st1.files, flash: st1.flash, ..st })
                &&& st1.flash == st.flash.update(page, st1.flash[page])
                &&& w1.page is None
                &&& w1.last == Some(pp)
                &&& w1.position() == w.position()
                &&& w1.boundary == if w.at_end {
                    Some(0usize)
                } else {
                    None
                }
            }
        }),
{
    if w.page is Some {
        lemma_complete(st, w);
    }
}

/// How the steps of a commit follow each other, whatever the state of the files: it succeeds
/// exactly if all of them do. If there are no sequence numbers for what has been written, nothing
/// happens. If a truncation fails, those before it have been made, and nothing has been recorded.
pub proof fn law_commit_in_steps(st: Store, w: Option<WriterModel>, truncate: Seq<(FileID, usize)>)
    requires
        st.wf(),
        w matches Some(x) ==> x.wf(),
    ensures
        ({
            let st1 = match w {
                Some(x) => commit_writer(st, x).0,
                None => st,
            };
            let fits = w matches Some(x) ==> x.page is None || x.position() <= u32::MAX;
            let (st2, r2) = truncate_some(st1, truncate, truncate.len() as int);
            let list = commit_list(w, truncate);
            let (st3, w3, r3) = commit_all(st, w, truncate);
            &&& r3 is Ok <==> fits && r2 is Ok && write_meta(st2, list).1 is Ok
            &&& !fits ==> st3 == st
            &&& fits && r2 is Err ==> st3 == st2
            &&& fits && r2 is Ok ==> st3.files == st2.files
            &&& match w {
                Some(x) => w3 == Some(commit_writer(st, x).1),
                None => w3 is None,
            }
        }),
{
    if let Some(x) = w {
        law_commit_writer_any(st, x);
    }
}

/// The files whose state a commit records: that of the writer, and those of the truncations.
pub proof fn law_commit_list(w: Option<WriterModel>, truncate: Seq<(FileID, usize)>, fid: FileID)
    ensures
        commit_list(w, truncate).contains(fid) <==> (w is Some && w->0.fid == fid) || exists|i: int|
            0 <= i < truncate.len() && (#[trigger] truncate[i]).0 == fid,
        commit_list(w, truncate).len() == truncate.len() + if w is Some {
            1int
        } else {
            0
        },
{
    let list = commit_list(w, truncate);
    let k = if w is Some {
        1int
    } else {
        0
    };
    if list.contains(fid) {
        let i = choose|i: int| 0 <= i < list.len() && list[i] == fid;
        if i >= k {
            assert(truncate[i - k].0 == fid);
        }
    }
    if w is Some && w->0.fid == fid {
        assert(list[0] == fid);
    }
    assert forall|i: int| 0 <= i < truncate.len() && (#[trigger] truncate[i]).0 == fid implies list.contains(
        fid,
    ) by {
        assert(list[i + k] == fid);
    }
}

/// A list of truncations is carried out one by one, up to the first that fails.
pub proof fn law_truncations(st: Store, list: Seq<(FileID, usize)>, k: int, n: int)
    requires
        0 <= k < n <= list.len(),
        truncate_some(st, list, k).1 is Ok,
    ensures
        ({
            let (st1, r1) = truncate_some(st, list, k);
            let (st2, r2) = truncate_one(st1, list[k].0 as int, list[k].1 as int);
            &&& truncate_some(st, list, k + 1) == (st2, r2)
            &&& r2 is Err ==> truncate_some(st, list, n) == (st2, r2)
        }),
{
    if truncate_some(st, list, k + 1).1 is Err {
        lemma_truncate_some_err(st, list, k + 1, n);
    }
}

/// When the commit of a writer succeeds, whatever the state of the files: exactly if there are
/// sequence numbers for what has been written, the meta page can be read, and it has room for the
/// entry or there is a sequence number for a new one. The tables then say what committing the
/// writer makes them say.
pub proof fn law_commit_any(st: Store, w: WriterModel)
    requires
        st.wf(),
        w.wf(),
        w.page matches Some(op) ==> op.page != st.meta_page,
        commit_ready(st, Some(w), Seq::empty()),
    ensures
        ({
            let (st1, w1, r) = commit_all(st, Some(w), Seq::empty());
            &&& r is Ok <==> {
                &&& w.page is None || w.position() <= u32::MAX
                &&& meta_readable(st)
                &&& meta_fits(st, 1) || st.meta_seq < u32::MAX
            }
            &&& st1.files == commit_writer(st, w).0.files
            &&& w.page is Some && w.position() > u32::MAX ==> st1 == st
        }),
{
    let none = Seq::<(FileID, usize)>::empty();
    let (st1, w1, r1) = commit_writer(st, w);
    law_commit_writer_any(st, w);
    assert(truncate_some(st1, none, 0) == (st1, Ok::<(), Error>(())));
    assert(commit_list(Some(w), none) =~= seq![w.fid]);
    if r1 is Ok {
        assert(st1.flash[st.meta_page as int] == st.flash[st.meta_page as int]);
    }
}

/// Appending does not look at the files, nor at the meta page.
pub proof fn law_append_heeds_no_files(
    st: Store,
    files: Seq<FileModel>,
    page: u16,
    seq: u32,
    w: WriterModel,
    data: Seq<u8>,
)
    ensures
        ({
            let other = Store { files, meta_page: page, meta_seq: seq, ..st };
            let (st1, w1, r1) = append(st, w, data);
            let (st2, w2, r2) = append(other, w, data);
            &&& st2 == (Store { files, meta_page: page, meta_seq: seq, ..st1 })
            &&& w2 == w1
            &&& r2 == r1
            &&& st1 == (Store { flash: st1.flash, used: st1.used, ..st })
        }),
    decreases data.len(),
{
    if data.len() > 0 {
        let (st1, w1, r) = make_room(st, w);
        let n = fitting(w1, data.len() as int);
        if r is Ok && n > 0 {
            let w2 = w1.filled(data.subrange(0, n));
            let tail = data.subrange(n, data.len() as int);
            law_append_heeds_no_files(st1, files, page, seq, w2, tail);
        }
    }
}

/// Appending nothing does nothing.
pub proof fn law_append_nothing(st: Store, w: WriterModel)
    ensures
        append(st, w, Seq::empty()) == (st, w, Ok::<(), Error>(())),
{
}

/// Marking the end of a record makes the current position a record boundary, whatever the writer
/// has been through. It is the first one from the last complete page on only if there is none
/// yet. What has been written stays as it is.
pub proof fn law_record_end_any(w: WriterModel)
    requires
        w.wf(),
        w.boundary is None ==> w.page is Some,
    ensures
        ({
            let w1 = record_ended(w);
            &&& w1 == (WriterModel {
                boundary: w1.boundary,
                at_end: w1.at_end,
                bounds: w1.bounds,
                ..w
            })
            &&& w1.at_end
            &&& w1.bounds == w.bounds.insert(w.position())
            &&& w.boundary is Some ==> w1.boundary == w.boundary
            &&& w.boundary is None ==> w1.boundary is Some && w.seq + w1.boundary->0
                == w.position()
            &&& w.bounds_ok() ==> w1.bounds_ok()
            &&& record_ended(w1) == w1
        }),
{
    let w1 = record_ended(w);
    assert(w1.bounds.insert(w1.position()) =~= w1.bounds);
    assert(record_ended(w1) =~= w1);
}

/// Bytes for which there is room on the page that a writer is filling are put there, and nothing
/// else happens.
pub proof fn law_append_fits(st: Store, w: WriterModel, data: Seq<u8>)
    requires
        w.wf(),
        w.page is Some,
        data.len() <= room(w),
    ensures
        ({
            let (st1, w1, r) = append(st, w, data);
            let op = w.page->0;
            &&& r == Ok::<(), Error>(())
            &&& st1 == st
            &&& w1 == (WriterModel {
                page: Some(OpenPage { page: op.page, buf: op.buf + data }),
                at_end: w.at_end && data.len() == 0,
                ..w
            })
        }),
{
    if data.len() == 0 {
        assert(w.page->0.buf + data =~= w.page->0.buf);
        assert(append(st, w, data).1 =~= w);
    } else {
        let n = data.len() as int;
        let w1 = w.filled(data.subrange(0, n));
        assert(data.subrange(0, n) =~= data);
        assert(append(st, w1, data.subrange(n, n)) == (st, w1, Ok::<(), Error>(())));
        assert(fitting(w, n) == n);
    }
}

/// A writer that is not filling a page takes the first free page for its next byte.
pub proof fn law_append_opens(st: Store, w: WriterModel, data: Seq<u8>)
    requires
        st.wf(),
        w.wf(),
        w.page is None,
        data.len() > 0,
        has_free(st.used),
    ensures
        ({
            let page = lowest_free(st.used);
            let k = if data.len() <= PAGE_MAX_PAYLOAD_SIZE {
                data.len() as int
            } else {
                PAGE_MAX_PAYLOAD_SIZE as int
            };
            let st1 = Store { used: st.used.update(page, true), ..st };
            let w1 = WriterModel {
                page: Some(OpenPage { page: page as u16, buf: data.subrange(0, k) }),
                at_end: false,
                ..w
            };
            &&& 0 <= page < PAGE_COUNT
            &&& !st.used[page]
            &&& forall|p: int| 0 <= p < page ==> #[trigger] st.used[p]
            &&& append(st, w, data) == append(st1, w1, data.subrange(k, data.len() as int))
        }),
{
    lemma_lowest_free_from(st.used, 0);
    let (st1, w1, r) = make_room(st, w);
    let n = fitting(w1, data.len() as int);
    let head = data.subrange(0, n);
    assert(Seq::<u8>::empty() + head =~= head);
}

/// Bytes for which there is no room on the page that a writer is filling go on to another page:
/// the page is filled up and completed, and the rest is appended by a writer that goes on behind
/// it.
pub proof fn law_append_goes_on(st: Store, w: WriterModel, data: Seq<u8>)
    requires
        st.wf(),
        w.wf(),
        w.page is Some,
        data.len() > room(w),
        w.seq + PAGE_MAX_PAYLOAD_SIZE <= u32::MAX,
    ensures
        ({
            let k = room(w);
            let (st1, w1, r1) = append(st, w, data.subrange(0, k));
            let (st2, w2, r2) = flush(st1, w1);
            &&& st1 == st
            &&& r2 == Ok::<(), Error>(())
            &&& st2.wf()
            &&& w2.wf()
            &&& w2.last is Some
            &&& completed(st2.flash, w1, w2.last->0)
            &&& w1.buffered() == w.buffered() + data.subrange(0, k)
            &&& w1.seq == w.seq
            &&& w1.last == w.last
            &&& st2 == (Store { flash: st2.flash, ..st })
            &&& st2.flash == st.flash.update(
                w.page->0.page as int,
                st2.flash[w.page->0.page as int],
            )
            &&& w2.page is None
            &&& w2.fid == w.fid
            &&& w2.position() == w.position() + k
            &&& append(st, w, data) == append(st2, w2, data.subrange(k, data.len() as int))
        }),
{
    let k = room(w);
    let head = data.subrange(0, k);
    let tail = data.subrange(k, data.len() as int);
    law_append_fits(st, w, head);
    let w1 = append(st, w, head).1;
    let (st2, w2, r2) = flush(st, w1);
    lemma_complete(st, w1);
    if k == 0 {
        assert(tail =~= data);
        assert(w1 =~= w);
        assert(make_room(st, w) == make_room(st2, w2));
    } else {
        assert(make_room(st, w) == (st, w, Ok::<(), Error>(())));
        assert(fitting(w, data.len() as int) == k);
        assert(w.filled(head) =~= w1);
        assert(append(st, w, data) == append(st, w1, tail));
        assert(make_room(st, w1) == make_room(st2, w2));
    }
}

/// Appending fails if a page would have to be completed for whose bytes there are no sequence
/// numbers. The writer then no longer has what it was filling the page with, and nothing has been
/// written.
pub proof fn law_append_overflow(st: Store, w: WriterModel, data: Seq<u8>)
    requires
        st.wf(),
        w.wf(),
        w.page is Some,
        data.len() > room(w),
        w.seq + PAGE_MAX_PAYLOAD_SIZE > u32::MAX,
    ensures
        ({
            let (st1, w1, r) = append(st, w, data);
            &&& r == Err::<(), Error>(Error::Corrupted)
            &&& st1 == st
            &&& w1.page is None
            &&& w1.last == w.last
            &&& w1.seq == w.seq
        }),
{
    let k = room(w);
    let head = data.subrange(0, k);
    let tail = data.subrange(k, data.len() as int);
    law_append_fits(st, w, head);
    let w1 = append(st, w, head).1;
    if k > 0 {
        assert(fitting(w, data.len() as int) == k);
        assert(w.filled(head) =~= w1);
        assert(append(st, w, data) == append(st, w1, tail));
        lemma_complete(st, w1);
        assert(make_room(st, w1).2 is Err);
    } else {
        lemma_complete(st, w);
        assert(make_room(st, w).2 is Err);
    }
}

/// Appending in pieces is appending at once.
pub proof fn law_append_in_pieces(st: Store, w: WriterModel, a: Seq<u8>, b: Seq<u8>)
    requires
        append(st, w, a).2 is Ok,
        w.wf(),
        st.used.len() == PAGE_COUNT,
        append_has_space(st, w, a),
    ensures
        ({
            let (st1, w1, r1) = append(st, w, a);
            append(st, w, a + b) == append(st1, w1, b)
        }),
    decreases a.len(),
{
    if a.len() == 0 {
        assert(a + b =~= b);
    } else {
        lemma_lowest_free_from(st.used, 0);
        let (st1, w1, r) = make_room(st, w);
        let n = fitting(w1, a.len() as int);
        let head = a.subrange(0, n);
        let tail = a.subrange(n, a.len() as int);
        let w2 = w1.filled(head);
        assert(0 < n);
        law_append_in_pieces(st1, w2, tail, b);
        let c = a + b;
        let m = fitting(w1, c.len() as int);
        assert(c.subrange(0, n) =~= head);
        assert(c.subrange(n, c.len() as int) =~= tail + b);
        if m > n {
            let more = c.subrange(n, m);
            let rest = c.subrange(m, c.len() as int);
            let w3 = w1.filled(c.subrange(0, m));
            assert(n == a.len());
            assert(tail.len() == 0);
            assert(tail + b =~= b);
            assert(make_room(st1, w2) == (st1, w2, Ok::<(), Error>(())));
            assert(fitting(w2, b.len() as int) == m - n);
            assert(b.subrange(0, m - n) =~= more);
            assert(b.subrange(m - n, b.len() as int) =~= rest);
            assert(w2.filled(more) =~= w3) by {
                assert((w1.page->0.buf + head) + more =~= w1.page->0.buf + c.subrange(0, m));
            }
        }
    }
}

/// There is room for entries on the meta page if they fit behind its last chunk, with a chunk
/// header in front of them. Adding none takes no room.
pub proof fn law_meta_room(st: Store, n: int)
    requires
        0 <= n,
    ensures
        meta_fits(st, n) <==> n == 0 || meta_end(st.flash[st.meta_page as int]) + 4 + 8 * n
            <= PAGE_SIZE,
{
}

/// How many of the first `k` files are not empty.
pub open spec fn files_in_use(files: Seq<FileModel>, k: int) -> int
    decreases k,
{
    if k <= 0 {
        0
    } else {
        files_in_use(files, k - 1) + if files[k - 1].last is Some {
            1int
        } else {
            0
        }
    }
}

proof fn lemma_files_in_use(files: Seq<FileModel>, k: int)
    requires
        0 <= k <= FILE_COUNT,
    ensures
        nonempty_files(files, k).len() == files_in_use(files, k),
    decreases k,
{
    if k > 0 {
        lemma_files_in_use(files, k - 1);
    }
}

/// What is written to the meta page when the entries of files are, whatever the device holds
/// elsewhere. If there is room, the page then says of the files of the list what the tables say,
/// and of others what it said before. If there is none, the first free page takes its place, and
/// says of all files what the tables say. Nothing else is written, and the tables of the files do
/// not change.
pub proof fn law_write_entries_any(st: Store, fids: Seq<FileID>)
    requires
        st.wf(),
        st.used[st.meta_page as int],
        forall|i: int| 0 <= i < FILE_COUNT ==> describable(#[trigger] st.files[i]),
        forall|i: int| 0 <= i < fids.len() ==> (#[trigger] fids[i]) < FILE_COUNT,
        meta_readable(st),
        !meta_fits(st, fids.len() as int) ==> has_free(st.used) && st.meta_seq < u32::MAX,
    ensures
        ({
            let (st1, r) = write_meta(st, fids);
            let m = st.meta_page as int;
            let m1 = st1.meta_page as int;
            &&& r == Ok::<(), Error>(())
            &&& st1.files == st.files
            &&& st1.flash == st.flash.update(m1, st1.flash[m1])
            &&& meta_header(st1.flash[m1]) == if meta_fits(st, fids.len() as int) {
                meta_header(st.flash[m])
            } else {
                Some(st1.meta_seq)
            }
            &&& if meta_fits(st, fids.len() as int) {
                &&& erased_from(st.flash[m], meta_end(st.flash[m])) ==> meta_payload(
                    st1.flash[m],
                ) is Some && meta_payload(st1.flash[m])->0.len() == meta_payload(
                    st.flash[m],
                )->0.len() + 8 * fids.len()
                &&& st1.used == st.used
                &&& m1 == m
                &&& st1.meta_seq == st.meta_seq
                &&& stored_infos(st) is Some && erased_from(st.flash[m], meta_end(st.flash[m])) ==> {
                    &&& stored_infos(st1) is Some
                    &&& erased_from(st1.flash[m], meta_end(st1.flash[m]))
                    &&& forall|fid: int|
                        0 <= fid < FILE_COUNT ==> #[trigger] stored_infos(st1)->0[fid]
                            == if fids.contains(fid as FileID) {
                            info_of(st.files[fid])
                        } else {
                            stored_infos(st)->0[fid]
                        }
                }
            } else {
                &&& meta_payload(st1.flash[m1]) matches Some(b) && b.len() == 8 * files_in_use(
                    st.files,
                    FILE_COUNT as int,
                )
                &&& !st.used[m1]
                &&& forall|p: int| 0 <= p < m1 ==> #[trigger] st.used[p]
                &&& st1.used == st.used.update(m1, true).update(m, false)
                &&& st1.meta_seq == st.meta_seq + 1
                &&& stored_infos(st1) is Some
                &&& erased_from(st1.flash[m1], meta_end(st1.flash[m1]))
                &&& forall|fid: int|
                    0 <= fid < FILE_COUNT ==> #[trigger] stored_infos(st1)->0[fid] == info_of(
                        st.files[fid],
                    )
            }
        }),
{
    let (st1, r) = write_meta(st, fids);
    let p = st.flash[st.meta_page as int];
    let e = file_entries(st.files, fids);
    if meta_fits(st, fids.len() as int) {
        if fids.len() > 0 {
            lemma_entries_len(st.files, fids);
            lemma_meta_kept(p, e);
            if erased_from(p, meta_end(p)) {
                lemma_meta_appended(p, e);
            }
            if stored_infos(st) is Some && erased_from(p, meta_end(p)) {
                let b = meta_payload(p)->0;
                lemma_parse_meta_range(b);
                lemma_parse_file_entries(b, st.files, fids);
                lemma_meta_appended(p, e);
                assert(stored_infos(st1) == parse_meta(b + e));
            }
        } else {
            assert(st1.flash =~= st.flash.update(st1.meta_page as int, p));
        }
    } else {
        lemma_rewrite(st);
        lemma_lowest_free_from(st.used, 0);
        let all = nonempty_files(st.files, FILE_COUNT as int);
        lemma_entries_len(st.files, all);
        lemma_files_in_use(st.files, FILE_COUNT as int);
        lemma_few_in_use(st.files, FILE_COUNT as int);
        lemma_meta_image(st1.meta_seq, file_entries(st.files, all));
        assert forall|fid: int| 0 <= fid < FILE_COUNT implies #[trigger] stored_infos(st1)->0[fid]
            == info_of(st.files[fid]) by {
            assert(st1.files[fid] == st.files[fid]);
        }
    }
}

proof fn lemma_few_in_use(files: Seq<FileModel>, k: int)
    requires
        0 <= k,
    ensures
        0 <= files_in_use(files, k) <= k,
    decreases k,
{
    if k > 0 {
        lemma_few_in_use(files, k - 1);
    }
}

/// The entries of a list of files take `FILE_META_SIZE` bytes each.
proof fn lemma_entries_len(files: Seq<FileModel>, fids: Seq<FileID>)
    ensures
        file_entries(files, fids).len() == fids.len() * FILE_META_SIZE,
    decreases fids.len(),
{
    if fids.len() > 0 {
        lemma_entries_len(files, fids.drop_last());
        let m = file_entry(files, fids.last());
        assert(encode_meta(m).len() == FILE_META_SIZE);
        assert(fids.len() * FILE_META_SIZE == (fids.len() - 1) * FILE_META_SIZE + FILE_META_SIZE)
            by (nonlinear_arith);
    }
}

/// Adding a chunk to a meta page does not touch its header.
proof fn lemma_meta_kept(p: Seq<u8>, payload: Seq<u8>)
    requires
        p.len() == PAGE_SIZE,
        meta_end(p) + CHUNK_HEADER_SIZE + payload.len() <= PAGE_SIZE,
    ensures
        meta_header(meta_appended(p, payload)) == meta_header(p),
{
    reveal(meta_header);
    reveal(meta_end);
    reveal(meta_appended);
    let q = meta_appended(p, payload);
    lemma_payload_end(p, META_START as int);
    assert(q[0] == p[0] && q[1] == p[1] && q[2] == p[2] && q[3] == p[3]);
    assert(q.subrange(4, 8) =~= p.subrange(4, 8));
}

/// The chunks of a page end behind their start.
proof fn lemma_payload_end(p: Seq<u8>, off: int)
    requires
        0 <= off,
    ensures
        payload_end(p, off) >= off,
    decreases p.len() - off,
{
    if let ChunkSlot::Chunk(len) = chunk_slot(p, off) {
        lemma_payload_end(p, off + CHUNK_HEADER_SIZE + len);
    }
}

/// Writing the entries of files fails exactly if the meta page cannot be read, or it has no room
/// for them and there is no sequence number for a new one. Nothing is then written, and no file
/// changes.
pub proof fn law_write_entries_fails(st: Store, fids: Seq<FileID>)
    ensures
        ({
            let (st1, r) = write_meta(st, fids);
            &&& r is Err <==> !meta_readable(st) || (!meta_fits(st, fids.len() as int)
                && st.meta_seq == u32::MAX)
            &&& r is Err ==> st1.flash == st.flash && st1.files == st.files && st1.meta_page
                == st.meta_page && st1.meta_seq == st.meta_seq
            &&& !meta_readable(st) ==> st1 == st
        }),
{
}

} // verus!
