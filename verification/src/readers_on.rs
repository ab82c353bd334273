//! Readers that stay in use while files are written to, and readers of damaged files.

use vstd::prelude::*;

use crate::chain::{file_ok, file_run, lemma_run_last, lemma_run_page};
use crate::commit_laws::{asked, dropped, law_commit_writer, law_truncate, law_truncate_some};
use crate::commits::{law_commit_sound, lemma_commit_steps};
use crate::config::{FileID, FILE_COUNT, PAGE_COUNT};
use crate::durability::{added, committable};
use crate::headers::{data_header, data_payload, PAGE_MAX_PAYLOAD_SIZE};
use crate::mount_laws::lemma_write_meta_sound;
use crate::page::ReadError;
use crate::read_laws::{on_page, reader_at};
use crate::reader::{go_to, moved, read_bytes, reader_seq, skip_bytes, ReaderModel};
use crate::readers::{law_truncate_reader, left_on_page, stands_at, used_up};
use crate::sound::{file_bytes, in_file, lemma_in_file_used, pages_of, run_has, sound};
use crate::store::{
    find_page, meta_fits, meta_readable, truncate_some, write_meta, FileModel, Store,
};
use crate::write_laws::{lemma_flush, target, target_run};
use crate::writer::{
    commit_all, commit_first, commit_list, commit_ready, commit_writer, flush, WriterModel,
};
use crate::Error;

verus! {

/// Whether a page has the byte with a sequence number.
pub open spec fn page_holds(p: Seq<u8>, seq: int) -> bool {
    data_header(p) is Some && data_payload(p) is Some && data_header(p)->0.seq <= seq
        < data_header(p)->0.seq + data_payload(p)->0.len()
}

/// A reader of the byte with a sequence number, on a page that has it.
pub open spec fn reader_on(fl: Seq<Seq<u8>>, page: u16, seq: u32) -> ReaderModel {
    ReaderModel::Reading { seq, page, pos: seq - data_header(fl[page as int])->0.seq }
}

/// Moving a reader to a byte, whatever the device holds. Beyond the end it fails and leaves the
/// reader where it is; outside of the file otherwise, the reader is finished. A byte of the file
/// is looked for from the last page. If the page where the search ends has the byte, the reader
/// is put there; if it does not, or the search fails, the reader stays where it is.
pub proof fn law_seek_any(fl: Seq<Seq<u8>>, f: FileModel, s: ReaderModel, seq: int)
    requires
        0 <= seq,
    ensures
        ({
            let (t, r) = go_to(fl, f, s, seq);
            if seq > f.end {
                t == s && r == Err::<(), ReadError>(ReadError::Eof)
            } else if f.last is None || seq < f.first || seq == f.end {
                t is Finished && r == Ok::<(), ReadError>(())
            } else {
                match find_page(fl, f.last->0, seq as u32) {
                    Ok(pp) => {
                        &&& page_holds(fl[pp.page as int], seq) ==> t == reader_on(
                            fl,
                            pp.page,
                            seq as u32,
                        ) && r == Ok::<(), ReadError>(())
                        &&& !page_holds(fl[pp.page as int], seq) && (data_header(
                            fl[pp.page as int],
                        ) matches Some(h) ==> h.seq <= seq) ==> t == s && r == Err::<
                            (),
                            ReadError,
                        >(ReadError::Corrupted)
                    },
                    Err(_) => t == s && r == Err::<(), ReadError>(ReadError::Corrupted),
                }
            }
        }),
{
}

/// A reader that needs a page reads as a reader that has been moved to its byte. If it cannot be
/// moved there, the read gets nothing, and leaves the reader where it is.
pub proof fn law_read_moves_on(fl: Seq<Seq<u8>>, f: FileModel, s: ReaderModel, n: int)
    requires
        s is Created || used_up(fl, s),
        reader_seq(f, s) < f.end,
        0 < n,
    ensures
        ({
            let (t, r) = go_to(fl, f, s, reader_seq(f, s));
            let out = read_bytes(fl, f, s, n);
            &&& r is Ok && t is Reading ==> t->Reading_seq == reader_seq(f, s) && out == read_bytes(
                fl,
                f,
                t,
                n,
            )
            &&& r is Ok && t is Finished ==> out.result == Err::<(), ReadError>(ReadError::Eof)
                && out.bytes == Seq::<u8>::empty() && out.state is Finished
            &&& r is Err ==> out.result == Err::<(), ReadError>(ReadError::Corrupted) && out.bytes
                == Seq::<u8>::empty() && out.state == s
        }),
{
}

/// Skipping more than is left on the page is moving to the byte that many bytes further on,
/// whatever the device holds.
pub proof fn law_skip_beyond(fl: Seq<Seq<u8>>, f: FileModel, s: ReaderModel, n: int)
    requires
        s !is Finished,
        s is Reading ==> data_payload(fl[s->Reading_page as int]) is Some && s->Reading_pos >= 0,
        left_on_page(fl, s) < n,
        reader_seq(f, s) + left_on_page(fl, s) <= u32::MAX,
    ensures
        skip_bytes(fl, f, s, n) == go_to(
            fl,
            f,
            moved(
                s,
                if n < PAGE_MAX_PAYLOAD_SIZE {
                    left_on_page(fl, s)
                } else {
                    0
                },
            ),
            reader_seq(f, s) + n,
        ),
{
}

/// Where a reader is stays the same as long as the pages of its file and its own page do.
proof fn lemma_reader_frame(
    fl: Seq<Seq<u8>>,
    fl1: Seq<Seq<u8>>,
    f: FileModel,
    s: ReaderModel,
    off: int,
)
    requires
        file_ok(fl, f),
        stands_at(fl, f, s, off),
        file_run(fl1, f) == file_run(fl, f),
        forall|k: int|
            #![trigger file_run(fl, f)[k]]
            0 <= k < file_run(fl, f).len() ==> fl1[file_run(fl, f)[k].page as int]
                == fl[file_run(fl, f)[k].page as int],
        s is Reading ==> fl1[s->Reading_page as int] == fl[s->Reading_page as int],
    ensures
        stands_at(fl1, f, s, off),
{
    reveal(reader_at);
    if s is Reading && reader_at(fl, f, s, off) {
        let k = choose|k: int| #[trigger] on_page(fl, f, s, k);
        assert(file_run(fl, f)[k] == file_run(fl1, f)[k]);
        assert(on_page(fl1, f, s, k));
    }
}

/// Committing a writer leaves readers where they are.
proof fn lemma_commit_reader(st: Store, w: WriterModel, fid: int, s: ReaderModel, off: int)
    requires
        sound(st),
        committable(st, Some(w)),
        0 <= fid < FILE_COUNT,
        stands_at(st.flash, st.files[fid], s, off),
        s !is Finished,
        s is Reading ==> st.files[fid].last is Some,
        s is Reading ==> commit_writer(st, w).0.flash[s->Reading_page as int]
            == st.flash[s->Reading_page as int],
    ensures
        ({
            let st1 = commit_writer(st, w).0;
            stands_at(st1.flash, st1.files[fid], s, off)
        }),
{
    let (st1, w1, r1) = commit_writer(st, w);
    let f = st.files[fid];
    let f1 = st1.files[fid];
    let run = pages_of(st, fid);
    let run1 = pages_of(st1, fid);
    law_commit_writer(st, w);
    assert(file_ok(st.flash, f));
    reveal(reader_at);
    if s is Reading {
        lemma_run_last(st.flash, f);
        assert(file_ok(st1.flash, f1));
        if fid == w.fid && w.page is Some {
            let (stf, wf, rf) = flush(st, w);
            lemma_flush(st, w);
            assert(target(stf, wf) == f1);
            assert(run1 == target_run(stf, wf));
            assert(pages_of(stf, fid) == run);
            assert(run1.subrange(0, run.len() as int) == run);
            lemma_run_last(st1.flash, f1);
            if reader_at(st.flash, f, s, off) {
                let k = choose|k: int| #[trigger] on_page(st.flash, f, s, k);
                assert(run1.subrange(0, run.len() as int)[k] == run1[k]);
                lemma_run_page(st1.flash, f1, k);
                assert(on_page(st1.flash, f1, s, k));
            }
            let n = run.len() as int;
            assert(run1.subrange(0, n)[n - 1] == run1[n - 1]);
            lemma_run_page(st1.flash, f1, n - 1);
            lemma_run_page(st.flash, f, n - 1);
        } else {
            assert(f1 == f);
            assert(file_bytes(st1, fid) == file_bytes(st, fid));
            if reader_at(st.flash, f, s, off) {
                let k = choose|k: int| #[trigger] on_page(st.flash, f, s, k);
                assert(run1 == run);
                assert(on_page(st1.flash, f1, s, k));
            }
        }
    }
}

/// Dropping bytes from the front of files leaves readers where they are.
proof fn lemma_drop_reader(
    st: Store,
    list: Seq<(FileID, usize)>,
    k: int,
    fid: int,
    s: ReaderModel,
    off: int,
)
    requires
        sound(st),
        0 <= k <= list.len(),
        forall|i: int| 0 <= i < list.len() ==> (#[trigger] list[i]).0 < FILE_COUNT,
        0 <= fid < FILE_COUNT,
        stands_at(st.flash, st.files[fid], s, off),
        asked(list, k, fid) <= off,
    ensures
        ({
            let st1 = truncate_some(st, list, k).0;
            &&& sound(st1)
            &&& st1.flash == st.flash
            &&& stands_at(st1.flash, st1.files[fid], s, off - asked(list, k, fid))
        }),
    decreases k,
{
    if k > 0 {
        lemma_drop_reader(st, list, k - 1, fid, s, off);
        let st1 = truncate_some(st, list, k - 1).0;
        let b = list[k - 1].0 as int;
        let n = list[k - 1].1 as int;
        law_truncate_some(st, list, k - 1);
        law_truncate(st1, b, n);
        if b == fid {
            law_truncate_reader(st1, fid, n, s, off - asked(list, k - 1, fid));
        }
    }
}

/// A commit leaves the readers of a file where they are, less the bytes that it drops from the
/// front of the file, as long as those have been read. A reader goes on to what the commit has
/// added. This does not hold of a reader that has come to the end already, nor of one whose page
/// the commit has put to another use.
pub proof fn law_commit_reader(
    st: Store,
    w: Option<WriterModel>,
    truncate: Seq<(FileID, usize)>,
    fid: int,
    s: ReaderModel,
    off: int,
)
    requires
        sound(st),
        meta_readable(st),
        committable(st, w),
        commit_ready(st, w, truncate),
        meta_fits(st, commit_list(w, truncate).len() as int) || st.meta_seq < u32::MAX,
        0 <= fid < FILE_COUNT,
        stands_at(st.flash, st.files[fid], s, off),
        s !is Finished,
        s is Reading ==> st.files[fid].last is Some && s->Reading_page < PAGE_COUNT,
        asked(truncate, truncate.len() as int, fid) <= off,
        s is Reading ==> commit_first(st, w).0.flash[s->Reading_page as int]
            == st.flash[s->Reading_page as int] && commit_all(
            st,
            w,
            truncate,
        ).0.flash[s->Reading_page as int] == st.flash[s->Reading_page as int],
    ensures
        ({
            let (st3, w3, r) = commit_all(st, w, truncate);
            let gone = asked(truncate, truncate.len() as int, fid);
            &&& r == Ok::<(), Error>(())
            &&& file_ok(st3.flash, st3.files[fid])
            &&& stands_at(st3.flash, st3.files[fid], s, off - gone)
            &&& file_bytes(st3, fid) == dropped(file_bytes(st, fid) + added(st, w, fid), gone)
        }),
{
    let n = truncate.len() as int;
    let st1 = commit_first(st, w).0;
    let st2 = truncate_some(st1, truncate, n).0;
    let list = commit_list(w, truncate);
    let st3 = write_meta(st2, list).0;
    law_commit_sound(st, w, truncate);
    lemma_commit_steps(st, w, truncate);
    if let Some(x) = w {
        lemma_commit_reader(st, x, fid, s, off);
    }
    lemma_drop_reader(st1, truncate, n, fid, s, off);
    lemma_write_meta_sound(st2, list);
    let f = st2.files[fid];
    let run = pages_of(st2, fid);
    assert(file_ok(st2.flash, f));
    assert(file_ok(st3.flash, st3.files[fid]));
    assert(pages_of(st3, fid) == run);
    assert forall|k: int|
        #![trigger file_run(st2.flash, f)[k]]
        0 <= k < run.len() implies st3.flash[run[k].page as int]
        == st2.flash[run[k].page as int] by {
        let p = run[k].page as int;
        assert(run_has(pages_of(st2, fid), p));
        assert(in_file(st2, p));
        lemma_in_file_used(st2, p);
        assert(run_has(pages_of(st3, fid), p));
        assert(in_file(st3, p));
        lemma_in_file_used(st3, p);
    }
    lemma_reader_frame(st2.flash, st3.flash, f, s, off - asked(truncate, n, fid));
}

} // verus!
