//! What writing to a file does.

use vstd::prelude::*;

use crate::allocator::{has_free, lowest_free};
use crate::chain::{
    contents, file_ok, file_run, lemma_contents_len, lemma_empty_file, lemma_file_frame,
    lemma_file_ok_of_run, lemma_run_bytes, lemma_run_bytes_frame, lemma_run_last, lemma_run_page,
    lemma_run_start, page_end, page_ok, payload, run_bytes, run_holds, run_ok, skip_ok,
};
use crate::config::{FileID, FILE_COUNT, PAGE_COUNT, SKIPLIST_LEN};
use crate::flash::flash_shape;
use crate::headers::{data_image, lemma_data_image, meta_header, PAGE_MAX_PAYLOAD_SIZE};
use crate::seqnum::{lemma_skip_target, lemma_skip_target_same, skip_target};
use crate::sound::{
    file_bytes, in_file, lemma_fresh_page, lemma_in_file_used, lemma_sound_frame, pages_of, run_has,
    sound,
};
use crate::store::{ptr_wf, FileModel, Ptr, Store};
use crate::writer::{
    append, append_has_space, fitting, flush, make_room, new_writer, next_page, next_skiplist,
    page_header_model, WriterModel,
};
use crate::Error;

verus! {

/// The file that a writer is making, as far as its pages are complete.
pub open spec fn target(st: Store, w: WriterModel) -> FileModel {
    FileModel { last: w.last, first: st.files[w.fid as int].first, end: w.seq }
}

/// The pages of that file.
pub open spec fn target_run(st: Store, w: WriterModel) -> Seq<Ptr> {
    file_run(st.flash, target(st, w))
}

/// Whether a page is one that the writer has taken and not yet committed.
pub open spec fn writer_has(st: Store, w: WriterModel, p: int) -> bool {
    ||| w.page is Some && w.page->0.page == p
    ||| run_has(target_run(st, w), p) && !run_has(pages_of(st, w.fid as int), p)
}

/// Whether a writer continues the file as it is, on pages of its own.
pub open spec fn writer_ok(st: Store, w: WriterModel) -> bool {
    &&& w.shape()
    &&& file_ok(st.flash, target(st, w))
    &&& pages_of(st, w.fid as int).len() <= target_run(st, w).len()
    &&& target_run(st, w).subrange(0, pages_of(st, w.fid as int).len() as int) == pages_of(
        st,
        w.fid as int,
    )
    &&& forall|p: int| #[trigger]
        writer_has(st, w, p) ==> 0 <= p < PAGE_COUNT && st.used[p] && p != st.meta_page && !in_file(
            st,
            p,
        )
    &&& w.page matches Some(op) ==> !run_has(target_run(st, w), op.page as int)
}

/// Whether a writer has nothing to commit, or has it in a page that is being filled. This is so
/// of every writer that has only been written to.
pub open spec fn writer_open(st: Store, w: WriterModel) -> bool {
    &&& w.wf()
    &&& w.page is None ==> target(st, w) == st.files[w.fid as int]
}

/// What has been written and not been committed.
pub open spec fn written(st: Store, w: WriterModel) -> Seq<u8> {
    contents(st.flash, target(st, w)).skip(file_bytes(st, w.fid as int).len() as int)
        + w.buffered()
}

/// Appending a page to a run keeps it a run.
proof fn lemma_run_push(
    fl: Seq<Seq<u8>>,
    fl2: Seq<Seq<u8>>,
    run: Seq<Ptr>,
    first: u32,
    end: u32,
    pp: Ptr,
)
    requires
        run_ok(fl, run, first, end),
        forall|k: int|
            #![trigger run[k]]
            0 <= k < run.len() ==> fl2[run[k].page as int] == fl[run[k].page as int],
        page_ok(fl2, pp),
        pp.header.seq == end,
        pp.header.skiplist == next_skiplist(Some(run.last()), end),
    ensures
        run_ok(fl2, run.push(pp), first, page_end(fl2, pp) as u32),
{
    let run2 = run.push(pp);
    let n = run.len() as int;
    assert forall|i: int| 0 <= i < run2.len() implies page_ok(fl2, #[trigger] run2[i]) by {
        if i < n {
            assert(run2[i] == run[i]);
            assert(page_ok(fl, run[i]));
        }
    }
    assert forall|i: int|
        #![trigger run2[i]]
        0 <= i < run2.len() - 1 implies page_end(fl2, run2[i]) == run2[i + 1].header.seq by {
        assert(run2[i] == run[i]);
        assert(page_ok(fl, run[i]));
        if i < n - 1 {
            assert(run2[i + 1] == run[i + 1]);
        } else {
            assert(run[i] == run.last());
        }
    }
    assert(run2[0] == run[0]);
    assert(page_ok(fl, run[0]));
    assert forall|i: int, j: int| 0 <= i < run2.len() && 0 <= j < SKIPLIST_LEN implies skip_ok(
        run2,
        i,
        j,
    ) by {
        let seq = run2[i].header.seq;
        let t = skip_target(seq, j);
        if seq > 0 && t >= run2[0].header.seq {
            if i < n {
                assert(run2[i] == run[i]);
                assert(skip_ok(run, i, j));
                let k = choose|k: int|
                    0 <= k < i && #[trigger] run_holds(run, k, t) && run[i].header.skiplist[j]
                        == run[k].page;
                assert(run2[k] == run[k] && run2[k + 1] == run[k + 1]);
                assert(run_holds(run2, k, t));
            } else {
                let last = run.last();
                assert(last == run[n - 1]);
                assert(page_ok(fl, run[n - 1]));
                lemma_skip_target(seq, j);
                if t >= last.header.seq {
                    assert(run_holds(run2, n - 1, t));
                    assert(run2[n - 1].page == run2[i].header.skiplist[j]);
                } else {
                    lemma_skip_target_same(last.header.seq, seq, j);
                    assert(skip_ok(run, n - 1, j));
                    let k = choose|k: int|
                        0 <= k < n - 1 && #[trigger] run_holds(run, k, t) && run[n
                            - 1].header.skiplist[j] == run[k].page;
                    assert(run2[k] == run[k] && run2[k + 1] == run[k + 1]);
                    assert(run_holds(run2, k, t));
                }
            }
        }
    }
}

/// Completing a page adds its bytes to the file that the writer is making.
pub proof fn lemma_target_flush(st: Store, w: WriterModel)
    requires
        st.wf(),
        w.wf(),
        w.page is Some,
        w.seq + w.page->0.buf.len() <= u32::MAX,
        file_ok(st.flash, target(st, w)),
        !run_has(target_run(st, w), w.page->0.page as int),
    ensures
        ({
            let (st1, w1, r) = flush(st, w);
            let pp = w1.last->0;
            &&& r is Ok
            &&& flash_shape(st1.flash)
            &&& file_ok(st1.flash, target(st1, w1))
            &&& target_run(st1, w1) == target_run(st, w).push(pp)
            &&& pp.page == w.page->0.page
            &&& contents(st1.flash, target(st1, w1)) == contents(st.flash, target(st, w))
                + w.page->0.buf
            &&& meta_header(st1.flash[pp.page as int]) is None
        }),
{
    let (st1, w1, r) = flush(st, w);
    let op = w.page->0;
    let header = page_header_model(w);
    let pp = Ptr { page: op.page, header };
    let g = target(st, w);
    let g1 = target(st1, w1);
    let run = file_run(st.flash, g);
    lemma_data_image(header, op.buf);
    assert(st1.flash[op.page as int] == data_image(header, op.buf));
    assert(page_ok(st1.flash, pp));
    assert(payload(st1.flash, pp) == op.buf);
    let run1 = run.push(pp);
    assert forall|k: int|
        #![trigger run[k]]
        0 <= k < run.len() implies st1.flash[run[k].page as int]
        == st.flash[run[k].page as int] by {
        lemma_run_page(st.flash, g, k);
        assert(run[k].page != op.page);
    }
    if g.last is None {
        lemma_empty_file(st.flash, g);
        assert(run1 =~= seq![pp]);
        assert forall|i: int, j: int|
            0 <= i < run1.len() && 0 <= j < SKIPLIST_LEN implies skip_ok(run1, i, j) by {
            assert(run1[i].header.seq == 0);
        }
        assert(run_ok(st1.flash, run1, g1.first, g1.end));
    } else {
        lemma_run_last(st.flash, g);
        lemma_run_push(st.flash, st1.flash, run, g.first, g.end, pp);
    }
    lemma_file_ok_of_run(st1.flash, g1, run1);
    reveal(contents);
    assert(run1.drop_last() =~= run);
    lemma_run_bytes_frame(st.flash, st1.flash, run);
    let bytes = run_bytes(st.flash, run);
    assert(run_bytes(st1.flash, run1) == bytes + op.buf);
    if g.last is None {
        assert(bytes + op.buf =~= op.buf);
        assert(contents(st1.flash, g1) =~= contents(st.flash, g) + op.buf);
    } else {
        lemma_contents_len(st.flash, g);
        lemma_run_start(st.flash, g);
        lemma_run_bytes(st.flash, run, run.len() as int);
        assert(run.subrange(0, run.len() as int) =~= run);
        assert(run1[0] == run[0]);
        assert(contents(st1.flash, g1) =~= contents(st.flash, g) + op.buf);
    }
}

/// What writing leaves alone: the tables of the files, the meta page, and every page in use but
/// the one that the writer is filling. What it does write is no meta page.
pub open spec fn write_frame(st: Store, w: WriterModel, st1: Store, w1: WriterModel) -> bool {
    &&& st1.files == st.files
    &&& st1.meta_page == st.meta_page
    &&& st1.meta_seq == st.meta_seq
    &&& w1.fid == w.fid
    &&& forall|p: int| 0 <= p < PAGE_COUNT && st.used[p] ==> #[trigger] st1.used[p]
    &&& forall|p: int|
        0 <= p < PAGE_COUNT && #[trigger] st1.used[p] && !st.used[p] ==> writer_has(st1, w1, p)
    &&& forall|p: int|
        0 <= p < PAGE_COUNT && #[trigger] st1.flash[p] != st.flash[p] ==> (!st.used[p] || (w.page
            is Some && w.page->0.page == p)) && meta_header(st1.flash[p]) is None
    &&& forall|p: int| #[trigger] writer_has(st, w, p) ==> writer_has(st1, w1, p)
    &&& forall|p: int| #[trigger]
        writer_has(st1, w1, p) ==> writer_has(st, w, p) || !st.used[p]
    &&& w1.page matches Some(op) ==> !st.used[op.page as int] || (w.page is Some && w.page->0.page
        == op.page)
}

/// Completing a page, for a sound store.
pub proof fn lemma_flush(st: Store, w: WriterModel)
    requires
        sound(st),
        writer_ok(st, w),
        w.wf(),
        w.page is Some,
        w.seq + w.page->0.buf.len() <= u32::MAX,
    ensures
        ({
            let (st1, w1, r) = flush(st, w);
            &&& r is Ok
            &&& sound(st1)
            &&& writer_ok(st1, w1)
            &&& w1.page is None
            &&& w1.position() == w.position()
            &&& written(st1, w1) == written(st, w)
            &&& write_frame(st, w, st1, w1)
            &&& st1.used == st.used
            &&& forall|fid: int|
                0 <= fid < FILE_COUNT ==> #[trigger] file_bytes(st1, fid) == file_bytes(st, fid)
            &&& forall|fid: int|
                0 <= fid < FILE_COUNT ==> #[trigger] pages_of(st1, fid) == pages_of(st, fid)
            &&& forall|p: int| #[trigger] writer_has(st1, w1, p) <==> writer_has(st, w, p)
        }),
{
    let (st1, w1, r) = flush(st, w);
    let op = w.page->0;
    let fid = w.fid as int;
    lemma_target_flush(st, w);
    assert(writer_has(st, w, op.page as int));
    assert forall|p: int|
        0 <= p < PAGE_COUNT && #[trigger] st1.flash[p] != st.flash[p] implies !in_file(st, p) by {
        assert(p == op.page);
    }
    assert forall|p: int| 0 <= p < PAGE_COUNT && in_file(st, p) implies #[trigger] st1.used[p] by {
        lemma_in_file_used(st, p);
    }
    if in_file(st, st1.meta_page as int) {
        lemma_in_file_used(st, st1.meta_page as int);
    }
    lemma_sound_frame(st, st1);
    let run = target_run(st, w);
    let run1 = target_run(st1, w1);
    let base = pages_of(st, fid);
    assert(pages_of(st1, fid) == base);
    assert(run1.subrange(0, base.len() as int) =~= run.subrange(0, base.len() as int));
    assert forall|p: int| #[trigger] run_has(run1, p) <==> run_has(run, p) || p == op.page by {
        if run_has(run, p) {
            let k = choose|k: int| 0 <= k < run.len() && (#[trigger] run[k]).page == p;
            assert(run1[k].page == p);
        }
        if run_has(run1, p) {
            let k = choose|k: int| 0 <= k < run1.len() && (#[trigger] run1[k]).page == p;
            if k < run.len() {
                assert(run[k].page == p);
            }
        }
        if p == op.page {
            assert(run1[run.len() as int].page == p);
        }
    }
    assert(!run_has(base, op.page as int)) by {
        assert(!in_file(st, op.page as int));
    }
    assert forall|p: int| #[trigger] writer_has(st1, w1, p) <==> writer_has(st, w, p) by {
        assert(run_has(run1, p) <==> run_has(run, p) || p == op.page);
    }
    assert forall|p: int| #[trigger] writer_has(st1, w1, p) implies 0 <= p < PAGE_COUNT
        && st1.used[p] && p != st1.meta_page && !in_file(st1, p) by {
        assert(writer_has(st, w, p));
        if in_file(st1, p) {
            let b = choose|b: int| 0 <= b < FILE_COUNT && #[trigger] run_has(pages_of(st1, b), p);
            assert(pages_of(st1, b) == pages_of(st, b));
            assert(run_has(pages_of(st, b), p));
            assert(in_file(st, p));
        }
    }
    let c = contents(st.flash, target(st, w));
    let n = file_bytes(st, fid).len() as int;
    assert(file_bytes(st1, fid) == file_bytes(st, fid));
    lemma_prefix_contents(st, w);
    assert((c + op.buf).skip(n) + Seq::<u8>::empty() =~= c.skip(n) + op.buf);
}

/// The bytes of the file come first in the file that the writer is making.
pub proof fn lemma_prefix_contents(st: Store, w: WriterModel)
    requires
        sound(st),
        writer_ok(st, w),
    ensures
        ({
            let c = contents(st.flash, target(st, w));
            let b = file_bytes(st, w.fid as int);
            &&& b.len() <= c.len()
            &&& c.subrange(0, b.len() as int) == b
            &&& c == b + c.skip(b.len() as int)
        }),
{
    let fid = w.fid as int;
    let f = st.files[fid];
    let g = target(st, w);
    let c = contents(st.flash, g);
    let b = file_bytes(st, fid);
    let run = pages_of(st, fid);
    let run1 = target_run(st, w);
    assert(file_ok(st.flash, f));
    if f.last is None {
        lemma_empty_file(st.flash, f);
        assert(c.subrange(0, 0) =~= b);
    } else {
        lemma_run_last(st.flash, f);
        lemma_run_start(st.flash, f);
        if g.last is None {
            lemma_empty_file(st.flash, g);
        }
        lemma_run_last(st.flash, g);
        lemma_run_start(st.flash, g);
        lemma_contents_len(st.flash, f);
        lemma_contents_len(st.flash, g);
        assert(run1[0] == run1.subrange(0, run.len() as int)[0]);
        lemma_run_bytes_prefix(st.flash, run1, run.len() as int);
        lemma_run_page(st.flash, g, run.len() - 1);
        assert(run1[run.len() - 1] == run1.subrange(0, run.len() as int)[run.len() - 1]);
        reveal(contents);
        lemma_run_bytes(st.flash, run, run.len() as int);
        assert(run.subrange(0, run.len() as int) =~= run);
        assert(c.subrange(0, b.len() as int) =~= b);
    }
    assert(c =~= b + c.skip(b.len() as int));
}

/// The bytes of the first pages of a run come first.
proof fn lemma_run_bytes_prefix(fl: Seq<Seq<u8>>, run: Seq<Ptr>, n: int)
    requires
        0 <= n <= run.len(),
    ensures
        run_bytes(fl, run.subrange(0, n)).len() <= run_bytes(fl, run).len(),
        run_bytes(fl, run).subrange(0, run_bytes(fl, run.subrange(0, n)).len() as int)
            == run_bytes(fl, run.subrange(0, n)),
    decreases run.len(),
{
    let a = run_bytes(fl, run.subrange(0, n));
    if n == run.len() {
        assert(run.subrange(0, n) =~= run);
        assert(a.subrange(0, a.len() as int) =~= a);
    } else {
        let d = run.drop_last();
        lemma_run_bytes_prefix(fl, d, n);
        assert(d.subrange(0, n) =~= run.subrange(0, n));
        assert(run_bytes(fl, run).subrange(0, a.len() as int) =~= run_bytes(fl, d).subrange(
            0,
            a.len() as int,
        ));
    }
}

/// The position of a writer is the end of the file and of what has been written.
pub proof fn law_position(st: Store, w: WriterModel)
    requires
        sound(st),
        writer_ok(st, w),
    ensures
        w.position() == st.files[w.fid as int].end + written(st, w).len(),
{
    lemma_prefix_contents(st, w);
    lemma_contents_len(st.flash, target(st, w));
    assert(file_ok(st.flash, st.files[w.fid as int]));
    lemma_contents_len(st.flash, st.files[w.fid as int]);
}

/// A new writer continues the file as it is, and has written nothing.
pub proof fn law_new_writer(st: Store, fid: FileID)
    requires
        sound(st),
        fid < FILE_COUNT,
    ensures
        writer_ok(st, new_writer(st, fid)),
        written(st, new_writer(st, fid)) == Seq::<u8>::empty(),
        writer_open(st, new_writer(st, fid)),
{
    let w = new_writer(st, fid);
    let f = st.files[fid as int];
    assert(file_ok(st.flash, f));
    assert(ptr_wf(f.last));
    if f.last is Some {
        lemma_run_last(st.flash, f);
    }
    lemma_idle_writer(st, w);
}

proof fn lemma_frame_trans(
    st: Store,
    w: WriterModel,
    st1: Store,
    w1: WriterModel,
    st2: Store,
    w2: WriterModel,
)
    requires
        write_frame(st, w, st1, w1),
        write_frame(st1, w1, st2, w2),
        w1.page matches Some(op) ==> 0 <= op.page < PAGE_COUNT,
        w2.page matches Some(op) ==> 0 <= op.page < PAGE_COUNT,
        forall|p: int| #[trigger] writer_has(st2, w2, p) ==> 0 <= p < PAGE_COUNT,
    ensures
        write_frame(st, w, st2, w2),
{
    assert forall|p: int|
        0 <= p < PAGE_COUNT && #[trigger] st2.flash[p] != st.flash[p] implies (!st.used[p] || (
    w.page is Some && w.page->0.page == p)) && meta_header(st2.flash[p]) is None by {
        if st2.flash[p] != st1.flash[p] {
            assert(!st1.used[p] || (w1.page is Some && w1.page->0.page == p));
            if st.used[p] {
                assert(st1.used[p]);
            }
        } else {
            assert(st1.flash[p] != st.flash[p]);
        }
    }
    assert forall|p: int| 0 <= p < PAGE_COUNT && #[trigger] st2.used[p] && !st.used[p] implies
        writer_has(st2, w2, p) by {
        if st1.used[p] {
            assert(writer_has(st1, w1, p));
        }
    }
    assert forall|p: int| 0 <= p < PAGE_COUNT && st.used[p] implies #[trigger] st2.used[p] by {
        assert(st1.used[p]);
    }
    assert forall|p: int| #[trigger] writer_has(st, w, p) implies writer_has(st2, w2, p) by {
        assert(writer_has(st1, w1, p));
    }
    assert forall|p: int| #[trigger] writer_has(st2, w2, p) implies writer_has(st, w, p)
        || !st.used[p] by {
        if st.used[p] {
            assert(st1.used[p]);
            assert(writer_has(st1, w1, p));
        }
    }
    if let Some(op) = w2.page {
        let p = op.page as int;
        if st.used[p] {
            assert(st1.used[p]);
        }
    }
}

/// Opening a new page, for a sound store.
proof fn lemma_open_page(st: Store, w: WriterModel)
    requires
        sound(st),
        writer_ok(st, w),
        w.page is None,
        has_free(st.used),
    ensures
        ({
            let (st1, w1, r) = next_page(st, w);
            &&& r is Ok
            &&& sound(st1)
            &&& writer_ok(st1, w1)
            &&& w1.page is Some
            &&& w1.page->0.buf.len() == 0
            &&& w1.position() == w.position()
            &&& written(st1, w1) == written(st, w)
            &&& write_frame(st, w, st1, w1)
            &&& forall|fid: int|
                0 <= fid < FILE_COUNT ==> #[trigger] file_bytes(st1, fid) == file_bytes(st, fid)
            &&& forall|fid: int|
                0 <= fid < FILE_COUNT ==> #[trigger] pages_of(st1, fid) == pages_of(st, fid)
        }),
{
    let (st1, w1, r) = next_page(st, w);
    lemma_fresh_page(st);
    let page = lowest_free(st.used);
    assert forall|p: int| 0 <= p < PAGE_COUNT && in_file(st, p) implies #[trigger] st1.used[p] by {
        lemma_in_file_used(st, p);
    }
    if in_file(st, st1.meta_page as int) {
        lemma_in_file_used(st, st1.meta_page as int);
    }
    lemma_sound_frame(st, st1);
    let fid = w.fid as int;
    assert(target(st1, w1) == target(st, w));
    assert(target_run(st1, w1) == target_run(st, w));
    assert(pages_of(st1, fid) == pages_of(st, fid));
    assert(!run_has(target_run(st, w), page)) by {
        if run_has(target_run(st, w), page) {
            if run_has(pages_of(st, fid), page) {
                assert(in_file(st, page));
            } else {
                assert(writer_has(st, w, page));
            }
        }
    }
    assert forall|p: int| #[trigger] writer_has(st1, w1, p) implies 0 <= p < PAGE_COUNT
        && st1.used[p] && p != st1.meta_page && !in_file(st1, p) by {
        if p != page {
            assert(writer_has(st, w, p));
        }
        if in_file(st1, p) {
            let b = choose|b: int| 0 <= b < FILE_COUNT && #[trigger] run_has(pages_of(st1, b), p);
            assert(pages_of(st1, b) == pages_of(st, b));
            assert(run_has(pages_of(st, b), p));
            assert(in_file(st, p));
        }
    }
    assert forall|p: int| #[trigger] writer_has(st, w, p) implies writer_has(st1, w1, p) by {}
    assert(file_bytes(st1, fid) == file_bytes(st, fid));
    assert(written(st1, w1) =~= written(st, w));
    assert forall|p: int| 0 <= p < PAGE_COUNT && #[trigger] st1.used[p] && !st.used[p] implies
        writer_has(st1, w1, p) by {
        assert(p == page);
    }
}

/// Putting bytes into the page that is being filled.
pub proof fn lemma_fill(st: Store, w: WriterModel, data: Seq<u8>)
    requires
        sound(st),
        writer_ok(st, w),
        w.page is Some,
        w.page->0.buf.len() + data.len() <= PAGE_MAX_PAYLOAD_SIZE,
        data.len() > 0,
    ensures
        ({
            let w1 = w.filled(data);
            &&& writer_ok(st, w1)
            &&& w1.wf()
            &&& w1.position() == w.position() + data.len()
            &&& written(st, w1) == written(st, w) + data
            &&& write_frame(st, w, st, w1)
        }),
{
    let w1 = w.filled(data);
    assert(target(st, w1) == target(st, w));
    assert forall|p: int| #[trigger] writer_has(st, w1, p) <==> writer_has(st, w, p) by {}
    assert(written(st, w1) =~= written(st, w) + data);
}

/// Making room for a byte, for a sound store.
pub proof fn lemma_make_room(st: Store, w: WriterModel)
    requires
        sound(st),
        writer_ok(st, w),
        w.wf(),
        make_room(st, w).2 is Ok,
        w.needs_page() ==> has_free(st.used),
    ensures
        ({
            let (st1, w1, r) = make_room(st, w);
            &&& r is Ok
            &&& sound(st1)
            &&& writer_ok(st1, w1)
            &&& w1.page is Some
            &&& w1.page->0.buf.len() < PAGE_MAX_PAYLOAD_SIZE
            &&& w1.position() == w.position()
            &&& written(st1, w1) == written(st, w)
            &&& write_frame(st, w, st1, w1)
            &&& forall|fid: int|
                0 <= fid < FILE_COUNT ==> #[trigger] file_bytes(st1, fid) == file_bytes(st, fid)
            &&& forall|fid: int|
                0 <= fid < FILE_COUNT ==> #[trigger] pages_of(st1, fid) == pages_of(st, fid)
        }),
{
    let (st2, w2, r2) = make_room(st, w);
    if w.needs_page() {
        if w.page is Some {
            let (st1, w1, r) = flush(st, w);
            lemma_flush(st, w);
            lemma_open_page(st1, w1);
            lemma_frame_trans(st, w, st1, w1, st2, w2);
            assert forall|fid: int| 0 <= fid < FILE_COUNT implies #[trigger] file_bytes(st2, fid)
                == file_bytes(st, fid) by {
                assert(file_bytes(st1, fid) == file_bytes(st, fid));
            }
            assert forall|fid: int| 0 <= fid < FILE_COUNT implies #[trigger] pages_of(st2, fid)
                == pages_of(st, fid) by {
                assert(pages_of(st1, fid) == pages_of(st, fid));
            }
        } else {
            lemma_open_page(st, w);
        }
    }
}

/// What comes of appending bytes to a sound store: what has been written is what had been written
/// before, followed by the bytes, and no file changes.
pub open spec fn appended(
    st: Store,
    w: WriterModel,
    data: Seq<u8>,
    st1: Store,
    w1: WriterModel,
) -> bool {
    &&& sound(st1)
    &&& w1.fid == w.fid
    &&& writer_ok(st1, w1)
    &&& writer_open(st, w) ==> writer_open(st1, w1)
    &&& written(st1, w1) == written(st, w) + data
    &&& st1.files == st.files
    &&& st1.meta_page == st.meta_page
    &&& st1.meta_seq == st.meta_seq
    &&& forall|fid: int|
        0 <= fid < FILE_COUNT ==> #[trigger] file_bytes(st1, fid) == file_bytes(st, fid)
}

/// Appending bytes succeeds as long as there are sequence numbers for them and pages to put them
/// on. When it succeeds, what has been written is what had been written before, followed by the
/// bytes. Until the writer is committed, no file changes.
pub proof fn law_append(st: Store, w: WriterModel, data: Seq<u8>)
    requires
        sound(st),
        writer_ok(st, w),
        w.wf(),
        append_has_space(st, w, data),
        w.position() + data.len() <= u32::MAX || append(st, w, data).2 is Ok,
    ensures
        ({
            let (st1, w1, r) = append(st, w, data);
            &&& r == Ok::<(), Error>(())
            &&& appended(st, w, data, st1, w1)
            &&& w1.wf()
            &&& write_frame(st, w, st1, w1)
            &&& forall|fid: int|
                0 <= fid < FILE_COUNT ==> #[trigger] pages_of(st1, fid) == pages_of(st, fid)
        }),
    decreases data.len(),
{
    let (st3, w3, r3) = append(st, w, data);
    if data.len() == 0 {
        assert(written(st, w) + data =~= written(st, w));
    } else {
        let (st1, w1, r) = make_room(st, w);
        if w.position() + data.len() <= u32::MAX {
            lemma_make_room_ok(st, w);
        }
        lemma_make_room(st, w);
        let n = fitting(w1, data.len() as int);
        let head = data.subrange(0, n);
        let tail = data.subrange(n, data.len() as int);
        let w2 = w1.filled(head);
        lemma_fill(st1, w1, head);
        lemma_frame_trans(st, w, st1, w1, st1, w2);
        law_append(st1, w2, tail);
        lemma_frame_trans(st, w, st1, w2, st3, w3);
        assert(written(st, w) + data =~= (written(st, w) + head) + tail);
        assert forall|fid: int| 0 <= fid < FILE_COUNT implies #[trigger] file_bytes(st3, fid)
            == file_bytes(st, fid) by {
            assert(file_bytes(st1, fid) == file_bytes(st, fid));
        }
        assert forall|fid: int| 0 <= fid < FILE_COUNT implies #[trigger] pages_of(st3, fid)
            == pages_of(st, fid) by {
            assert(pages_of(st1, fid) == pages_of(st, fid));
        }
    }
}

/// There are enough sequence numbers to complete the page that is being filled.
pub proof fn lemma_make_room_ok(st: Store, w: WriterModel)
    requires
        w.wf(),
        w.position() <= u32::MAX,
    ensures
        make_room(st, w).2 is Ok,
{
}

/// A writer is not concerned when the store changes elsewhere.
pub proof fn lemma_writer_frame(st: Store, st1: Store, w: WriterModel)
    requires
        sound(st),
        writer_ok(st, w),
        st1.files[w.fid as int] == st.files[w.fid as int],
        forall|p: int| #[trigger]
            run_has(target_run(st, w), p) ==> st1.flash[p] == st.flash[p],
        forall|p: int| #[trigger]
            writer_has(st, w, p) ==> st1.used[p] && p != st1.meta_page && !in_file(st1, p),
    ensures
        writer_ok(st1, w),
        writer_open(st, w) ==> writer_open(st1, w),
        written(st1, w) == written(st, w),
        target_run(st1, w) == target_run(st, w),
        forall|p: int| #[trigger] writer_has(st1, w, p) <==> writer_has(st, w, p),
{
    let fid = w.fid as int;
    let g = target(st, w);
    let f = st.files[fid];
    let run = target_run(st, w);
    let base = pages_of(st, fid);
    assert(target(st1, w) == g);
    assert(file_ok(st.flash, f));
    assert forall|k: int|
        #![trigger file_run(st.flash, g)[k]]
        0 <= k < run.len() implies st1.flash[run[k].page as int]
        == st.flash[run[k].page as int] by {
        assert(run_has(run, run[k].page as int));
    }
    lemma_file_frame(st.flash, st1.flash, g);
    assert forall|k: int|
        #![trigger file_run(st.flash, f)[k]]
        0 <= k < base.len() implies st1.flash[base[k].page as int]
        == st.flash[base[k].page as int] by {
        assert(run.subrange(0, base.len() as int)[k] == run[k]);
        assert(run_has(run, base[k].page as int));
    }
    lemma_file_frame(st.flash, st1.flash, f);
    assert forall|p: int| #[trigger] writer_has(st1, w, p) <==> writer_has(st, w, p) by {}
}

/// A writer that has nothing to commit and stands at the end of the file.
pub proof fn lemma_idle_writer(st: Store, w: WriterModel)
    requires
        sound(st),
        w.shape(),
        w.page is None,
        target(st, w) == st.files[w.fid as int],
    ensures
        writer_ok(st, w),
        writer_open(st, w),
        written(st, w) == Seq::<u8>::empty(),
{
    let f = st.files[w.fid as int];
    assert(file_ok(st.flash, f));
    let run = pages_of(st, w.fid as int);
    assert(run.subrange(0, run.len() as int) =~= run);
    assert(written(st, w) =~= Seq::empty());
}

} // verus!
