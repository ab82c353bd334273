//! What page headers say of the records of a file.

use vstd::prelude::*;

use crate::allocator::lemma_lowest_free_from;
use crate::chain::{
    file_ok, file_run, lemma_empty_file, lemma_file_frame, lemma_run_last, lemma_run_page, page_end,
    payload,
};
use crate::commit_laws::{law_commit_writer, law_truncate, lemma_truncate_run};
use crate::config::{FileID, FILE_COUNT};
use crate::durability::{committable, law_commit_only};
use crate::flash::flash_shape;
use crate::headers::lemma_data_payload_len;
use crate::mount_laws::durable;
use crate::search_laws::{bound_page, has_boundary, searchable};
use crate::sound::{pages_of, run_has, sound};
use crate::store::{meta_fits, truncate_one, truncate_some, write_meta, FileModel, Ptr, Store};
use crate::types::NO_PAGE;
use crate::write_laws::{
    lemma_fill, lemma_flush, lemma_make_room, lemma_make_room_ok, lemma_target_flush, target,
    target_run, writer_ok, writer_open,
};
use crate::writer::{
    append, append_has_space, commit_all, commit_list, commit_ready, commit_writer, fitting, flush,
    law_record_boundary, make_room, names_first_bound, new_writer, record_ended, WriterModel,
};
use crate::Error;

verus! {

/// Whether a record boundary is among the bytes of a page.
pub open spec fn bound_on(fl: Seq<Seq<u8>>, pp: Ptr, bounds: Set<int>) -> bool {
    exists|x: int| #[trigger] bounds.contains(x) && pp.header.seq <= x < page_end(fl, pp)
}

/// Whether the header of a page has the offset of the first record boundary among its bytes.
pub open spec fn page_marked(fl: Seq<Seq<u8>>, pp: Ptr, bounds: Set<int>) -> bool {
    names_first_bound(pp.header, payload(fl, pp).len() as int, bounds)
}

/// Whether the headers of all pages of a file have the offsets of the record boundaries.
pub open spec fn marked(fl: Seq<Seq<u8>>, f: FileModel, bounds: Set<int>) -> bool {
    &&& file_ok(fl, f)
    &&& forall|i: int|
        0 <= i < file_run(fl, f).len() ==> page_marked(fl, #[trigger] file_run(fl, f)[i], bounds)
}

/// Whether nothing has been dropped from the front of a file.
pub open spec fn whole(fl: Seq<Seq<u8>>, f: FileModel) -> bool {
    f.last is Some ==> file_run(fl, f)[0].header.seq == f.first && file_run(
        fl,
        f,
    )[0].header.skiplist[0] == NO_PAGE
}

/// Whether a writer and the pages that it has completed know of the record boundaries of the
/// file: those in `b` from before, and those that the writer has seen.
pub open spec fn records_ok(st: Store, w: WriterModel, b: Set<int>) -> bool {
    &&& w.bounds_ok()
    &&& marked(st.flash, target(st, w), b.union(w.bounds))
    &&& forall|x: int| #[trigger] b.contains(x) ==> x < w.seq || w.bounds.contains(x)
}

/// A file from which nothing has been dropped, whose pages are marked and which starts with a
/// record, can be searched. Its first page starts with that record.
pub proof fn law_searchable(fl: Seq<Seq<u8>>, f: FileModel, bounds: Set<int>)
    requires
        flash_shape(fl),
        f.last is Some,
        whole(fl, f),
        marked(fl, f, bounds),
        bounds.contains(f.first as int),
    ensures
        searchable(fl, f),
        file_run(fl, f)[0].header.record_boundary == 0,
        forall|i: int|
            0 <= i < file_run(fl, f).len() && has_boundary(#[trigger] file_run(fl, f)[i])
                ==> bounds.contains(
                file_run(fl, f)[i].header.seq + file_run(fl, f)[i].header.record_boundary,
            ),
{
    let run = file_run(fl, f);
    lemma_run_last(fl, f);
    assert forall|i: int| 0 <= i < run.len() && has_boundary(#[trigger] run[i]) implies
        run[i].header.record_boundary < payload(fl, run[i]).len() && bounds.contains(
        run[i].header.seq + run[i].header.record_boundary,
    ) by {
        assert(page_marked(fl, run[i], bounds));
    }
    assert(page_marked(fl, run[0], bounds));
    lemma_run_page(fl, f, 0);
    assert(bound_on(fl, run[0], bounds));
    assert(bound_page(run, 0, f.first as int, f.end as int)) by {
        lemma_data_payload_len(fl[run[0].page as int]);
    }
}

/// More boundaries behind a page do not concern it.
pub proof fn lemma_page_marked(fl: Seq<Seq<u8>>, pp: Ptr, a: Set<int>, b: Set<int>)
    requires
        page_marked(fl, pp, a),
        forall|x: int| pp.header.seq <= x < page_end(fl, pp) ==> (#[trigger] a.contains(x)
            <==> b.contains(x)),
    ensures
        page_marked(fl, pp, b),
{
    if bound_on(fl, pp, a) {
        let x = choose|x: int| #[trigger]
            a.contains(x) && pp.header.seq <= x < page_end(fl, pp);
        assert(b.contains(x));
        let y = pp.header.seq + pp.header.record_boundary;
        assert(a.contains(y));
        assert forall|z: int| #[trigger] b.contains(z) && pp.header.seq <= z implies y <= z by {
            if z < page_end(fl, pp) {
                assert(a.contains(z));
            }
        }
    } else {
        if bound_on(fl, pp, b) {
            let x = choose|x: int| #[trigger]
                b.contains(x) && pp.header.seq <= x < page_end(fl, pp);
            assert(a.contains(x));
        }
    }
}

/// A new writer knows that a record can start at the end of the file.
pub proof fn law_new_writer_records(st: Store, fid: FileID, b: Set<int>)
    requires
        sound(st),
        fid < FILE_COUNT,
        marked(st.flash, st.files[fid as int], b),
        forall|x: int| #[trigger] b.contains(x) ==> x <= st.files[fid as int].end,
    ensures
        records_ok(st, new_writer(st, fid), b),
        new_writer(st, fid).bounds.contains(st.files[fid as int].end as int),
{
    let w = new_writer(st, fid);
    let f = st.files[fid as int];
    assert(target(st, w) =~= f);
    let c = b.union(w.bounds);
    assert forall|i: int| 0 <= i < file_run(st.flash, f).len() implies page_marked(
        st.flash,
        #[trigger] file_run(st.flash, f)[i],
        c,
    ) by {
        lemma_run_page(st.flash, f, i);
        lemma_page_marked(st.flash, file_run(st.flash, f)[i], b, c);
    }
}

/// Marking the end of a record.
pub proof fn law_record_end(st: Store, w: WriterModel, b: Set<int>)
    requires
        records_ok(st, w, b),
        w.wf(),
    ensures
        records_ok(st, record_ended(w), b),
        record_ended(w).bounds == w.bounds.insert(w.position()),
{
    let w1 = record_ended(w);
    let g = target(st, w);
    assert(target(st, w1) == g);
    let a = b.union(w.bounds);
    let c = b.union(w1.bounds);
    assert forall|i: int| 0 <= i < file_run(st.flash, g).len() implies page_marked(
        st.flash,
        #[trigger] file_run(st.flash, g)[i],
        c,
    ) by {
        lemma_run_page(st.flash, g, i);
        lemma_page_marked(st.flash, file_run(st.flash, g)[i], a, c);
    }
}

/// Completing a page puts the right boundary into its header.
proof fn lemma_flush_records(st: Store, w: WriterModel, b: Set<int>)
    requires
        sound(st),
        writer_ok(st, w),
        w.wf(),
        w.page is Some,
        w.seq + w.page->0.buf.len() <= u32::MAX,
        records_ok(st, w, b),
    ensures
        records_ok(flush(st, w).0, flush(st, w).1, b),
        flush(st, w).1.bounds == w.bounds,
        whole(st.flash, target(st, w)) ==> whole(
            flush(st, w).0.flash,
            target(flush(st, w).0, flush(st, w).1),
        ),
{
    let (st1, w1, r) = flush(st, w);
    lemma_target_flush(st, w);
    law_record_boundary(st, w);
    let g = target(st, w);
    let g1 = target(st1, w1);
    let run = target_run(st, w);
    let run1 = target_run(st1, w1);
    let pp = w1.last->0;
    let all = b.union(w.bounds);
    assert(page_end(st1.flash, pp) == w1.seq) by {
        lemma_run_last(st1.flash, g1);
    }
    assert forall|i: int| 0 <= i < run1.len() implies page_marked(
        st1.flash,
        #[trigger] run1[i],
        all,
    ) by {
        if i < run.len() {
            assert(run1[i] == run[i]);
            lemma_run_page(st.flash, g, i);
            assert(run_has(run, run[i].page as int));
            assert(page_marked(st.flash, run[i], all));
            assert(st1.flash[run[i].page as int] == st.flash[run[i].page as int]);
            assert(page_end(st1.flash, run[i]) == page_end(st.flash, run[i]));
            assert(bound_on(st1.flash, run[i], all) == bound_on(st.flash, run[i], all));
        } else {
            assert(run1[i] == pp);
            if bound_on(st1.flash, pp, w.bounds) {
                let x = choose|x: int| #[trigger]
                    w.bounds.contains(x) && pp.header.seq <= x < page_end(st1.flash, pp);
                assert(w.bounds.contains(x) && w.seq <= x < w1.seq);
            }
            assert(page_marked(st1.flash, pp, w.bounds));
            lemma_page_marked(st1.flash, pp, w.bounds, all);
        }
    }
    if g.last is None {
        lemma_empty_file(st.flash, g);
        assert(run1[0] == pp);
    } else {
        lemma_run_last(st.flash, g);
        assert(run1[0] == run[0]);
    }
}

/// Appending bytes keeps the record boundaries, and puts them into the headers of the pages that
/// it completes.
pub proof fn law_append_records(st: Store, w: WriterModel, data: Seq<u8>, b: Set<int>)
    requires
        sound(st),
        writer_ok(st, w),
        w.wf(),
        append_has_space(st, w, data),
        w.position() + data.len() <= u32::MAX || append(st, w, data).2 is Ok,
        records_ok(st, w, b),
    ensures
        records_ok(append(st, w, data).0, append(st, w, data).1, b),
        append(st, w, data).1.bounds == w.bounds,
        whole(st.flash, target(st, w)) ==> whole(
            append(st, w, data).0.flash,
            target(append(st, w, data).0, append(st, w, data).1),
        ),
    decreases data.len(),
{
    if data.len() > 0 {
        let (st1, w1, r) = make_room(st, w);
        if w.position() + data.len() <= u32::MAX {
            lemma_make_room_ok(st, w);
        }
        lemma_make_room(st, w);
        assert(records_ok(st1, w1, b) && w1.bounds == w.bounds && (whole(st.flash, target(st, w))
            ==> whole(st1.flash, target(st1, w1)))) by {
            if w.needs_page() && w.page is Some {
                lemma_flush_records(st, w, b);
                let (st2, w2, r2) = flush(st, w);
                assert(target(st1, w1) == target(st2, w2));
            } else {
                assert(target(st1, w1) == target(st, w));
            }
        }
        let n = fitting(w1, data.len() as int);
        let head = data.subrange(0, n);
        let tail = data.subrange(n, data.len() as int);
        let w2 = w1.filled(head);
        lemma_fill(st1, w1, head);
        assert(target(st1, w2) == target(st1, w1));
        law_append_records(st1, w2, tail, b);
    }
}

/// After a commit, the headers of the pages of the file have the offsets of the record boundaries.
/// If the writer took the end of the file for a record boundary, as a new writer does, the first
/// page that it has added starts with one.
pub proof fn law_commit_records(st: Store, w: WriterModel, b: Set<int>)
    requires
        sound(st),
        writer_ok(st, w),
        writer_open(st, w),
        w.position() <= u32::MAX,
        records_ok(st, w, b),
    ensures
        ({
            let (st1, w1, r) = commit_writer(st, w);
            let fid = w.fid as int;
            let f = st1.files[fid];
            let n = pages_of(st, fid).len() as int;
            &&& marked(st1.flash, f, b.union(w.bounds))
            &&& records_ok(st1, w1, b)
            &&& whole(st.flash, target(st, w)) ==> whole(st1.flash, f)
            &&& w.bounds.contains(st.files[fid].end as int) && n < pages_of(st1, fid).len() ==> {
                &&& pages_of(st1, fid)[n].header.seq == st.files[fid].end
                &&& pages_of(st1, fid)[n].header.record_boundary == 0
            }
        }),
{
    let fid = w.fid as int;
    let (st1, w1, r) = commit_writer(st, w);
    if w.page is Some {
        lemma_flush_records(st, w, b);
        lemma_flush(st, w);
        let (st2, w2, r2) = flush(st, w);
        assert(target(st1, w1) == target(st2, w2));
        let run = target_run(st2, w2);
        let base = pages_of(st, fid);
        let n = base.len() as int;
        let g = target(st2, w2);
        let f = st.files[fid];
        assert(pages_of(st2, fid) == base);
        assert(pages_of(st1, fid) == run);
        assert(file_ok(st.flash, f));
        if w.bounds.contains(f.end as int) && n < run.len() {
            if f.last is None {
                lemma_empty_file(st.flash, f);
                lemma_run_last(st2.flash, g);
            } else {
                lemma_run_last(st.flash, f);
                assert(run.subrange(0, n)[n - 1] == run[n - 1]);
                lemma_run_page(st2.flash, g, n - 1);
                assert(file_ok(st2.flash, st2.files[fid]));
                lemma_run_last(st2.flash, f);
            }
            lemma_run_page(st2.flash, g, n);
            assert(page_marked(st2.flash, run[n], b.union(w.bounds)));
            assert(b.union(w.bounds).contains(f.end as int));
            assert(bound_on(st2.flash, run[n], b.union(w.bounds)));
        }
    }
}

/// Dropping bytes from the front of a file does not concern what the headers of the pages that
/// remain say.
pub proof fn law_truncate_records(st: Store, fid: int, n: int, bounds: Set<int>)
    requires
        sound(st),
        0 <= fid < FILE_COUNT,
        0 <= n,
        marked(st.flash, st.files[fid], bounds),
    ensures
        marked(
            truncate_one(st, fid, n).0.flash,
            truncate_one(st, fid, n).0.files[fid],
            bounds,
        ),
{
    let st1 = truncate_one(st, fid, n).0;
    let f = st.files[fid];
    let f1 = st1.files[fid];
    law_truncate(st, fid, n);
    assert(file_ok(st1.flash, f1));
    lemma_truncate_run(st, fid, n);
    let run = pages_of(st, fid);
    let run1 = pages_of(st1, fid);
    assert forall|i: int| 0 <= i < run1.len() implies page_marked(
        st1.flash,
        #[trigger] run1[i],
        bounds,
    ) by {
        assert(run1[i] == run[i + (run.len() - run1.len())]);
    }
}

/// What the headers of a file say does not change when the device changes elsewhere.
pub proof fn lemma_marked_frame(fl: Seq<Seq<u8>>, fl2: Seq<Seq<u8>>, f: FileModel, bounds: Set<int>)
    requires
        marked(fl, f, bounds),
        forall|k: int|
            #![trigger file_run(fl, f)[k]]
            0 <= k < file_run(fl, f).len() ==> fl2[file_run(fl, f)[k].page as int]
                == fl[file_run(fl, f)[k].page as int],
    ensures
        marked(fl2, f, bounds),
        whole(fl, f) ==> whole(fl2, f),
{
    lemma_file_frame(fl, fl2, f);
    let run = file_run(fl, f);
    assert forall|i: int| 0 <= i < run.len() implies page_marked(
        fl2,
        #[trigger] run[i],
        bounds,
    ) by {
        assert(page_marked(fl, run[i], bounds));
        assert(page_end(fl2, run[i]) == page_end(fl, run[i]));
        assert(bound_on(fl2, run[i], bounds) == bound_on(fl, run[i], bounds));
    }
}

/// Making a commit durable does not concern what the headers of the file say. So a file whose
/// first byte starts a record, and from which nothing has been dropped, can be searched once it
/// has been committed.
pub proof fn law_commit_searchable(st: Store, w: WriterModel, b: Set<int>)
    requires
        sound(st),
        durable(st),
        committable(st, Some(w)),
        commit_ready(st, Some(w), Seq::empty()),
        meta_fits(st, 1) || st.meta_seq < u32::MAX,
        records_ok(st, w, b),
    ensures
        ({
            let st1 = commit_all(st, Some(w), Seq::empty()).0;
            let f = st1.files[w.fid as int];
            &&& marked(st1.flash, f, b.union(w.bounds))
            &&& whole(st.flash, target(st, w)) ==> whole(st1.flash, f)
            &&& whole(st.flash, target(st, w)) && b.union(w.bounds).contains(
                st.files[w.fid as int].first as int,
            ) && f.last is Some ==> searchable(st1.flash, f)
        }),
{
    let fid = w.fid as int;
    let none = Seq::<(FileID, usize)>::empty();
    let list = commit_list(Some(w), none);
    let all = b.union(w.bounds);
    law_commit_writer(st, w);
    law_commit_records(st, w, b);
    law_commit_only(st, w);
    let st1 = commit_writer(st, w).0;
    let st2 = commit_all(st, Some(w), none).0;
    assert(truncate_some(st1, none, 0) == (st1, Ok::<(), Error>(())));
    assert(list.len() == 1);
    assert(st2 == write_meta(st1, list).0);
    let f = st1.files[fid];
    let run = file_run(st1.flash, f);
    assert forall|k: int|
        #![trigger file_run(st1.flash, f)[k]]
        0 <= k < run.len() implies st2.flash[run[k].page as int]
        == st1.flash[run[k].page as int] by {
        let p = run[k].page as int;
        assert(run_has(pages_of(st1, fid), p));
        lemma_lowest_free_from(st1.used, 0);
    }
    lemma_marked_frame(st1.flash, st2.flash, f, all);
    if whole(st2.flash, f) && all.contains(f.first as int) && f.last is Some {
        law_searchable(st2.flash, f, all);
    }
}

} // verus!
