//! What a commit does when the meta page and the tables do not agree, as after a rename, or when
//! something is wrong elsewhere.

use vstd::prelude::*;

use crate::allocator::{has_free, lemma_lowest_free_from, lowest_free};
use crate::chain::{
    contents, file_ok, file_run, lemma_contents_len, lemma_empty_file, lemma_file_frame,
};
use crate::commit_laws::{
    asked, dropped, law_commit_writer, law_rename, law_truncate_alone, law_truncate_some,
};
use crate::config::{FileID, FILE_COUNT, PAGE_COUNT};
use crate::durability::{
    added, committable, concerned, lemma_commit_list, lemma_durable_frame, lemma_ready_ids,
};
use crate::headers::meta_header;
use crate::mount_laws::{
    durable, durable_but, law_write_entries, lemma_write_meta_sound, not_listed,
};
use crate::sound::{file_bytes, pages_of, run_has, sound};
use crate::store::{
    meta_fits, meta_readable, swapped, truncate_one, truncate_some, write_meta, Store,
};
use crate::write_laws::{lemma_target_flush, target, target_run, writer_has, writer_ok, writer_open};
use crate::writer::{
    append, append_has_space, commit_all, commit_first, commit_list, commit_ready, commit_writer,
    fitting, flush, make_room, truncation_ready, WriterModel,
};
use crate::Error;

verus! {

/// The first step of a commit, and the truncations.
pub proof fn lemma_commit_steps(st: Store, w: Option<WriterModel>, truncate: Seq<(FileID, usize)>)
    requires
        sound(st),
        committable(st, w),
        commit_ready(st, w, truncate),
    ensures
        ({
            let (st1, w1, r1) = commit_first(st, w);
            let (st2, r2) = truncate_some(st1, truncate, truncate.len() as int);
            &&& r1 == Ok::<(), Error>(())
            &&& r2 == Ok::<(), Error>(())
            &&& sound(st1)
            &&& sound(st2)
            &&& st2.meta_page == st.meta_page
            &&& st2.meta_seq == st.meta_seq
            &&& st2.flash == st1.flash
            &&& st2.flash[st.meta_page as int] == st.flash[st.meta_page as int]
            &&& forall|p: int|
                0 <= p < PAGE_COUNT && #[trigger] st2.flash[p] != st.flash[p] ==> meta_header(
                    st2.flash[p],
                ) is None
            &&& forall|i: int| 0 <= i < truncate.len() ==> (#[trigger] truncate[i]).0 < FILE_COUNT
            &&& forall|fid: int|
                0 <= fid < FILE_COUNT ==> #[trigger] file_bytes(st2, fid) == dropped(
                    file_bytes(st, fid) + added(st, w, fid),
                    asked(truncate, truncate.len() as int, fid),
                )
            &&& forall|fid: int|
                #![trigger st2.files[fid]]
                0 <= fid < FILE_COUNT && !concerned(w, truncate).contains(fid) ==> st2.files[fid]
                    == st.files[fid]
        }),
{
    let (st1, w1, r1) = commit_first(st, w);
    let n = truncate.len() as int;
    if let Some(x) = w {
        law_commit_writer(st, x);
        assert(!writer_has(st, x, st.meta_page as int));
    }
    assert forall|fid: int| 0 <= fid < FILE_COUNT implies #[trigger] file_bytes(st1, fid)
        == file_bytes(st, fid) + added(st, w, fid) by {
        assert(file_bytes(st, fid) + Seq::<u8>::empty() =~= file_bytes(st, fid));
    }
    lemma_ready_ids(st1, truncate, n);
    law_truncate_some(st1, truncate, n);
    let st2 = truncate_some(st1, truncate, n).0;
    assert forall|fid: int| 0 <= fid < FILE_COUNT implies #[trigger] file_bytes(st2, fid)
        == dropped(file_bytes(st, fid) + added(st, w, fid), asked(truncate, n, fid)) by {
        assert(file_bytes(st1, fid) == file_bytes(st, fid) + added(st, w, fid));
    }
    assert forall|fid: int|
        #![trigger st2.files[fid]]
        0 <= fid < FILE_COUNT && !concerned(w, truncate).contains(fid) implies st2.files[fid]
        == st.files[fid] by {
        if st2.files[fid] != st1.files[fid] {
            let i = choose|i: int| 0 <= i < n && (#[trigger] truncate[i]).0 == fid;
            assert(concerned(w, truncate).contains(fid));
        }
        if let Some(x) = w {
            if x.fid != fid {
                assert(file_bytes(st1, fid) == file_bytes(st, fid));
            }
        }
    }
}

/// What a commit makes of the bytes of the files.
pub open spec fn bytes_committed(
    st: Store,
    w: Option<WriterModel>,
    truncate: Seq<(FileID, usize)>,
    st1: Store,
) -> bool {
    &&& sound(st1)
    &&& forall|fid: int|
        0 <= fid < FILE_COUNT ==> #[trigger] file_bytes(st1, fid) == dropped(
            file_bytes(st, fid) + added(st, w, fid),
            asked(truncate, truncate.len() as int, fid),
        )
}

/// In a sound store with a readable meta page, whether or not the meta page agrees with the
/// tables, a commit succeeds, and each file is then what it was, followed by what has been
/// written to it, without the bytes that the commit is asked to drop.
pub proof fn law_commit_sound(st: Store, w: Option<WriterModel>, truncate: Seq<(FileID, usize)>)
    requires
        sound(st),
        meta_readable(st),
        committable(st, w),
        commit_ready(st, w, truncate),
        meta_fits(st, commit_list(w, truncate).len() as int) || st.meta_seq < u32::MAX,
    ensures
        ({
            let (st3, w3, r) = commit_all(st, w, truncate);
            &&& r == Ok::<(), Error>(())
            &&& sound(st3)
            &&& forall|fid: int|
                0 <= fid < FILE_COUNT ==> #[trigger] file_bytes(st3, fid) == dropped(
                    file_bytes(st, fid) + added(st, w, fid),
                    asked(truncate, truncate.len() as int, fid),
                )
            &&& forall|fid: int|
                #![trigger st3.files[fid]]
                0 <= fid < FILE_COUNT && !concerned(w, truncate).contains(fid) ==> st3.files[fid]
                    == st.files[fid]
        }),
{
    let st1 = commit_first(st, w).0;
    let n = truncate.len() as int;
    let st2 = truncate_some(st1, truncate, n).0;
    let list = commit_list(w, truncate);
    lemma_commit_steps(st, w, truncate);
    assert(meta_readable(st2));
    lemma_write_meta_sound(st2, list);
    let st3 = write_meta(st2, list).0;
    assert forall|fid: int| 0 <= fid < FILE_COUNT implies #[trigger] file_bytes(st3, fid)
        == dropped(file_bytes(st, fid) + added(st, w, fid), asked(truncate, n, fid)) by {
        assert(file_bytes(st3, fid) == file_bytes(st2, fid));
    }
}

/// `law_commit_sound`, for a commit that may or may not meet its conditions.
pub proof fn lemma_commit_any(st: Store, w: Option<WriterModel>, truncate: Seq<(FileID, usize)>)
    requires
        commit_ready(st, w, truncate),
    ensures
        sound(st) && meta_readable(st) && committable(st, w) && (meta_fits(
            st,
            commit_list(w, truncate).len() as int,
        ) || st.meta_seq < u32::MAX) ==> commit_all(st, w, truncate).2 == Ok::<(), Error>(())
            && bytes_committed(st, w, truncate, commit_all(st, w, truncate).0),
{
    if sound(st) && meta_readable(st) && committable(st, w) && (meta_fits(
        st,
        commit_list(w, truncate).len() as int,
    ) || st.meta_seq < u32::MAX) {
        law_commit_sound(st, w, truncate);
    }
}

/// When a commit in a sound store succeeds: exactly if there are sequence numbers for what has
/// been written, the meta page can be read, and it has room for the entries or there is a
/// sequence number for a new one.
pub proof fn law_commit_succeeds(st: Store, w: Option<WriterModel>, truncate: Seq<(FileID, usize)>)
    requires
        sound(st),
        w matches Some(x) ==> writer_ok(st, x) && writer_open(st, x),
        commit_ready(st, w, truncate),
    ensures
        commit_all(st, w, truncate).2 is Ok <==> {
            &&& w matches Some(x) ==> x.position() <= u32::MAX
            &&& meta_readable(st)
            &&& meta_fits(st, commit_list(w, truncate).len() as int) || st.meta_seq < u32::MAX
        },
{
    if committable(st, w) {
        lemma_commit_steps(st, w, truncate);
        if meta_readable(st) && (meta_fits(st, commit_list(w, truncate).len() as int)
            || st.meta_seq < u32::MAX) {
            law_commit_sound(st, w, truncate);
        }
    }
}

/// In a sound store, a commit can be made if it names files, and there is room on the meta page
/// or a page is free, whether or not the meta page agrees with the tables.
pub proof fn law_ready_to_commit(st: Store, w: Option<WriterModel>, truncate: Seq<(FileID, usize)>)
    requires
        sound(st),
        committable(st, w),
        forall|i: int| 0 <= i < truncate.len() ==> (#[trigger] truncate[i]).0 < FILE_COUNT,
        meta_fits(st, commit_list(w, truncate).len() as int) || has_free(st.used),
    ensures
        commit_ready(st, w, truncate),
{
    let (st1, w1, r1) = commit_first(st, w);
    let n = truncate.len() as int;
    let st2 = truncate_some(st1, truncate, n).0;
    if let Some(x) = w {
        law_commit_writer(st, x);
        assert(!writer_has(st, x, st.meta_page as int));
    }
    assert forall|i: int| 0 <= i < n implies #[trigger] truncation_ready(st1, truncate, i) by {
        law_truncate_some(st1, truncate, i);
        let sti = truncate_some(st1, truncate, i).0;
        let f = sti.files[truncate[i].0 as int];
        assert(file_ok(sti.flash, f));
        lemma_contents_len(sti.flash, f);
        if f.last is None {
            lemma_empty_file(sti.flash, f);
        }
    }
    law_truncate_some(st1, truncate, n);
    if has_free(st.used) {
        lemma_lowest_free_from(st.used, 0);
        lemma_lowest_free_from(st2.used, 0);
        assert(!st2.used[lowest_free(st.used)]);
    }
}

/// A commit makes the files durable that it is about, and leaves others as durable as they were.
pub proof fn law_commit_makes_durable(
    st: Store,
    w: Option<WriterModel>,
    truncate: Seq<(FileID, usize)>,
    stale: Set<int>,
)
    requires
        sound(st),
        durable_but(st, stale),
        committable(st, w),
        commit_ready(st, w, truncate),
        meta_fits(st, commit_list(w, truncate).len() as int) || st.meta_seq < u32::MAX,
    ensures
        ({
            let (st3, w3, r) = commit_all(st, w, truncate);
            let list = commit_list(w, truncate);
            &&& r == Ok::<(), Error>(())
            &&& durable_but(st3, not_listed(stale, list))
            &&& !meta_fits(st, list.len() as int) ==> durable(st3)
        }),
{
    let st1 = commit_first(st, w).0;
    let n = truncate.len() as int;
    let st2 = truncate_some(st1, truncate, n).0;
    let list = commit_list(w, truncate);
    lemma_commit_steps(st, w, truncate);
    let more = stale.union(concerned(w, truncate));
    lemma_durable_frame(st, st2, stale, more);
    lemma_commit_list(w, truncate);
    law_write_entries(st2, list, more);
    let st3 = write_meta(st2, list).0;
    let left = not_listed(stale, list);
    assert forall|fid: int|
        0 <= fid < FILE_COUNT && !left.contains(fid) implies !#[trigger] not_listed(
        more,
        list,
    ).contains(fid) by {}
    assert(durable_but(st3, left));
}

/// After two files have been exchanged, the meta page is behind on those two, until they are
/// committed. A commit to one of them succeeds, and adds to what the other one was.
pub proof fn law_commit_after_rename(st: Store, a: int, b: int, w: WriterModel)
    requires
        sound(st),
        durable(st),
        0 <= a < FILE_COUNT,
        0 <= b < FILE_COUNT,
        committable(swapped(st, a, b), Some(w)),
        w.fid == a,
        commit_ready(swapped(st, a, b), Some(w), Seq::empty()),
        meta_fits(st, 1) || st.meta_seq < u32::MAX,
    ensures
        ({
            let x = swapped(st, a, b);
            let (st1, w1, r) = commit_all(x, Some(w), Seq::empty());
            &&& durable_but(x, set![a, b])
            &&& r == Ok::<(), Error>(())
            &&& sound(st1)
            &&& file_bytes(st1, a) == file_bytes(st, b) + added(x, Some(w), a)
            &&& a != b ==> file_bytes(st1, b) == file_bytes(st, a)
            &&& durable_but(st1, set![b].remove(a))
        }),
{
    let x = swapped(st, a, b);
    let none = Seq::<(FileID, usize)>::empty();
    law_rename(st, a, b);
    lemma_durable_frame(st, x, Set::empty(), set![a, b]);
    assert(commit_list(Some(w), none) =~= seq![w.fid]);
    assert(meta_readable(x));
    law_commit_sound(x, Some(w), none);
    law_commit_makes_durable(x, Some(w), none, set![a, b]);
    let st1 = commit_all(x, Some(w), none).0;
    assert forall|fid: int| 0 <= fid < FILE_COUNT implies #[trigger] file_bytes(st1, fid)
        == file_bytes(x, fid) + added(x, Some(w), fid) by {
        assert(asked(none, 0, fid) == 0);
        let c = file_bytes(x, fid) + added(x, Some(w), fid);
        assert(dropped(c, 0) =~= c);
    }
    if a != b {
        assert(file_bytes(x, b) + added(x, Some(w), b) =~= file_bytes(x, b));
    }
    let list = commit_list(Some(w), none);
    assert(list[0] == a as FileID);
    assert forall|fid: int|
        0 <= fid < FILE_COUNT && !set![b].remove(a).contains(fid) implies !#[trigger] not_listed(
        set![a, b],
        list,
    ).contains(fid) by {
        if fid == a {
            assert(list.contains(fid as FileID));
        }
    }
}

/// Whether what a writer is making is a well-formed file, on pages that are in use and none of
/// which is the meta page. It need not continue the file as it is now: another commit may have
/// been made to it.
pub open spec fn makes_file(st: Store, w: WriterModel) -> bool {
    &&& st.wf()
    &&& st.used[st.meta_page as int]
    &&& w.wf()
    &&& file_ok(st.flash, target(st, w))
    &&& forall|p: int| #[trigger]
        run_has(target_run(st, w), p) ==> 0 <= p < PAGE_COUNT && st.used[p] && p != st.meta_page
    &&& w.page matches Some(op) ==> {
        &&& st.used[op.page as int]
        &&& op.page != st.meta_page
        &&& !run_has(target_run(st, w), op.page as int)
    }
}

/// Committing a writer makes the file what the writer has made, whatever the state of other files,
/// and even if the file has changed since the writer was handed out. No other file is entered
/// differently in the tables, and no page in use is written to but that of the writer and the meta
/// page. A writer that has nothing to commit changes no file.
pub proof fn law_commit_alone(st: Store, w: WriterModel)
    requires
        makes_file(st, w),
        w.position() <= u32::MAX,
        meta_readable(st),
        commit_ready(st, Some(w), Seq::empty()),
        meta_fits(st, 1) || st.meta_seq < u32::MAX,
    ensures
        ({
            let (st3, w3, r) = commit_all(st, Some(w), Seq::empty());
            let fid = w.fid as int;
            &&& r == Ok::<(), Error>(())
            &&& forall|b: int|
                0 <= b < FILE_COUNT && b != fid ==> #[trigger] st3.files[b] == st.files[b]
            &&& w.page is None ==> st3.files == st.files
            &&& w.page is Some ==> {
                &&& file_ok(st3.flash, st3.files[fid])
                &&& file_bytes(st3, fid) == contents(st.flash, target(st, w)) + w.buffered()
                &&& st3.files[fid].first == st.files[fid].first
                &&& st3.files[fid].end == w.position()
            }
            &&& forall|p: int|
                0 <= p < PAGE_COUNT && st.used[p] && p != st.meta_page && !(w.page is Some
                    && w.page->0.page == p) ==> #[trigger] st3.flash[p] == st.flash[p]
                    && st3.used[p]
        }),
{
    let fid = w.fid as int;
    let none = Seq::<(FileID, usize)>::empty();
    let list = commit_list(Some(w), none);
    let (st1, w1, r1) = commit_writer(st, w);
    assert(list =~= seq![w.fid]);
    if w.page is Some {
        lemma_target_flush(st, w);
        let (stf, wf, rf) = flush(st, w);
        assert(target(stf, wf) == st1.files[fid]);
    }
    assert(truncate_some(st1, none, 0) == (st1, Ok::<(), Error>(())));
    assert(st1.used == st.used);
    assert(st1.flash[st.meta_page as int] == st.flash[st.meta_page as int]);
    assert(meta_readable(st1));
    assert(meta_fits(st1, 1) == meta_fits(st, 1));
    let (st3, r3) = write_meta(st1, list);
    lemma_lowest_free_from(st1.used, 0);
    assert forall|p: int|
        0 <= p < PAGE_COUNT && st.used[p] && p != st.meta_page implies #[trigger] st3.flash[p]
        == st1.flash[p] && st3.used[p] by {}
    if w.page is Some {
        let f = st1.files[fid];
        let run = file_run(st1.flash, f);
        let pp = w1.last->0;
        assert(run == target_run(st, w).push(pp));
        assert forall|k: int|
            #![trigger file_run(st1.flash, f)[k]]
            0 <= k < run.len() implies st3.flash[run[k].page as int]
            == st1.flash[run[k].page as int] by {
            if k < target_run(st, w).len() {
                assert(run[k] == target_run(st, w)[k]);
                assert(run_has(target_run(st, w), run[k].page as int));
            }
        }
        lemma_file_frame(st1.flash, st3.flash, f);
    }
}

/// Dropping bytes from the front of a well-formed file, on pages that are in use and none of
/// which is the meta page, succeeds and drops just these bytes, whatever the state of other
/// files.
pub proof fn law_drop_alone(st: Store, fid: FileID, n: usize)
    requires
        st.wf(),
        fid < FILE_COUNT,
        file_ok(st.flash, st.files[fid as int]),
        forall|p: int| #[trigger]
            run_has(pages_of(st, fid as int), p) ==> 0 <= p < PAGE_COUNT && st.used[p] && p
                != st.meta_page,
        meta_readable(st),
        commit_ready(st, None, seq![(fid, n)]),
        meta_fits(st, 1) || st.meta_seq < u32::MAX,
    ensures
        ({
            let (st2, w2, r) = commit_all(st, None, seq![(fid, n)]);
            &&& r == Ok::<(), Error>(())
            &&& file_ok(st2.flash, st2.files[fid as int])
            &&& file_bytes(st2, fid as int) == dropped(file_bytes(st, fid as int), n as int)
            &&& forall|b: int|
                0 <= b < FILE_COUNT && b != fid ==> #[trigger] st2.files[b] == st.files[b]
        }),
{
    let i = fid as int;
    let list = seq![(fid, n)];
    law_truncate_alone(st, i, n as int);
    let st1 = truncate_one(st, i, n as int).0;
    assert(truncate_some(st, list, 0) == (st, Ok::<(), Error>(())));
    assert(truncate_some(st, list, 1) == truncate_one(st, i, n as int));
    assert(commit_list(None, list) =~= seq![fid]);
    let st2 = write_meta(st1, seq![fid]).0;
    lemma_lowest_free_from(st1.used, 0);
    let f = st1.files[i];
    let run = file_run(st1.flash, f);
    assert forall|k: int|
        #![trigger file_run(st1.flash, f)[k]]
        0 <= k < run.len() implies st2.flash[run[k].page as int]
        == st1.flash[run[k].page as int] by {
        let p = run[k].page as int;
        assert(run_has(pages_of(st1, i), p));
        assert(run_has(pages_of(st, i), p));
        assert(st1.used[p]);
    }
    lemma_file_frame(st1.flash, st2.flash, f);
}

/// What a writer has made of its file so far, with the page that is being filled.
pub open spec fn made(st: Store, w: WriterModel) -> Seq<u8> {
    contents(st.flash, target(st, w)) + w.buffered()
}

/// What writing leaves alone: the tables of the files, the meta page, and every page in use but
/// the one that the writer is filling.
pub open spec fn writes_apart(st: Store, w: WriterModel, st1: Store) -> bool {
    &&& st1.files == st.files
    &&& st1.meta_page == st.meta_page
    &&& st1.meta_seq == st.meta_seq
    &&& forall|p: int| 0 <= p < PAGE_COUNT && st.used[p] ==> #[trigger] st1.used[p]
    &&& forall|p: int|
        0 <= p < PAGE_COUNT && st.used[p] && !(w.page is Some && w.page->0.page == p)
            ==> #[trigger] st1.flash[p] == st.flash[p]
}

/// Making room for bytes and putting them into the page that is being filled.
proof fn lemma_fill_alone(st: Store, w: WriterModel, data: Seq<u8>)
    requires
        makes_file(st, w),
        data.len() > 0,
        make_room(st, w).2 is Ok,
        w.needs_page() ==> has_free(st.used),
    ensures
        ({
            let (st1, w1, r) = make_room(st, w);
            let n = fitting(w1, data.len() as int);
            let w2 = w1.filled(data.subrange(0, n));
            &&& 0 < n <= data.len()
            &&& makes_file(st1, w2)
            &&& made(st1, w2) == made(st, w) + data.subrange(0, n)
            &&& w2.fid == w.fid
            &&& w2.position() == w.position() + n
            &&& writes_apart(st, w, st1)
            &&& !st.used[w2.page->0.page as int] || (w.page is Some && w.page->0.page
                == w2.page->0.page)
        }),
{
    let (st1, w1, r) = make_room(st, w);
    let n = fitting(w1, data.len() as int);
    let head = data.subrange(0, n);
    let w2 = w1.filled(head);
    let run = target_run(st, w);
    if w.needs_page() {
        lemma_lowest_free_from(st.used, 0);
        if w.page is Some {
            lemma_target_flush(st, w);
            let (stf, wf, rf) = flush(st, w);
            assert(target(st1, w2) == target(stf, wf));
            let run1 = target_run(st1, w2);
            assert(run1 == run.push(wf.last->0));
            assert forall|p: int| #[trigger] run_has(run1, p) implies run_has(run, p) || p
                == w.page->0.page by {
                let k = choose|k: int| 0 <= k < run1.len() && (#[trigger] run1[k]).page == p;
                if k < run.len() {
                    assert(run[k].page == p);
                }
            }
        } else {
            assert(target(st1, w2) == target(st, w));
            assert(target_run(st1, w2) == run);
        }
    } else {
        assert(target(st1, w2) == target(st, w));
    }
    assert(made(st1, w2) =~= made(st, w) + head);
}

/// Appending bytes adds them to what a writer has made, even if the file has changed since the
/// writer was handed out, and whatever the state of other files. It succeeds as long as there are
/// sequence numbers for the bytes and pages to put them on.
pub proof fn law_append_alone(st: Store, w: WriterModel, data: Seq<u8>)
    requires
        makes_file(st, w),
        append_has_space(st, w, data),
        w.position() + data.len() <= u32::MAX || append(st, w, data).2 is Ok,
    ensures
        ({
            let (st1, w1, r) = append(st, w, data);
            &&& r == Ok::<(), Error>(())
            &&& makes_file(st1, w1)
            &&& made(st1, w1) == made(st, w) + data
            &&& w1.fid == w.fid
            &&& w1.position() == w.position() + data.len()
            &&& writes_apart(st, w, st1)
        }),
    decreases data.len(),
{
    if data.len() == 0 {
        assert(made(st, w) + data =~= made(st, w));
    } else {
        let (st1, w1, r) = make_room(st, w);
        lemma_fill_alone(st, w, data);
        let n = fitting(w1, data.len() as int);
        let head = data.subrange(0, n);
        let tail = data.subrange(n, data.len() as int);
        let w2 = w1.filled(head);
        law_append_alone(st1, w2, tail);
        let st3 = append(st1, w2, tail).0;
        assert((made(st, w) + head) + tail =~= made(st, w) + data);
        assert forall|p: int| 0 <= p < PAGE_COUNT && st.used[p] implies #[trigger] st3.used[p] by {
            assert(st1.used[p]);
        }
        assert forall|p: int|
            0 <= p < PAGE_COUNT && st.used[p] && !(w.page is Some && w.page->0.page
                == p) implies #[trigger] st3.flash[p] == st.flash[p] by {
            assert(st1.used[p] && st1.flash[p] == st.flash[p]);
        }
    }
}

} // verus!
