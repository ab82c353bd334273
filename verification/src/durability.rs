//! What a commit makes of the store as a whole, and what is left of it after a loss of power.

use vstd::prelude::*;

use crate::allocator::{has_free, lemma_lowest_free_from, lowest_free};
use crate::chain::{file_ok, lemma_contents_len, lemma_empty_file, lemma_run_last};
use crate::commit_laws::{
    asked, dropped, law_commit_writer, law_discard, law_truncate, law_truncate_some,
    law_truncate_twice, lemma_writer_first, truncated,
};
use crate::commits::{bytes_committed, lemma_commit_any};
use crate::config::{FileID, FILE_COUNT, PAGE_COUNT};
use crate::headers::meta_header;
use crate::mount_laws::{durable, durable_but, info_of, law_mount, law_write_meta, stored_infos};
use crate::page::ReadError;
use crate::read_laws::{law_read, reader_at};
use crate::reader::{read_bytes, ReaderModel};
use crate::sound::{
    file_bytes, in_file, law_empty, lemma_files_frame, lemma_in_file_used, pages_of, run_has, sound,
    tight,
};
use crate::store::{
    empty_file, meta_fits, meta_readable, mount, truncate_one, truncate_some, write_meta, Store,
};
use crate::write_laws::{
    law_append, lemma_idle_writer, lemma_writer_frame, target, target_run, writer_has, writer_ok,
    writer_open, written,
};
use crate::writer::{
    append, append_has_space, commit_all, commit_first, commit_list, commit_ready, discarded,
    truncation_ready, WriterModel,
};
use crate::Error;

verus! {

/// What is on the meta page stays durable when the device changes elsewhere and nothing new looks
/// like a meta page.
pub proof fn lemma_durable_frame(st: Store, st1: Store, stale: Set<int>, stale1: Set<int>)
    requires
        st.wf(),
        durable_but(st, stale),
        st1.meta_page == st.meta_page,
        st1.meta_seq == st.meta_seq,
        st1.flash[st.meta_page as int] == st.flash[st.meta_page as int],
        forall|q: int|
            0 <= q < PAGE_COUNT && #[trigger] st1.flash[q] != st.flash[q] ==> meta_header(
                st1.flash[q],
            ) is None,
        forall|fid: int|
            #![trigger st1.files[fid]]
            0 <= fid < FILE_COUNT && !stale1.contains(fid) ==> !stale.contains(fid)
                && st1.files[fid] == st.files[fid],
    ensures
        durable_but(st1, stale1),
{
    assert forall|q: int|
        0 <= q < PAGE_COUNT && q != st1.meta_page implies (meta_header(
        #[trigger] st1.flash[q],
    ) matches Some(s) ==> s < st1.meta_seq) by {
        if st1.flash[q] == st.flash[q] {
            assert(meta_header(st.flash[q]) matches Some(s) ==> s < st.meta_seq);
        }
    }
    assert forall|fid: int|
        #![trigger st1.files[fid]]
        0 <= fid < FILE_COUNT && !stale1.contains(fid) implies stored_infos(st1)->0[fid] == info_of(
        st1.files[fid],
    ) by {
        assert(st1.files[fid] == st.files[fid]);
    }
}

/// Whether every page in use is the meta page, a page of a file, or one that the writer has taken.
pub open spec fn accounted(st: Store, w: Option<WriterModel>) -> bool {
    forall|p: int|
        0 <= p < PAGE_COUNT && #[trigger] st.used[p] ==> p == st.meta_page || in_file(st, p) || (w
            is Some && writer_has(st, w->0, p))
}

/// Whether a writer, if there is one, can be committed.
pub open spec fn committable(st: Store, w: Option<WriterModel>) -> bool {
    w matches Some(x) ==> writer_ok(st, x) && writer_open(st, x) && x.position() <= u32::MAX
}

/// What a commit adds to a file.
pub open spec fn added(st: Store, w: Option<WriterModel>, fid: int) -> Seq<u8> {
    match w {
        Some(x) => if x.fid == fid {
            written(st, x)
        } else {
            Seq::empty()
        },
        None => Seq::empty(),
    }
}

/// What a commit makes of a sound and durable store: each file is what it was, followed by what
/// has been written to it, without the bytes that the commit is asked to drop.
pub open spec fn committed(
    st: Store,
    w: Option<WriterModel>,
    truncate: Seq<(FileID, usize)>,
    st1: Store,
) -> bool {
    &&& sound(st1)
    &&& durable(st1)
    &&& forall|fid: int|
        0 <= fid < FILE_COUNT ==> #[trigger] file_bytes(st1, fid) == dropped(
            file_bytes(st, fid) + added(st, w, fid),
            asked(truncate, truncate.len() as int, fid),
        )
}

/// The first step of a commit.
proof fn lemma_commit_first(st: Store, w: Option<WriterModel>)
    requires
        sound(st),
        durable(st),
        committable(st, w),
    ensures
        ({
            let (st1, w1, r) = commit_first(st, w);
            let stale = match w {
                Some(x) => Set::<int>::empty().insert(x.fid as int),
                None => Set::<int>::empty(),
            };
            &&& r == Ok::<(), Error>(())
            &&& sound(st1)
            &&& durable_but(st1, stale)
            &&& st1.used == st.used
            &&& st1.meta_page == st.meta_page
            &&& st1.meta_seq == st.meta_seq
            &&& forall|p: int|
                0 <= p < PAGE_COUNT && #[trigger] st1.flash[p] != st.flash[p] ==> w is Some
                    && writer_has(st, w->0, p)
            &&& forall|fid: int|
                0 <= fid < FILE_COUNT ==> #[trigger] file_bytes(st1, fid) == file_bytes(st, fid)
                    + added(st, w, fid)
            &&& forall|fid: int|
                0 <= fid < FILE_COUNT && !(w is Some && w->0.fid == fid) ==> (#[trigger]
                st1.files[fid]) == st.files[fid]
            &&& forall|p: int| #[trigger]
                in_file(st1, p) <==> in_file(st, p) || (w is Some && writer_has(st, w->0, p))
            &&& w is Some <==> w1 is Some
            &&& w matches Some(x) ==> {
                &&& w1->0.fid == x.fid
                &&& w1->0.page is None
                &&& w1->0.shape()
                &&& target(st1, w1->0) == st1.files[x.fid as int]
            }
        }),
{
    let (st1, w1, r) = commit_first(st, w);
    match w {
        Some(x) => {
            let fid = x.fid as int;
            let stale = Set::<int>::empty().insert(fid);
            law_commit_writer(st, x);
            assert(st1.flash[st.meta_page as int] == st.flash[st.meta_page as int]) by {
                if writer_has(st, x, st.meta_page as int) {
                }
            }
            assert forall|b: int| 0 <= b < FILE_COUNT && b != fid implies #[trigger] st1.files[b]
                == st.files[b] by {
                assert(file_bytes(st1, b) == file_bytes(st, b));
            }
            lemma_durable_frame(st, st1, Set::empty(), stale);
            assert forall|b: int| 0 <= b < FILE_COUNT implies #[trigger] file_bytes(st1, b)
                == file_bytes(st, b) + added(st, w, b) by {
                if b != fid {
                    assert(file_bytes(st, b) + Seq::<u8>::empty() =~= file_bytes(st, b));
                }
            }
            assert forall|p: int| #[trigger] in_file(st1, p) <==> in_file(st, p) || writer_has(
                st,
                x,
                p,
            ) by {
                if in_file(st1, p) {
                    let b = choose|b: int|
                        0 <= b < FILE_COUNT && #[trigger] run_has(pages_of(st1, b), p);
                    if b != fid {
                        assert(file_bytes(st1, b) == file_bytes(st, b));
                        assert(run_has(pages_of(st, b), p));
                    }
                }
                if in_file(st, p) {
                    let b = choose|b: int|
                        0 <= b < FILE_COUNT && #[trigger] run_has(pages_of(st, b), p);
                    if b != fid {
                        assert(file_bytes(st1, b) == file_bytes(st, b));
                    }
                    assert(run_has(pages_of(st1, b), p));
                }
                if writer_has(st, x, p) {
                    assert(run_has(pages_of(st1, fid), p));
                }
            }
            assert(target(st1, w1->0) == st1.files[fid]);
        },
        None => {
            assert forall|b: int| 0 <= b < FILE_COUNT implies #[trigger] file_bytes(st1, b)
                == file_bytes(st, b) + added(st, w, b) by {
                assert(file_bytes(st, b) + Seq::<u8>::empty() =~= file_bytes(st, b));
            }
        },
    }
}

/// The files that a commit is about.
pub open spec fn concerned(w: Option<WriterModel>, truncate: Seq<(FileID, usize)>) -> Set<int> {
    Set::new(
        |fid: int|
            0 <= fid < FILE_COUNT && ((w is Some && w->0.fid == fid) || exists|i: int|
                0 <= i < truncate.len() && (#[trigger] truncate[i]).0 == fid),
    )
}

/// The entries that a commit writes are those of the files that it is about.
pub proof fn lemma_commit_list(w: Option<WriterModel>, truncate: Seq<(FileID, usize)>)
    requires
        w matches Some(x) ==> x.fid < FILE_COUNT,
        forall|i: int| 0 <= i < truncate.len() ==> (#[trigger] truncate[i]).0 < FILE_COUNT,
    ensures
        forall|i: int|
            0 <= i < commit_list(w, truncate).len() ==> (#[trigger] commit_list(w, truncate)[i])
                < FILE_COUNT,
        forall|fid: int|
            0 <= fid < FILE_COUNT && #[trigger] concerned(w, truncate).contains(fid)
                ==> commit_list(w, truncate).contains(fid as FileID),
{
    let list = commit_list(w, truncate);
    let off: int = if w is Some {
        1
    } else {
        0
    };
    assert forall|i: int| 0 <= i < list.len() implies (#[trigger] list[i]) < FILE_COUNT by {
        if i >= off {
            assert(list[i] == truncate[i - off].0);
        }
    }
    assert forall|fid: int| 0 <= fid < FILE_COUNT && #[trigger] concerned(w, truncate).contains(fid) implies
        list.contains(fid as FileID) by {
        if w is Some && w->0.fid == fid {
            assert(list[0] == fid as FileID);
        } else {
            let i = choose|i: int| 0 <= i < truncate.len() && (#[trigger] truncate[i]).0 == fid;
            assert(list[off + i] == truncate[i].0);
        }
    }
}

/// The first two steps of a commit.
proof fn lemma_commit_tables(st: Store, w: Option<WriterModel>, truncate: Seq<(FileID, usize)>)
    requires
        sound(st),
        durable(st),
        committable(st, w),
        forall|i: int| 0 <= i < truncate.len() ==> (#[trigger] truncate[i]).0 < FILE_COUNT,
    ensures
        ({
            let st1 = commit_first(st, w).0;
            let (st2, r) = truncate_some(st1, truncate, truncate.len() as int);
            &&& r == Ok::<(), Error>(())
            &&& sound(st2)
            &&& durable_but(st2, concerned(w, truncate))
            &&& truncated(st1, st2)
            &&& st2.flash[st2.meta_page as int] == st.flash[st.meta_page as int]
            &&& accounted(st, w) ==> tight(st2)
            &&& forall|p: int| 0 <= p < PAGE_COUNT && #[trigger] st2.used[p] ==> st.used[p]
            &&& forall|fid: int|
                0 <= fid < FILE_COUNT ==> #[trigger] file_bytes(st2, fid) == dropped(
                    file_bytes(st, fid) + added(st, w, fid),
                    asked(truncate, truncate.len() as int, fid),
                )
        }),
{
    let st1 = commit_first(st, w).0;
    let n = truncate.len() as int;
    let st2 = truncate_some(st1, truncate, n).0;
    lemma_commit_first(st, w);
    law_truncate_some(st1, truncate, n);
    let stale = match w {
        Some(x) => Set::<int>::empty().insert(x.fid as int),
        None => Set::<int>::empty(),
    };
    let stale2 = concerned(w, truncate);
    assert forall|fid: int|
        #![trigger st2.files[fid]]
        0 <= fid < FILE_COUNT && !stale2.contains(fid) implies !stale.contains(fid)
        && st2.files[fid] == st1.files[fid] by {}
    lemma_durable_frame(st1, st2, stale, stale2);
    assert(st2.flash[st2.meta_page as int] == st.flash[st.meta_page as int]) by {
        if let Some(x) = w {
            assert(!writer_has(st, x, st.meta_page as int));
        }
    }
    assert forall|fid: int| 0 <= fid < FILE_COUNT implies #[trigger] file_bytes(st2, fid)
        == dropped(file_bytes(st, fid) + added(st, w, fid), asked(truncate, n, fid)) by {
        assert(file_bytes(st1, fid) == file_bytes(st, fid) + added(st, w, fid));
    }
    if accounted(st, w) {
        assert forall|p: int| 0 <= p < PAGE_COUNT implies (#[trigger] st2.used[p] <==> p
            == st2.meta_page || in_file(st2, p)) by {
            assert(st2.used[p] <==> st1.used[p] && !(in_file(st1, p) && !in_file(st2, p)));
            assert(in_file(st1, p) <==> in_file(st, p) || (w is Some && writer_has(st, w->0, p)));
            if in_file(st2, p) {
                lemma_in_file_used(st2, p);
            }
        }
    }
}

/// A list of truncations that can be carried out names files.
pub proof fn lemma_ready_ids(st: Store, list: Seq<(FileID, usize)>, k: int)
    requires
        sound(st),
        0 <= k <= list.len(),
        forall|i: int| 0 <= i < list.len() ==> #[trigger] truncation_ready(st, list, i),
    ensures
        forall|i: int| 0 <= i < k ==> (#[trigger] list[i]).0 < FILE_COUNT,
    decreases k,
{
    if k > 0 {
        lemma_ready_ids(st, list, k - 1);
        law_truncate_some(st, list, k - 1);
        assert(truncation_ready(st, list, k - 1));
    }
}

/// A commit succeeds: there is a way for it to fail only if it needs a new meta page and no page
/// is free. It makes what has been written part of the file, drops the bytes that it is asked to
/// drop, changes no other file, and makes all of this durable. No page is lost.
pub proof fn law_commit(st: Store, w: Option<WriterModel>, truncate: Seq<(FileID, usize)>)
    requires
        sound(st),
        durable(st),
        committable(st, w),
        commit_ready(st, w, truncate),
        meta_fits(st, commit_list(w, truncate).len() as int) || st.meta_seq < u32::MAX,
    ensures
        ({
            let (st3, w3, r) = commit_all(st, w, truncate);
            &&& r == Ok::<(), Error>(())
            &&& committed(st, w, truncate, st3)
            &&& accounted(st, w) ==> tight(st3)
            &&& w is Some <==> w3 is Some
            &&& w is Some && (st3.files[w->0.fid as int].last is Some || w3->0.last is None) ==> {
                &&& writer_ok(st3, w3->0)
                &&& writer_open(st3, w3->0)
                &&& written(st3, w3->0) == Seq::<u8>::empty()
            }
        }),
{
    let (st1, w1, r1) = commit_first(st, w);
    let n = truncate.len() as int;
    let (st2, r2) = truncate_some(st1, truncate, n);
    let list = commit_list(w, truncate);
    lemma_commit_first(st, w);
    lemma_ready_ids(st1, truncate, n);
    lemma_commit_tables(st, w, truncate);
    lemma_commit_list(w, truncate);
    law_truncate_some(st1, truncate, n);
    law_write_meta(st2, list, concerned(w, truncate));
    let (st3, r3) = write_meta(st2, list);
    assert forall|fid: int| 0 <= fid < FILE_COUNT implies #[trigger] file_bytes(st3, fid)
        == dropped(file_bytes(st, fid) + added(st, w, fid), asked(truncate, n, fid)) by {
        assert(file_bytes(st3, fid) == file_bytes(st2, fid));
    }
    if let Some(x) = w {
        let fid = x.fid as int;
        let x1 = w1->0;
        if st3.files[fid].last is Some || x1.last is None {
            assert(st2.files[fid] == empty_file() || (st2.files[fid].last == st1.files[fid].last
                && st2.files[fid].end == st1.files[fid].end));
            if x1.last is None {
                assert(file_ok(st1.flash, st1.files[fid]));
                lemma_empty_file(st1.flash, st1.files[fid]);
                assert(file_ok(st2.flash, st2.files[fid]));
                if st2.files[fid].last is None {
                    lemma_empty_file(st2.flash, st2.files[fid]);
                }
            }
            assert(target(st3, x1) == st3.files[fid]);
            lemma_idle_writer(st3, x1);
        }
    }
}

/// `law_commit`, for a commit that may or may not meet its conditions.
pub proof fn lemma_commit_outcome(st: Store, w: Option<WriterModel>, truncate: Seq<(FileID, usize)>)
    requires
        commit_ready(st, w, truncate),
    ensures
        sound(st) && durable(st) && committable(st, w) && (meta_fits(
            st,
            commit_list(w, truncate).len() as int,
        ) || st.meta_seq < u32::MAX) ==> commit_all(st, w, truncate).2 == Ok::<(), Error>(())
            && committed(st, w, truncate, commit_all(st, w, truncate).0),
        sound(st) && meta_readable(st) && committable(st, w) && (meta_fits(
            st,
            commit_list(w, truncate).len() as int,
        ) || st.meta_seq < u32::MAX) ==> commit_all(st, w, truncate).2 == Ok::<(), Error>(())
            && bytes_committed(st, w, truncate, commit_all(st, w, truncate).0),
{
    lemma_commit_any(st, w, truncate);
    if sound(st) && durable(st) && committable(st, w) && (meta_fits(
        st,
        commit_list(w, truncate).len() as int,
    ) || st.meta_seq < u32::MAX) {
        law_commit(st, w, truncate);
    }
}

/// A commit that drops nothing only adds what has been written, and the writer can go on.
pub proof fn law_commit_only(st: Store, w: WriterModel)
    requires
        sound(st),
        durable(st),
        committable(st, Some(w)),
        commit_ready(st, Some(w), Seq::empty()),
        meta_fits(st, 1) || st.meta_seq < u32::MAX,
    ensures
        ({
            let (st1, w1, r) = commit_all(st, Some(w), Seq::empty());
            &&& r == Ok::<(), Error>(())
            &&& sound(st1)
            &&& durable(st1)
            &&& writer_ok(st1, w1->0)
            &&& writer_open(st1, w1->0)
            &&& written(st1, w1->0) == Seq::<u8>::empty()
            &&& forall|fid: int|
                0 <= fid < FILE_COUNT ==> #[trigger] file_bytes(st1, fid) == file_bytes(st, fid)
                    + added(st, Some(w), fid)
        }),
{
    let none = Seq::<(FileID, usize)>::empty();
    assert(commit_list(Some(w), none).len() == 1);
    law_commit(st, Some(w), none);
    let (st1, w1, r) = commit_all(st, Some(w), none);
    let fid = w.fid as int;
    lemma_commit_first(st, Some(w));
    let st2 = commit_first(st, Some(w)).0;
    assert(truncate_some(st2, none, 0) == (st2, Ok::<(), Error>(())));
    assert(st1.files == st2.files);
    assert forall|fid: int| 0 <= fid < FILE_COUNT implies #[trigger] file_bytes(st1, fid)
        == file_bytes(st, fid) + added(st, Some(w), fid) by {
        let c = file_bytes(st, fid) + added(st, Some(w), fid);
        assert(asked(none, 0, fid) == 0);
        assert(dropped(c, 0) =~= c);
    }
}

/// A commit can be made as long as the meta page has room for the entries of its files, or a page
/// is free for a new one.
pub proof fn law_commit_ready(st: Store, w: Option<WriterModel>, truncate: Seq<(FileID, usize)>)
    requires
        sound(st),
        durable(st),
        committable(st, w),
        forall|i: int| 0 <= i < truncate.len() ==> (#[trigger] truncate[i]).0 < FILE_COUNT,
        meta_fits(st, commit_list(w, truncate).len() as int) || has_free(st.used),
    ensures
        commit_ready(st, w, truncate),
{
    let (st1, w1, r1) = commit_first(st, w);
    let n = truncate.len() as int;
    let (st2, r2) = truncate_some(st1, truncate, n);
    lemma_commit_tables(st, w, truncate);
    lemma_commit_first(st, w);
    assert forall|i: int| 0 <= i < truncate.len() implies #[trigger] truncation_ready(
        st1,
        truncate,
        i,
    ) by {
        law_truncate_some(st1, truncate, i);
        let sti = truncate_some(st1, truncate, i).0;
        let f = sti.files[truncate[i].0 as int];
        assert(file_ok(sti.flash, f));
        lemma_contents_len(sti.flash, f);
        if f.last is None {
            lemma_empty_file(sti.flash, f);
        }
    }
    if has_free(st.used) {
        lemma_lowest_free_from(st.used, 0);
        lemma_lowest_free_from(st2.used, 0);
        assert(!st2.used[lowest_free(st.used)]);
    }
}

/// What has been committed is what a mount finds, after a loss of power as well.
pub proof fn law_commit_survives(
    st: Store,
    w: Option<WriterModel>,
    truncate: Seq<(FileID, usize)>,
    fresh: Store,
)
    requires
        sound(st),
        durable(st),
        committable(st, w),
        commit_ready(st, w, truncate),
        meta_fits(st, commit_list(w, truncate).len() as int) || st.meta_seq < u32::MAX,
        fresh.flash == commit_all(st, w, truncate).0.flash,
        fresh.files == Seq::new(FILE_COUNT as nat, |i: int| empty_file()),
    ensures
        ({
            let (st1, r) = mount(fresh);
            &&& r == Ok::<(), Error>(())
            &&& committed(st, w, truncate, st1)
            &&& tight(st1)
        }),
{
    law_commit(st, w, truncate);
    let st3 = commit_all(st, w, truncate).0;
    law_mount(st3, fresh);
    let st1 = mount(fresh).0;
    assert forall|fid: int| 0 <= fid < FILE_COUNT implies #[trigger] file_bytes(st1, fid)
        == dropped(
        file_bytes(st, fid) + added(st, w, fid),
        asked(truncate, truncate.len() as int, fid),
    ) by {
        assert(file_bytes(st1, fid) == file_bytes(st3, fid));
    }
}

/// Appending leaves what is durable alone, and takes no pages but those that the writer then has.
pub proof fn law_append_durable(st: Store, w: WriterModel, data: Seq<u8>)
    requires
        sound(st),
        durable(st),
        writer_ok(st, w),
        w.wf(),
        append_has_space(st, w, data),
        w.position() + data.len() <= u32::MAX || append(st, w, data).2 is Ok,
    ensures
        durable(append(st, w, data).0),
        accounted(st, Some(w)) ==> accounted(
            append(st, w, data).0,
            Some(append(st, w, data).1),
        ),
{
    law_append(st, w, data);
    let (st1, w1, r) = append(st, w, data);
    assert(st1.flash[st.meta_page as int] == st.flash[st.meta_page as int]) by {
        assert(!writer_has(st, w, st.meta_page as int));
    }
    lemma_durable_frame(st, st1, Set::empty(), Set::empty());
    if accounted(st, Some(w)) {
        assert forall|p: int| 0 <= p < PAGE_COUNT && #[trigger] st1.used[p] implies p
            == st1.meta_page || in_file(st1, p) || writer_has(st1, w1, p) by {
            if st.used[p] {
                if in_file(st, p) {
                    let b = choose|b: int|
                        0 <= b < FILE_COUNT && #[trigger] run_has(pages_of(st, b), p);
                    assert(pages_of(st1, b) == pages_of(st, b));
                    assert(run_has(pages_of(st1, b), p));
                }
            }
        }
    }
}

/// What has been written and not committed is lost with the power, and nothing else is: a mount
/// finds the files as they were, and the pages that the writer had taken are free again.
pub proof fn law_uncommitted_is_lost(st: Store, w: WriterModel, data: Seq<u8>, fresh: Store)
    requires
        sound(st),
        durable(st),
        writer_ok(st, w),
        w.wf(),
        append_has_space(st, w, data),
        w.position() + data.len() <= u32::MAX || append(st, w, data).2 is Ok,
        fresh.flash == append(st, w, data).0.flash,
        fresh.files == Seq::new(FILE_COUNT as nat, |i: int| empty_file()),
    ensures
        ({
            let (st1, r) = mount(fresh);
            &&& r == Ok::<(), Error>(())
            &&& sound(st1)
            &&& durable(st1)
            &&& tight(st1)
            &&& st1.files == st.files
            &&& forall|fid: int|
                0 <= fid < FILE_COUNT ==> #[trigger] file_bytes(st1, fid) == file_bytes(st, fid)
        }),
{
    law_append(st, w, data);
    law_append_durable(st, w, data);
    let st2 = append(st, w, data).0;
    law_mount(st2, fresh);
    let st1 = mount(fresh).0;
    assert forall|fid: int| 0 <= fid < FILE_COUNT implies #[trigger] file_bytes(st1, fid)
        == file_bytes(st, fid) by {
        assert(file_bytes(st1, fid) == file_bytes(st2, fid));
    }
}

/// Discarding a writer leaves what is durable alone, and no page is lost.
pub proof fn law_discard_durable(st: Store, w: WriterModel)
    requires
        sound(st),
        durable(st),
        writer_ok(st, w),
        writer_open(st, w),
    ensures
        durable(Store { used: discarded(st, w).0, ..st }),
        accounted(st, Some(w)) ==> tight(Store { used: discarded(st, w).0, ..st }),
{
    law_discard(st, w);
    let st1 = Store { used: discarded(st, w).0, ..st };
    lemma_durable_frame(st, st1, Set::empty(), Set::empty());
    if accounted(st, Some(w)) {
        assert forall|p: int| 0 <= p < PAGE_COUNT implies (#[trigger] st1.used[p] <==> p
            == st1.meta_page || in_file(st1, p)) by {
            if in_file(st, p) {
                let b = choose|b: int| 0 <= b < FILE_COUNT && #[trigger] run_has(pages_of(st, b), p);
                assert(run_has(pages_of(st1, b), p));
            }
            if in_file(st1, p) {
                lemma_in_file_used(st1, p);
            }
        }
    }
}

/// Whether two writers have taken different pages.
pub open spec fn apart(st: Store, w: WriterModel, v: WriterModel) -> bool {
    forall|p: int| #[trigger] writer_has(st, w, p) ==> !writer_has(st, v, p)
}

/// A page of the file that a writer is making is in use.
pub proof fn lemma_target_page(st: Store, w: WriterModel, p: int)
    requires
        sound(st),
        writer_ok(st, w),
        run_has(target_run(st, w), p),
    ensures
        0 <= p < PAGE_COUNT,
        st.used[p],
        p != st.meta_page,
        in_file(st, p) || writer_has(st, w, p),
        in_file(st, p) ==> run_has(pages_of(st, w.fid as int), p),
{
    if run_has(pages_of(st, w.fid as int), p) {
        assert(in_file(st, p));
    } else {
        assert(writer_has(st, w, p));
    }
}

/// Appending with one writer does not concern another one.
pub proof fn law_append_apart(st: Store, w: WriterModel, data: Seq<u8>, v: WriterModel)
    requires
        sound(st),
        writer_ok(st, w),
        writer_ok(st, v),
        apart(st, w, v),
        w.wf(),
        append_has_space(st, w, data),
        w.position() + data.len() <= u32::MAX || append(st, w, data).2 is Ok,
    ensures
        ({
            let (st1, w1, r) = append(st, w, data);
            &&& writer_ok(st1, v)
            &&& writer_open(st, v) ==> writer_open(st1, v)
            &&& written(st1, v) == written(st, v)
            &&& apart(st1, w1, v)
            &&& forall|p: int| #[trigger] writer_has(st1, v, p) <==> writer_has(st, v, p)
        }),
{
    law_append(st, w, data);
    let (st1, w1, r) = append(st, w, data);
    assert forall|p: int| #[trigger] run_has(target_run(st, v), p) implies st1.flash[p]
        == st.flash[p] by {
        lemma_target_page(st, v, p);
        if writer_has(st, w, p) {
            assert(!in_file(st, p));
        }
    }
    assert forall|p: int| #[trigger] writer_has(st, v, p) implies st1.used[p] && p
        != st1.meta_page && !in_file(st1, p) by {
        if in_file(st1, p) {
            let b = choose|b: int| 0 <= b < FILE_COUNT && #[trigger] run_has(pages_of(st1, b), p);
            assert(pages_of(st1, b) == pages_of(st, b));
            assert(run_has(pages_of(st, b), p));
            assert(in_file(st, p));
        }
    }
    lemma_writer_frame(st, st1, v);
    assert forall|p: int| #[trigger] writer_has(st1, w1, p) implies !writer_has(st1, v, p) by {
        if writer_has(st1, v, p) {
            assert(writer_has(st, v, p));
            assert(st.used[p]);
            assert(writer_has(st, w, p));
        }
    }
}

/// A commit leaves pages alone that belong to nobody that it concerns.
pub proof fn lemma_commit_leaves(
    st: Store,
    w: Option<WriterModel>,
    truncate: Seq<(FileID, usize)>,
    p: int,
)
    requires
        sound(st),
        durable(st),
        committable(st, w),
        commit_ready(st, w, truncate),
        meta_fits(st, commit_list(w, truncate).len() as int) || st.meta_seq < u32::MAX,
        0 <= p < PAGE_COUNT,
        st.used[p],
        p != st.meta_page,
        !in_file(st, p),
        w matches Some(x) ==> !writer_has(st, x, p),
    ensures
        ({
            let st2 = truncate_some(commit_first(st, w).0, truncate, truncate.len() as int).0;
            let st3 = commit_all(st, w, truncate).0;
            &&& st2.used[p]
            &&& p != st2.meta_page
            &&& !in_file(st2, p)
            &&& st3.used[p]
            &&& p != st3.meta_page
            &&& !in_file(st3, p)
            &&& st3.flash[p] == st.flash[p]
        }),
{
    let (st1, w1, r1) = commit_first(st, w);
    let n = truncate.len() as int;
    let (st2, r2) = truncate_some(st1, truncate, n);
    let list = commit_list(w, truncate);
    lemma_commit_first(st, w);
    lemma_ready_ids(st1, truncate, n);
    lemma_commit_tables(st, w, truncate);
    lemma_commit_list(w, truncate);
    law_truncate_some(st1, truncate, n);
    law_write_meta(st2, list, concerned(w, truncate));
    let (st3, r3) = write_meta(st2, list);
    assert(!in_file(st1, p));
    assert(st2.used[p]);
    if in_file(st2, p) {
        let b = choose|b: int| 0 <= b < FILE_COUNT && #[trigger] run_has(pages_of(st2, b), p);
        assert(run_has(pages_of(st1, b), p));
        assert(in_file(st1, p));
    }
    if in_file(st3, p) {
        let b = choose|b: int| 0 <= b < FILE_COUNT && #[trigger] run_has(pages_of(st3, b), p);
        assert(pages_of(st3, b) == pages_of(st2, b));
        assert(run_has(pages_of(st2, b), p));
        assert(in_file(st2, p));
    }
    assert(st1.flash[p] == st.flash[p]);
    assert(st3.used[p] == st2.used[p]);
}

/// After a commit, a page in use is the meta page, belongs to a file, or had been in use for
/// nobody that the commit concerns.
pub proof fn lemma_commit_used(
    st: Store,
    w: Option<WriterModel>,
    truncate: Seq<(FileID, usize)>,
    p: int,
)
    requires
        sound(st),
        durable(st),
        committable(st, w),
        commit_ready(st, w, truncate),
        meta_fits(st, commit_list(w, truncate).len() as int) || st.meta_seq < u32::MAX,
        0 <= p < PAGE_COUNT,
        commit_all(st, w, truncate).0.used[p],
    ensures
        ({
            let st3 = commit_all(st, w, truncate).0;
            ||| p == st3.meta_page
            ||| in_file(st3, p)
            ||| st.used[p] && p != st.meta_page && !in_file(st, p) && !(w is Some && writer_has(
                st,
                w->0,
                p,
            ))
        }),
{
    let (st1, w1, r1) = commit_first(st, w);
    let n = truncate.len() as int;
    let (st2, r2) = truncate_some(st1, truncate, n);
    let list = commit_list(w, truncate);
    lemma_commit_first(st, w);
    lemma_ready_ids(st1, truncate, n);
    lemma_commit_tables(st, w, truncate);
    lemma_commit_list(w, truncate);
    law_truncate_some(st1, truncate, n);
    law_write_meta(st2, list, concerned(w, truncate));
    let (st3, r3) = write_meta(st2, list);
    if p != st3.meta_page && !in_file(st3, p) {
        assert(p != st2.meta_page);
        assert(st2.used[p]);
        if in_file(st2, p) {
            let b = choose|b: int| 0 <= b < FILE_COUNT && #[trigger] run_has(pages_of(st2, b), p);
            assert(pages_of(st3, b) == pages_of(st2, b));
            assert(run_has(pages_of(st3, b), p));
        }
        assert(st2.used[p] <==> st1.used[p] && !(in_file(st1, p) && !in_file(st2, p)));
        assert(!in_file(st1, p));
    }
}

/// The pages of the files after a commit are what the truncations leave of those that the writer
/// has made, and nothing is written to them any more.
pub proof fn lemma_commit_pages(
    st: Store,
    w: Option<WriterModel>,
    truncate: Seq<(FileID, usize)>,
)
    requires
        sound(st),
        durable(st),
        committable(st, w),
        commit_ready(st, w, truncate),
        meta_fits(st, commit_list(w, truncate).len() as int) || st.meta_seq < u32::MAX,
    ensures
        ({
            let st1 = commit_first(st, w).0;
            let st2 = truncate_some(st1, truncate, truncate.len() as int).0;
            let st3 = commit_all(st, w, truncate).0;
            &&& st3.files == st2.files
            &&& forall|fid: int|
                #![trigger st3.files[fid]]
                0 <= fid < FILE_COUNT ==> st3.files[fid] == empty_file() || (st3.files[fid].last
                    == st1.files[fid].last && st3.files[fid].end == st1.files[fid].end)
            &&& forall|fid: int|
                0 <= fid < FILE_COUNT ==> #[trigger] pages_of(st3, fid) == pages_of(st2, fid)
            &&& forall|fid: int, p: int|
                0 <= fid < FILE_COUNT && #[trigger] run_has(pages_of(st3, fid), p) ==> run_has(
                    pages_of(st1, fid),
                    p,
                ) && st3.flash[p] == st1.flash[p]
        }),
{
    let (st1, w1, r1) = commit_first(st, w);
    let n = truncate.len() as int;
    let (st2, r2) = truncate_some(st1, truncate, n);
    let list = commit_list(w, truncate);
    lemma_commit_first(st, w);
    lemma_ready_ids(st1, truncate, n);
    lemma_commit_tables(st, w, truncate);
    lemma_commit_list(w, truncate);
    law_truncate_some(st1, truncate, n);
    law_write_meta(st2, list, concerned(w, truncate));
    let (st3, r3) = write_meta(st2, list);
    assert forall|fid: int, p: int|
        0 <= fid < FILE_COUNT && #[trigger] run_has(pages_of(st3, fid), p) implies run_has(
        pages_of(st1, fid),
        p,
    ) && st3.flash[p] == st1.flash[p] by {
        assert(pages_of(st3, fid) == pages_of(st2, fid));
        assert(run_has(pages_of(st2, fid), p));
        assert(st3.used[p] == st2.used[p]);
    }
}

/// A commit that has returned `Ok` could be made.
pub proof fn lemma_commit_went_well(
    st: Store,
    w: Option<WriterModel>,
    truncate: Seq<(FileID, usize)>,
)
    requires
        sound(st),
        durable(st),
        w matches Some(x) ==> writer_ok(st, x) && writer_open(st, x),
        commit_ready(st, w, truncate),
        commit_all(st, w, truncate).2 is Ok,
    ensures
        committable(st, w),
        meta_fits(st, commit_list(w, truncate).len() as int) || st.meta_seq < u32::MAX,
{
    let (st1, w1, r1) = commit_first(st, w);
    let n = truncate.len() as int;
    let (st2, r2) = truncate_some(st1, truncate, n);
    lemma_commit_first(st, w);
    lemma_ready_ids(st1, truncate, n);
    lemma_commit_tables(st, w, truncate);
}

/// A file whose last page stays its last page has not been added to.
proof fn lemma_same_last(st: Store, w: Option<WriterModel>, fid: int)
    requires
        sound(st),
        durable(st),
        committable(st, w),
        0 <= fid < FILE_COUNT,
        st.files[fid].last is Some,
        commit_first(st, w).0.files[fid].last == st.files[fid].last,
    ensures
        commit_first(st, w).0.files[fid] == st.files[fid],
{
    lemma_commit_first(st, w);
    if let Some(x) = w {
        if x.fid == fid && x.page is Some {
            let p = x.page->0.page as int;
            let f = st.files[fid];
            assert(writer_has(st, x, p));
            assert(file_ok(st.flash, f));
            lemma_run_last(st.flash, f);
            let run = pages_of(st, fid);
            assert(run[run.len() - 1].page == f.last->0.page);
            assert(run_has(run, f.last->0.page as int));
            assert(in_file(st, f.last->0.page as int));
        }
    }
}

/// A commit does not concern another writer, as long as the last page of the file of that writer
/// stays its last page: it may drop bytes of the file, but not all of them.
pub proof fn law_commit_apart(
    st: Store,
    w: Option<WriterModel>,
    truncate: Seq<(FileID, usize)>,
    v: WriterModel,
)
    requires
        sound(st),
        durable(st),
        committable(st, w),
        writer_ok(st, v),
        w matches Some(x) ==> apart(st, x, v),
        commit_ready(st, w, truncate),
        meta_fits(st, commit_list(w, truncate).len() as int) || st.meta_seq < u32::MAX,
        commit_all(st, w, truncate).0.files[v.fid as int].last == st.files[v.fid as int].last,
    ensures
        ({
            let st3 = commit_all(st, w, truncate).0;
            &&& writer_ok(st3, v)
            &&& writer_open(st, v) ==> writer_open(st3, v)
            &&& written(st3, v) == written(st, v)
            &&& forall|p: int| #[trigger] writer_has(st3, v, p) <==> writer_has(st, v, p)
        }),
{
    let (st1, w1, r1) = commit_first(st, w);
    let n = truncate.len() as int;
    let (st2, r2) = truncate_some(st1, truncate, n);
    let list = commit_list(w, truncate);
    lemma_commit_first(st, w);
    lemma_ready_ids(st1, truncate, n);
    lemma_commit_tables(st, w, truncate);
    lemma_commit_list(w, truncate);
    law_truncate_some(st1, truncate, n);
    law_write_meta(st2, list, concerned(w, truncate));
    let (st3, r3) = write_meta(st2, list);
    let fid = v.fid as int;
    let f = st.files[fid];
    assert forall|p: int| #[trigger] writer_has(st, v, p) implies st1.used[p] && p != st1.meta_page
        && !in_file(st1, p) && st2.used[p] && p != st2.meta_page && !in_file(st2, p) && st3.used[p]
        && p != st3.meta_page && !in_file(st3, p) && st3.flash[p] == st.flash[p] by {
        if let Some(x) = w {
            if writer_has(st, x, p) {
            }
        }
        lemma_commit_leaves(st, w, truncate, p);
    }
    if f.last is None {
        law_empty(st, fid);
        law_empty(st3, fid);
        lemma_empty_file(st.flash, f);
        assert forall|p: int| #[trigger] run_has(target_run(st, v), p) implies st3.flash[p]
            == st.flash[p] by {
            lemma_target_page(st, v, p);
            if in_file(st, p) {
                assert(run_has(pages_of(st, fid), p));
            }
        }
        lemma_writer_frame(st, st3, v);
    } else {
        lemma_same_last(st, w, fid);
        assert(st1.files[fid] == f);
        assert forall|p: int| #[trigger] run_has(target_run(st, v), p) implies st1.flash[p]
            == st.flash[p] by {
            lemma_target_page(st, v, p);
        }
        lemma_writer_frame(st, st1, v);
        law_empty(st2, fid);
        assert(file_bytes(st2, fid).len() <= file_bytes(st1, fid).len()) by {
            assert(file_bytes(st2, fid) == dropped(file_bytes(st1, fid), asked(truncate, n, fid)));
        }
        assert(file_ok(st1.flash, st1.files[fid]));
        assert(file_ok(st2.flash, st2.files[fid]));
        lemma_contents_len(st1.flash, st1.files[fid]);
        lemma_contents_len(st2.flash, st2.files[fid]);
        lemma_writer_first(st1, st2, v);
        assert forall|p: int| #[trigger] run_has(target_run(st2, v), p) implies st3.flash[p]
            == st2.flash[p] by {
            lemma_target_page(st2, v, p);
            assert(st3.used[p] == st2.used[p]);
        }
        assert forall|p: int| #[trigger] writer_has(st2, v, p) implies st3.used[p] && p
            != st3.meta_page && !in_file(st3, p) by {
            assert(writer_has(st, v, p));
        }
        lemma_writer_frame(st2, st3, v);
        assert forall|p: int| #[trigger] writer_has(st3, v, p) <==> writer_has(st, v, p) by {
            assert(writer_has(st2, v, p) <==> writer_has(st1, v, p));
            assert(writer_has(st1, v, p) <==> writer_has(st, v, p));
        }
    }
}

/// A reader of a file of a sound store gets the bytes of the file, and then the end of the file.
pub proof fn law_read_file(st: Store, fid: int, n: int)
    requires
        sound(st),
        0 <= fid < FILE_COUNT,
        0 <= n,
    ensures
        ({
            let c = file_bytes(st, fid);
            let out = read_bytes(st.flash, st.files[fid], ReaderModel::Created, n);
            if n <= c.len() {
                out.result == Ok::<(), ReadError>(()) && out.bytes == c.subrange(0, n)
            } else {
                out.result == Err::<(), ReadError>(ReadError::Eof) && out.bytes == c
            }
        }),
{
    reveal(reader_at);
    let c = file_bytes(st, fid);
    assert(file_ok(st.flash, st.files[fid]));
    law_read(st.flash, st.files[fid], ReaderModel::Created, 0, n);
    assert(c.subrange(0, c.len() as int) =~= c);
}

/// What has been written and committed is what is read back: right away, and after a loss of power
/// and a mount.
pub proof fn law_read_back(st: Store, w: WriterModel, fresh: Store)
    requires
        sound(st),
        durable(st),
        committable(st, Some(w)),
        commit_ready(st, Some(w), Seq::empty()),
        meta_fits(st, 1) || st.meta_seq < u32::MAX,
        fresh.flash == commit_all(st, Some(w), Seq::empty()).0.flash,
        fresh.files == Seq::new(FILE_COUNT as nat, |i: int| empty_file()),
    ensures
        ({
            let fid = w.fid as int;
            let want = file_bytes(st, fid) + written(st, w);
            let n = want.len() as int;
            let st1 = commit_all(st, Some(w), Seq::empty()).0;
            let st2 = mount(fresh).0;
            let now = read_bytes(st1.flash, st1.files[fid], ReaderModel::Created, n);
            let later = read_bytes(st2.flash, st2.files[fid], ReaderModel::Created, n);
            &&& now.result == Ok::<(), ReadError>(())
            &&& now.bytes == want
            &&& later.result == Ok::<(), ReadError>(())
            &&& later.bytes == want
        }),
{
    let none = Seq::<(FileID, usize)>::empty();
    let fid = w.fid as int;
    let want = file_bytes(st, fid) + written(st, w);
    let n = want.len() as int;
    let st1 = commit_all(st, Some(w), none).0;
    let st2 = mount(fresh).0;
    assert(commit_list(Some(w), none).len() == 1);
    law_commit_only(st, w);
    law_commit_survives(st, Some(w), none, fresh);
    assert(file_bytes(st1, fid) == want);
    assert(asked(none, 0, fid) == 0);
    assert(file_bytes(st2, fid) == dropped(want, 0));
    assert(dropped(want, 0) =~= want);
    law_read_file(st1, fid, n);
    law_read_file(st2, fid, n);
    assert(want.subrange(0, n) =~= want);
}

/// A commit that only drops bytes of one file: the file is truncated, and its entry written.
proof fn lemma_truncate_commit(st: Store, fid: FileID, n: usize)
    requires
        sound(st),
        durable(st),
        fid < FILE_COUNT,
        commit_all(st, None, seq![(fid, n)]).2 is Ok,
        !meta_fits(st, 1) ==> has_free(truncate_one(st, fid as int, n as int).0.used),
    ensures
        ({
            let st1 = truncate_one(st, fid as int, n as int).0;
            let st2 = commit_all(st, None, seq![(fid, n)]).0;
            &&& sound(st1)
            &&& sound(st2)
            &&& durable(st2)
            &&& st2.files == st1.files
            &&& forall|g: int|
                0 <= g < FILE_COUNT ==> #[trigger] file_bytes(st2, g) == file_bytes(st1, g)
            &&& forall|g: int|
                0 <= g < FILE_COUNT ==> #[trigger] pages_of(st2, g) == pages_of(st1, g)
            &&& st1.meta_page == st.meta_page
            &&& st2.meta_page == st1.meta_page || !st1.used[st2.meta_page as int]
            &&& forall|p: int|
                0 <= p < PAGE_COUNT && p != st1.meta_page && p != st2.meta_page
                    ==> #[trigger] st2.used[p] == st1.used[p] && st2.flash[p] == st1.flash[p]
        }),
{
    let list = seq![(fid, n)];
    let fids = commit_list(None, list);
    let st1 = truncate_one(st, fid as int, n as int).0;
    assert(fids =~= seq![fid]);
    assert(truncate_some(st, list, 0) == (st, Ok::<(), Error>(())));
    assert(truncate_some(st, list, 1) == truncate_one(st, fid as int, n as int));
    law_truncate(st, fid as int, n as int);
    let stale = Set::<int>::empty().insert(fid as int);
    assert forall|g: int|
        #![trigger st1.files[g]]
        0 <= g < FILE_COUNT && !stale.contains(g) implies st1.files[g] == st.files[g] by {
        assert(file_bytes(st1, g) == file_bytes(st, g));
    }
    lemma_durable_frame(st, st1, Set::empty(), stale);
    assert(fids[0] == fid);
    law_write_meta(st1, fids, stale);
}

/// Where bytes can be dropped in two commits, they can be dropped in one.
proof fn lemma_sum_ready(st: Store, fid: FileID, a: usize, b: usize)
    requires
        sound(st),
        durable(st),
        fid < FILE_COUNT,
        a + b <= usize::MAX,
        commit_ready(st, None, seq![(fid, a)]),
        commit_all(st, None, seq![(fid, a)]).2 is Ok,
    ensures
        commit_ready(st, None, seq![(fid, (a + b) as usize)]),
        commit_all(st, None, seq![(fid, (a + b) as usize)]).2 is Ok,
{
    let f = fid as int;
    let c = (a + b) as usize;
    let list = seq![(fid, c)];
    lemma_commit_went_well(st, None, seq![(fid, a)]);
    lemma_one_truncation(st, fid, a);
    law_truncate(st, f, a as int);
    law_truncate(st, f, c as int);
    law_truncate_twice(st, f, a as int, b as int);
    let x = truncate_one(st, f, a as int).0;
    let z = truncate_one(st, f, c as int).0;
    law_truncate(x, f, b as int);
    assert(truncate_some(st, list, 0) == (st, Ok::<(), Error>(())));
    assert(truncate_some(st, list, 1) == truncate_one(st, f, c as int));
    assert(commit_list(None, list).len() == 1);
    assert(commit_list(None, seq![(fid, a)]).len() == 1);
    assert(truncation_ready(st, list, 0)) by {
        let file = st.files[f];
        assert(file_ok(st.flash, file));
        lemma_contents_len(st.flash, file);
        if file.last is None {
            lemma_empty_file(st.flash, file);
        }
    }
    if !meta_fits(st, 1) {
        lemma_lowest_free_from(x.used, 0);
        lemma_lowest_free_from(z.used, 0);
        assert(!z.used[lowest_free(x.used)]);
    }
    law_commit(st, None, list);
}

/// Two commits that drop `a` and then `b` bytes of a file leave the bytes and the pages of the
/// files that a single commit leaves that drops `a + b` bytes, and that commit succeeds as well.
/// Apart from pages that serve as meta page on the way, the same pages are in use.
pub proof fn law_truncate_commits(st: Store, fid: FileID, a: usize, b: usize)
    requires
        sound(st),
        durable(st),
        fid < FILE_COUNT,
        a + b <= usize::MAX,
        commit_ready(st, None, seq![(fid, a)]),
        commit_all(st, None, seq![(fid, a)]).2 is Ok,
        commit_ready(commit_all(st, None, seq![(fid, a)]).0, None, seq![(fid, b)]),
        commit_all(commit_all(st, None, seq![(fid, a)]).0, None, seq![(fid, b)]).2 is Ok,
    ensures
        commit_ready(st, None, seq![(fid, (a + b) as usize)]),
        commit_all(st, None, seq![(fid, (a + b) as usize)]).2 is Ok,
        ({
            let st1 = commit_all(st, None, seq![(fid, a)]).0;
            let st2 = commit_all(st1, None, seq![(fid, b)]).0;
            let one = commit_all(st, None, seq![(fid, (a + b) as usize)]).0;
            &&& st2.files == one.files
            &&& forall|g: int|
                0 <= g < FILE_COUNT ==> #[trigger] file_bytes(st2, g) == file_bytes(one, g)
            &&& forall|g: int|
                0 <= g < FILE_COUNT ==> #[trigger] pages_of(st2, g) == pages_of(one, g)
            &&& forall|p: int|
                0 <= p < PAGE_COUNT && p != st.meta_page && p != st1.meta_page && p
                    != st2.meta_page && p != one.meta_page ==> #[trigger] st2.used[p]
                    == one.used[p]
        }),
{
    let f = fid as int;
    let c = (a + b) as usize;
    lemma_sum_ready(st, fid, a, b);
    lemma_one_truncation(st, fid, a);
    lemma_one_truncation(st, fid, c);
    lemma_truncate_commit(st, fid, a);
    lemma_truncate_commit(st, fid, c);
    let x = truncate_one(st, f, a as int).0;
    let st1 = commit_all(st, None, seq![(fid, a)]).0;
    lemma_one_truncation(st1, fid, b);
    lemma_truncate_commit(st1, fid, b);
    let y = truncate_one(st1, f, b as int).0;
    let st2 = commit_all(st1, None, seq![(fid, b)]).0;
    let z = truncate_one(st, f, c as int).0;
    let one = commit_all(st, None, seq![(fid, c)]).0;
    law_truncate_twice(st, f, a as int, b as int);
    let d = truncate_one(x, f, b as int).0;
    assert(d == z);
    law_truncate(x, f, b as int);
    law_truncate(st1, f, b as int);
    assert(y.files =~= d.files);
    assert forall|p: int| 0 <= p < PAGE_COUNT && #[trigger] y.flash[p] != d.flash[p] implies
        !in_file(d, p) by {
        if p != x.meta_page && p != st1.meta_page {
            assert(st1.used[p] == x.used[p]);
        }
        if in_file(d, p) {
            let g = choose|g: int| 0 <= g < FILE_COUNT && #[trigger] run_has(pages_of(d, g), p);
            if g != f {
                assert(file_bytes(d, g) == file_bytes(x, g));
            }
            assert(run_has(pages_of(x, g), p));
        }
    }
    lemma_files_frame(d, y);
    assert forall|g: int| 0 <= g < FILE_COUNT implies #[trigger] file_bytes(st2, g) == file_bytes(
        one,
        g,
    ) by {
        assert(pages_of(y, g) == pages_of(d, g));
        assert(file_bytes(y, g) == file_bytes(d, g));
        assert(file_bytes(one, g) == file_bytes(z, g));
    }
    assert forall|g: int| 0 <= g < FILE_COUNT implies #[trigger] pages_of(st2, g) == pages_of(
        one,
        g,
    ) by {
        assert(pages_of(y, g) == pages_of(d, g));
        assert(pages_of(one, g) == pages_of(z, g));
    }
    assert forall|p: int|
        0 <= p < PAGE_COUNT && p != st.meta_page && p != st1.meta_page && p != st2.meta_page && p
            != one.meta_page implies #[trigger] st2.used[p] == one.used[p] by {
        assert(pages_of(st1, f) == pages_of(x, f));
        assert(pages_of(y, f) == pages_of(d, f));
        assert(st1.used[p] == x.used[p]);
        assert(y.used[p] == d.used[p]);
        assert(one.used[p] == z.used[p]);
    }
}

/// What `commit_ready` says of a commit that only drops bytes of one file.
proof fn lemma_one_truncation(st: Store, fid: FileID, n: usize)
    requires
        sound(st),
        durable(st),
        fid < FILE_COUNT,
        commit_ready(st, None, seq![(fid, n)]),
    ensures
        !meta_fits(st, 1) ==> has_free(truncate_one(st, fid as int, n as int).0.used),
{
    let list = seq![(fid, n)];
    law_truncate(st, fid as int, n as int);
    assert(truncate_some(st, list, 0) == (st, Ok::<(), Error>(())));
    assert(truncate_some(st, list, 1) == truncate_one(st, fid as int, n as int));
    assert(commit_list(None, list).len() == 1);
}

} // verus!
