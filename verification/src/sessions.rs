//! What any sequence of calls on a file manager leaves behind, in memory and on the device.

use vstd::prelude::*;

use crate::allocator::{has_free, lemma_lowest_free_from};
use crate::chain::{file_ok, lemma_contents_len, lemma_empty_file};
use crate::commit_laws::{asked, law_commit_writer, law_discard, law_truncate_nothing};
use crate::config::{FileID, FILE_COUNT, PAGE_COUNT};
use crate::durability::{
    apart, committable, committed, law_append_apart, law_append_durable, law_commit,
    law_commit_apart, law_discard_durable, lemma_commit_leaves, lemma_commit_used,
    lemma_commit_went_well, lemma_durable_frame, lemma_target_page,
};
use crate::flash::flash_shape;
use crate::headers::{lemma_data_image, meta_header, PAGE_MAX_PAYLOAD_SIZE};
use crate::mount_laws::{blank, durable, law_format, law_mount, law_mounts};
use crate::sound::{
    file_bytes, in_file, lemma_in_file_used, lemma_sound_frame, pages_of, run_has, sound,
};
use crate::store::{
    chain_rank, empty_file, free_chain, meta_fits, mount, step_back, truncate_some, Ptr, Store,
};
use crate::write_laws::{
    law_append, law_new_writer, lemma_writer_frame, target, target_run, writer_has, writer_ok,
    writer_open,
};
use crate::writer::{
    append, append_has_space, commit_all, commit_list, commit_ready, discarded, fitting, make_room,
    new_writer, page_header_model, record_ended, truncation_ready, WriterModel,
};
use crate::Error;

verus! {

/// A mounted file manager, and the writers that have been handed out.
pub struct Session {
    pub st: Store,
    /// The writers that continue their files as they are, by a number for each.
    pub open: Map<int, WriterModel>,
    /// The writers that did so until another commit to their file or its deletion.
    pub overtaken: Map<int, WriterModel>,
    /// The pages of what these have written and not committed.
    pub left_behind: Set<int>,
}

/// A call.
pub enum Step {
    /// `FileManager::write`. The writer gets a number that no other one has.
    Open { h: int, fid: FileID },
    /// `FileWriter::write`.
    Write { h: int, data: Seq<u8> },
    /// `FileWriter::record_end`.
    RecordEnd { h: int },
    /// `FileManager::commit_and_truncate`; with a writer and nothing to truncate,
    /// `FileManager::commit`.
    Commit { h: Option<int>, truncate: Seq<(FileID, usize)> },
    /// `FileWriter::discard`.
    Discard { h: int },
    /// No call: an overtaken writer continues its file again, because the file is again as it was.
    Resume { h: int },
    /// `FileManager::mount`.
    Mount,
}

/// The writer with a number, if there is a number.
pub open spec fn writer_of(s: Session, h: Option<int>) -> Option<WriterModel> {
    match h {
        Some(i) => Some(
            if s.open.contains_key(i) {
                s.open[i]
            } else {
                s.overtaken[i]
            },
        ),
        None => None,
    }
}

/// The writer with a number, if it continues its file.
pub open spec fn open_writer(s: Session, h: Option<int>) -> Option<WriterModel> {
    match h {
        Some(i) => if s.open.contains_key(i) {
            Some(s.open[i])
        } else {
            None
        },
        None => None,
    }
}

/// Whether a writer is overtaken, and has nothing to commit or to discard.
pub open spec fn overtaken_idle(s: Session, h: int) -> bool {
    &&& !s.open.contains_key(h)
    &&& s.overtaken.contains_key(h)
    &&& s.overtaken[h].page is None
}

/// Whether another overtaken writer than `h` is filling a page.
pub open spec fn filled_by_other(s: Session, h: int, p: int) -> bool {
    exists|g: int| #[trigger]
        s.overtaken.contains_key(g) && g != h && s.overtaken[g].page is Some
            && s.overtaken[g].page->0.page == p
}

/// Whether discarding an overtaken writer succeeds, and gives back nothing but pages that have
/// been left behind, and that no other one is filling.
pub open spec fn gives_back_own(s: Session, h: int) -> bool {
    let (used, r) = discarded(s.st, s.overtaken[h]);
    &&& r is Ok
    &&& forall|p: int|
        0 <= p < PAGE_COUNT && #[trigger] used[p] != s.st.used[p] ==> s.left_behind.contains(p)
            && !filled_by_other(s, h, p)
}

/// Whether an overtaken writer continues its file as it is now, on pages of its own.
pub open spec fn resumes(s: Session, h: int) -> bool {
    let w = s.overtaken[h];
    &&& writer_ok(s.st, w)
    &&& writer_open(s.st, w)
    &&& forall|p: int| #[trigger]
        writer_has(s.st, w, p) ==> s.left_behind.contains(p) && !filled_by_other(s, h, p)
}

/// Whether a writer has taken a page and not committed it.
pub open spec fn pending(s: Session, p: int) -> bool {
    exists|h: int| s.open.contains_key(h) && #[trigger] writer_has(s.st, s.open[h], p)
}

/// Whether a writer continues its file after a commit with writer `h`. It does if the last page of
/// the file is still the one that it follows.
pub open spec fn kept(s: Session, h: Option<int>, truncate: Seq<(FileID, usize)>, g: int) -> bool {
    let (st1, w1, r) = commit_all(s.st, writer_of(s, h), truncate);
    let fid = s.open[g].fid as int;
    &&& s.open.contains_key(g)
    &&& st1.files[fid].last == if h == Some(g) {
        w1->0.last
    } else {
        s.st.files[fid].last
    }
}

/// Whether a page is one of another writer that a commit with writer `h` overtakes.
pub open spec fn dropped_by(
    s: Session,
    h: Option<int>,
    truncate: Seq<(FileID, usize)>,
    p: int,
) -> bool {
    exists|g: int|
        s.open.contains_key(g) && h != Some(g) && !kept(s, h, truncate, g) && #[trigger] writer_has(
            s.st,
            s.open[g],
            p,
        )
}

/// The writers that have nothing to commit.
pub open spec fn idle_ones(writers: Map<int, WriterModel>) -> Map<int, WriterModel> {
    Map::new(
        |h: int| writers.contains_key(h) && writers[h].page is None,
        |h: int| writers[h],
    )
}

/// What a call leaves behind.
pub open spec fn after(s: Session, step: Step) -> Session {
    match step {
        Step::Open { h, fid } => Session { open: s.open.insert(h, new_writer(s.st, fid)), ..s },
        Step::Write { h, data } => {
            let (st1, w1, r) = append(s.st, writer_of(s, Some(h))->0, data);
            if s.open.contains_key(h) {
                Session { st: st1, open: s.open.insert(h, w1), ..s }
            } else {
                Session {
                    st: st1,
                    overtaken: s.overtaken.insert(h, w1),
                    left_behind: s.left_behind.union(
                        Set::new(
                            |p: int| 0 <= p < PAGE_COUNT && st1.used[p] && !s.st.used[p],
                        ),
                    ),
                    ..s
                }
            }
        },
        Step::RecordEnd { h } => if s.open.contains_key(h) {
            Session { open: s.open.insert(h, record_ended(s.open[h])), ..s }
        } else {
            Session { overtaken: s.overtaken.insert(h, record_ended(s.overtaken[h])), ..s }
        },
        Step::Commit { h, truncate } => {
            let (st1, w1, r) = commit_all(s.st, writer_of(s, h), truncate);
            let writers = Map::new(
                |g: int| s.open.contains_key(g),
                |g: int|
                    if h == Some(g) {
                        w1->0
                    } else {
                        s.open[g]
                    },
            );
            Session {
                st: st1,
                open: Map::new(|g: int| kept(s, h, truncate, g), |g: int| writers[g]),
                overtaken: Map::new(
                    |g: int|
                        if s.open.contains_key(g) {
                            !kept(s, h, truncate, g)
                        } else {
                            s.overtaken.contains_key(g)
                        },
                    |g: int|
                        if s.open.contains_key(g) {
                            writers[g]
                        } else {
                            s.overtaken[g]
                        },
                ),
                left_behind: s.left_behind.union(
                    Set::new(|p: int| dropped_by(s, h, truncate, p)),
                ),
            }
        },
        Step::Discard { h } => if s.open.contains_key(h) && s.open[h].page is Some {
            Session {
                st: Store { used: discarded(s.st, s.open[h]).0, ..s.st },
                open: s.open.remove(h),
                ..s
            }
        } else if !s.open.contains_key(h) && s.overtaken[h].page is Some {
            let used = discarded(s.st, s.overtaken[h]).0;
            Session {
                st: Store { used, ..s.st },
                overtaken: s.overtaken.remove(h),
                left_behind: Set::new(|p: int| s.left_behind.contains(p) && used[p]),
                ..s
            }
        } else {
            s
        },
        Step::Resume { h } => Session {
            open: s.open.insert(h, s.overtaken[h]),
            overtaken: s.overtaken.remove(h),
            left_behind: Set::new(
                |p: int| s.left_behind.contains(p) && !writer_has(s.st, s.overtaken[h], p),
            ),
            ..s
        },
        Step::Mount => Session {
            st: mount(s.st).0,
            open: idle_ones(s.open),
            overtaken: idle_ones(s.overtaken),
            left_behind: Set::empty(),
        },
    }
}

/// Whether a call is in order, and returns `Ok`. An overtaken writer that has something to commit
/// is not committed, unless it resumes: that would take away what others have committed. It is not
/// discarded if that would free their pages. A writer whose pages have been given back, because it
/// was discarded or the files were mounted again, is not used any more.
pub open spec fn goes_well(s: Session, step: Step) -> bool {
    match step {
        Step::Open { h, fid } => {
            &&& fid < FILE_COUNT
            &&& !s.open.contains_key(h)
            &&& !s.overtaken.contains_key(h)
        },
        Step::Write { h, data } => {
            let w = writer_of(s, Some(h))->0;
            &&& s.open.contains_key(h) || s.overtaken.contains_key(h)
            &&& append_has_space(s.st, w, data)
            &&& append(s.st, w, data).2 is Ok
        },
        Step::RecordEnd { h } => s.open.contains_key(h) || s.overtaken.contains_key(h),
        Step::Commit { h, truncate } => {
            &&& h matches Some(i) ==> s.open.contains_key(i) || overtaken_idle(s, i)
            &&& commit_ready(s.st, writer_of(s, h), truncate)
            &&& commit_all(s.st, writer_of(s, h), truncate).2 is Ok
        },
        Step::Discard { h } => {
            ||| s.open.contains_key(h)
            ||| s.overtaken.contains_key(h) && gives_back_own(s, h)
        },
        Step::Resume { h } => {
            &&& !s.open.contains_key(h)
            &&& s.overtaken.contains_key(h)
            &&& resumes(s, h)
        },
        Step::Mount => true,
    }
}

/// What any number of calls leave behind.
pub open spec fn after_all(s: Session, steps: Seq<Step>) -> Session
    decreases steps.len(),
{
    if steps.len() == 0 {
        s
    } else {
        after(after_all(s, steps.drop_last()), steps.last())
    }
}

/// Whether all of them go well.
pub open spec fn all_go_well(s: Session, steps: Seq<Step>) -> bool
    decreases steps.len(),
{
    steps.len() > 0 ==> all_go_well(s, steps.drop_last()) && goes_well(
        after_all(s, steps.drop_last()),
        steps.last(),
    )
}

/// What holds of a session between calls: the store is sound and durable, the writers can go on
/// and have pages of their own, no two of the overtaken ones are filling the same page, and every
/// page in use has an owner.
pub open spec fn session_ok(s: Session) -> bool {
    &&& sound(s.st)
    &&& durable(s.st)
    &&& forall|h: int| #[trigger]
        s.open.contains_key(h) ==> writer_ok(s.st, s.open[h]) && writer_open(s.st, s.open[h])
    &&& forall|g: int, h: int| #[trigger]
        s.open.contains_key(g) && #[trigger] s.open.contains_key(h) && g != h ==> apart(
            s.st,
            s.open[g],
            s.open[h],
        )
    &&& forall|h: int| #[trigger]
        s.overtaken.contains_key(h) ==> s.overtaken[h].wf() && (s.overtaken[h].page matches Some(
            op,
        ) ==> s.left_behind.contains(op.page as int) && !filled_by_other(s, h, op.page as int))
    &&& forall|p: int| #[trigger]
        s.left_behind.contains(p) ==> 0 <= p < PAGE_COUNT && s.st.used[p] && p != s.st.meta_page
            && !in_file(s.st, p) && !pending(s, p)
    &&& forall|p: int|
        0 <= p < PAGE_COUNT && #[trigger] s.st.used[p] ==> p == s.st.meta_page || in_file(s.st, p)
            || pending(s, p) || s.left_behind.contains(p)
}

/// A writer with nothing to commit has no pages.
proof fn lemma_idle_has_nothing(st: Store, w: WriterModel)
    requires
        writer_open(st, w),
        w.page is None,
    ensures
        forall|p: int| !#[trigger] writer_has(st, w, p),
{
}

/// A page belongs to a file as long as no file changes its pages.
proof fn lemma_same_pages(st: Store, st1: Store)
    requires
        forall|fid: int|
            0 <= fid < FILE_COUNT ==> #[trigger] pages_of(st1, fid) == pages_of(st, fid),
    ensures
        forall|p: int| #[trigger] in_file(st1, p) <==> in_file(st, p),
{
    assert forall|p: int| #[trigger] in_file(st1, p) <==> in_file(st, p) by {
        if in_file(st1, p) {
            let b = choose|b: int| 0 <= b < FILE_COUNT && #[trigger] run_has(pages_of(st1, b), p);
            assert(run_has(pages_of(st, b), p));
        }
        if in_file(st, p) {
            let b = choose|b: int| 0 <= b < FILE_COUNT && #[trigger] run_has(pages_of(st, b), p);
            assert(pages_of(st1, b) == pages_of(st, b));
            assert(run_has(pages_of(st1, b), p));
        }
    }
}

/// A page of a writer is pending.
proof fn lemma_pending(s: Session, h: int, p: int)
    requires
        s.open.contains_key(h),
        writer_has(s.st, s.open[h], p),
    ensures
        pending(s, p),
{
}

/// Pages are pending as long as the writers have the same pages.
proof fn lemma_same_pending(s: Session, s1: Session)
    requires
        forall|g: int, p: int|
            s1.open.contains_key(g) && #[trigger] writer_has(s1.st, s1.open[g], p)
                ==> s.open.contains_key(g) && writer_has(s.st, s.open[g], p),
        forall|g: int, p: int|
            s.open.contains_key(g) && #[trigger] writer_has(s.st, s.open[g], p)
                ==> s1.open.contains_key(g) && writer_has(s1.st, s1.open[g], p),
    ensures
        forall|p: int| #[trigger] pending(s1, p) <==> pending(s, p),
{
    assert forall|p: int| #[trigger] pending(s1, p) <==> pending(s, p) by {
        if pending(s1, p) {
            let g = choose|g: int|
                s1.open.contains_key(g) && #[trigger] writer_has(s1.st, s1.open[g], p);
            lemma_pending(s, g, p);
        }
        if pending(s, p) {
            let g = choose|g: int|
                s.open.contains_key(g) && #[trigger] writer_has(s.st, s.open[g], p);
            lemma_pending(s1, g, p);
        }
    }
}

/// Handing out a writer.
proof fn lemma_open(s: Session, h: int, fid: FileID)
    requires
        session_ok(s),
        goes_well(s, Step::Open { h, fid }),
    ensures
        session_ok(after(s, Step::Open { h, fid })),
{
    let s1 = after(s, Step::Open { h, fid });
    let w = new_writer(s.st, fid);
    law_new_writer(s.st, fid);
    lemma_idle_has_nothing(s.st, w);
    lemma_same_pending(s, s1);
}

/// Marking the end of a record.
proof fn lemma_record_end(s: Session, h: int)
    requires
        session_ok(s),
        s.open.contains_key(h),
    ensures
        session_ok(after(s, Step::RecordEnd { h })),
{
    let s1 = after(s, Step::RecordEnd { h });
    let w = s.open[h];
    let w1 = record_ended(w);
    assert(target(s.st, w1) == target(s.st, w));
    assert forall|p: int| #[trigger] writer_has(s.st, w1, p) <==> writer_has(s.st, w, p) by {}
    assert forall|g: int| #[trigger] s1.open.contains_key(g) implies writer_ok(s1.st, s1.open[g])
        && writer_open(s1.st, s1.open[g]) by {
        assert(s.open.contains_key(g));
    }
    lemma_same_pending(s, s1);
    assert forall|g: int, k: int| #[trigger]
        s1.open.contains_key(g) && #[trigger] s1.open.contains_key(k) && g != k implies apart(
        s1.st,
        s1.open[g],
        s1.open[k],
    ) by {
        assert(s.open.contains_key(g) && s.open.contains_key(k));
    }
}

/// Writing with a writer that continues its file.
proof fn lemma_write(s: Session, h: int, data: Seq<u8>)
    requires
        session_ok(s),
        s.open.contains_key(h),
        goes_well(s, Step::Write { h, data }),
    ensures
        session_ok(after(s, Step::Write { h, data })),
{
    let s1 = after(s, Step::Write { h, data });
    let w = s.open[h];
    let (st1, w1, r) = append(s.st, w, data);
    law_append(s.st, w, data);
    law_append_durable(s.st, w, data);
    lemma_same_pages(s.st, st1);
    assert forall|g: int| #[trigger] s.open.contains_key(g) && g != h implies {
        let v = s.open[g];
        &&& writer_ok(st1, v)
        &&& writer_open(st1, v)
        &&& apart(st1, w1, v)
        &&& apart(st1, v, w1)
        &&& forall|p: int| #[trigger] writer_has(st1, v, p) <==> writer_has(s.st, v, p)
    } by {
        assert(apart(s.st, w, s.open[g]));
        law_append_apart(s.st, w, data, s.open[g]);
    }
    assert forall|a: int, b: int| #[trigger]
        s1.open.contains_key(a) && #[trigger] s1.open.contains_key(b) && a != b implies apart(
        st1,
        s1.open[a],
        s1.open[b],
    ) by {
        assert(s.open.contains_key(a) && s.open.contains_key(b));
        assert(apart(s.st, s.open[a], s.open[b]));
    }
    assert forall|g: int| #[trigger] s1.open.contains_key(g) implies writer_ok(st1, s1.open[g])
        && writer_open(st1, s1.open[g]) by {
        assert(s.open.contains_key(g));
    }
    assert forall|p: int| #[trigger] s1.left_behind.contains(p) implies 0 <= p < PAGE_COUNT
        && st1.used[p] && p != st1.meta_page && !in_file(st1, p) && !pending(s1, p) by {
        assert(s.left_behind.contains(p));
        if pending(s1, p) {
            let g = choose|g: int|
                s1.open.contains_key(g) && #[trigger] writer_has(st1, s1.open[g], p);
            assert(s.open.contains_key(g));
            assert(writer_has(s.st, s.open[g], p));
            lemma_pending(s, g, p);
        }
    }
    assert forall|p: int| 0 <= p < PAGE_COUNT && #[trigger] st1.used[p] implies p == st1.meta_page
        || in_file(st1, p) || pending(s1, p) || s1.left_behind.contains(p) by {
        if !s.st.used[p] {
            lemma_pending(s1, h, p);
        } else if pending(s, p) {
            let g = choose|g: int|
                s.open.contains_key(g) && #[trigger] writer_has(s.st, s.open[g], p);
            if g != h {
                assert(writer_has(st1, s.open[g], p));
            }
            lemma_pending(s1, g, p);
        }
    }
}

/// What writing with an overtaken writer leaves alone: the tables of the files, the meta page, and
/// every page in use but the one that the writer is filling. What it does write is no meta page.
pub open spec fn stray_frame(st: Store, w: WriterModel, st1: Store, w1: WriterModel) -> bool {
    &&& st1.wf()
    &&& w1.shape()
    &&& st1.files == st.files
    &&& st1.meta_page == st.meta_page
    &&& st1.meta_seq == st.meta_seq
    &&& forall|p: int| 0 <= p < PAGE_COUNT && st.used[p] ==> #[trigger] st1.used[p]
    &&& forall|p: int|
        0 <= p < PAGE_COUNT && #[trigger] st1.flash[p] != st.flash[p] ==> (!st.used[p] || (w.page
            is Some && w.page->0.page == p)) && meta_header(st1.flash[p]) is None
    &&& w1.page matches Some(op) ==> {
        &&& st1.used[op.page as int]
        &&& !st.used[op.page as int] || (w.page is Some && w.page->0.page == op.page)
    }
}

/// Making room for a byte, whatever has become of the file.
proof fn lemma_stray_room(st: Store, w: WriterModel)
    requires
        st.wf(),
        w.wf(),
        w.page matches Some(op) ==> st.used[op.page as int],
        make_room(st, w).2 is Ok,
        w.needs_page() ==> has_free(st.used),
    ensures
        ({
            let (st1, w1, r) = make_room(st, w);
            &&& stray_frame(st, w, st1, w1)
            &&& w1.page is Some
            &&& w1.page->0.buf.len() < PAGE_MAX_PAYLOAD_SIZE
        }),
{
    if w.needs_page() {
        lemma_lowest_free_from(st.used, 0);
        if w.page is Some {
            lemma_data_image(page_header_model(w), w.page->0.buf);
        }
    }
}

/// Appending bytes, whatever has become of the file.
pub proof fn lemma_stray_append(st: Store, w: WriterModel, data: Seq<u8>)
    requires
        st.wf(),
        w.wf(),
        w.page matches Some(op) ==> st.used[op.page as int],
        append_has_space(st, w, data),
        append(st, w, data).2 is Ok,
    ensures
        stray_frame(st, w, append(st, w, data).0, append(st, w, data).1),
        append(st, w, data).1.wf(),
    decreases data.len(),
{
    if data.len() > 0 {
        let (st1, w1, r) = make_room(st, w);
        lemma_stray_room(st, w);
        let n = fitting(w1, data.len() as int);
        let w2 = w1.filled(data.subrange(0, n));
        let tail = data.subrange(n, data.len() as int);
        lemma_stray_append(st1, w2, tail);
        let (st3, w3, r3) = append(st1, w2, tail);
        assert forall|p: int| 0 <= p < PAGE_COUNT && st.used[p] implies #[trigger] st3.used[p] by {
            assert(st1.used[p]);
        }
        assert forall|p: int| 0 <= p < PAGE_COUNT && #[trigger] st3.flash[p] != st.flash[p] implies (
        !st.used[p] || (w.page is Some && w.page->0.page == p)) && meta_header(
            st3.flash[p],
        ) is None by {
            if st3.flash[p] != st1.flash[p] {
                if st.used[p] {
                    assert(st1.used[p]);
                }
            } else {
                assert(st1.flash[p] != st.flash[p]);
            }
        }
        if let Some(op) = w3.page {
            if st.used[op.page as int] {
                assert(st1.used[op.page as int]);
            }
        }
    }
}

/// Writing with an overtaken writer, as far as files go.
proof fn lemma_stray_files(s: Session, h: int, data: Seq<u8>)
    requires
        session_ok(s),
        !s.open.contains_key(h),
        goes_well(s, Step::Write { h, data }),
    ensures
        ({
            let st1 = after(s, Step::Write { h, data }).st;
            &&& sound(st1)
            &&& durable(st1)
            &&& forall|fid: int|
                0 <= fid < FILE_COUNT ==> #[trigger] file_bytes(st1, fid) == file_bytes(s.st, fid)
            &&& forall|p: int| #[trigger] in_file(st1, p) <==> in_file(s.st, p)
        }),
{
    let w = s.overtaken[h];
    let (st1, w1, r) = append(s.st, w, data);
    lemma_stray_append(s.st, w, data);
    assert forall|p: int| 0 <= p < PAGE_COUNT && in_file(s.st, p) implies #[trigger] st1.used[p] by {
        lemma_in_file_used(s.st, p);
    }
    assert forall|p: int|
        0 <= p < PAGE_COUNT && #[trigger] st1.flash[p] != s.st.flash[p] implies !in_file(
        s.st,
        p,
    ) by {
        if in_file(s.st, p) {
            lemma_in_file_used(s.st, p);
        }
    }
    if in_file(s.st, st1.meta_page as int) {
        lemma_in_file_used(s.st, st1.meta_page as int);
    }
    lemma_sound_frame(s.st, st1);
    lemma_durable_frame(s.st, st1, Set::empty(), Set::empty());
}

/// Writing with an overtaken writer.
proof fn lemma_stray_write(s: Session, h: int, data: Seq<u8>)
    requires
        session_ok(s),
        !s.open.contains_key(h),
        goes_well(s, Step::Write { h, data }),
    ensures
        session_ok(after(s, Step::Write { h, data })),
{
    let s1 = after(s, Step::Write { h, data });
    let w = s.overtaken[h];
    let (st1, w1, r) = append(s.st, w, data);
    lemma_stray_append(s.st, w, data);
    lemma_stray_files(s, h, data);
    assert forall|g: int| #[trigger] s.open.contains_key(g) implies {
        let v = s.open[g];
        &&& writer_ok(st1, v)
        &&& writer_open(st1, v)
        &&& forall|p: int| #[trigger] writer_has(st1, v, p) <==> writer_has(s.st, v, p)
    } by {
        let v = s.open[g];
        assert forall|p: int| #[trigger] run_has(target_run(s.st, v), p) implies st1.flash[p]
            == s.st.flash[p] by {
            lemma_target_page(s.st, v, p);
            if in_file(s.st, p) {
                lemma_in_file_used(s.st, p);
            }
            if writer_has(s.st, v, p) {
                lemma_pending(s, g, p);
            }
        }
        lemma_writer_frame(s.st, st1, v);
    }
    assert forall|a: int, b: int| #[trigger]
        s1.open.contains_key(a) && #[trigger] s1.open.contains_key(b) && a != b implies apart(
        st1,
        s1.open[a],
        s1.open[b],
    ) by {
        assert(apart(s.st, s.open[a], s.open[b]));
    }
    lemma_same_pending(s, s1);
    assert forall|p: int| #[trigger] s1.left_behind.contains(p) implies 0 <= p < PAGE_COUNT
        && st1.used[p] && p != st1.meta_page && !in_file(st1, p) && !pending(s1, p) by {
        if !s.left_behind.contains(p) {
            assert(!s.st.used[p]);
            if in_file(s.st, p) {
                lemma_in_file_used(s.st, p);
            }
            if pending(s, p) {
                let g = choose|g: int|
                    s.open.contains_key(g) && #[trigger] writer_has(s.st, s.open[g], p);
                assert(writer_ok(s.st, s.open[g]));
            }
        }
    }
    assert forall|p: int| 0 <= p < PAGE_COUNT && #[trigger] st1.used[p] implies p == st1.meta_page
        || in_file(st1, p) || pending(s1, p) || s1.left_behind.contains(p) by {
        if s.st.used[p] {
            assert(p == s.st.meta_page || in_file(s.st, p) || pending(s, p)
                || s.left_behind.contains(p));
        }
    }
}

/// Marking the end of a record with an overtaken writer.
proof fn lemma_stray_record_end(s: Session, h: int)
    requires
        session_ok(s),
        !s.open.contains_key(h),
        s.overtaken.contains_key(h),
    ensures
        session_ok(after(s, Step::RecordEnd { h })),
{
    let s1 = after(s, Step::RecordEnd { h });
    lemma_same_pending(s, s1);
}

/// Discarding what has been written.
proof fn lemma_discard(s: Session, h: int)
    requires
        session_ok(s),
        s.open.contains_key(h),
        s.open[h].page is Some,
    ensures
        session_ok(after(s, Step::Discard { h })),
{
    let s1 = after(s, Step::Discard { h });
    let w = s.open[h];
    law_discard(s.st, w);
    law_discard_durable(s.st, w);
    let st1 = s1.st;
    lemma_same_pages(s.st, st1);
    assert forall|g: int| #[trigger] s1.open.contains_key(g) implies {
        let v = s.open[g];
        &&& s1.open[g] == v
        &&& s.open.contains_key(g)
        &&& writer_ok(st1, v)
        &&& writer_open(st1, v)
        &&& forall|p: int| #[trigger] writer_has(st1, v, p) <==> writer_has(s.st, v, p)
    } by {
        let v = s.open[g];
        assert(s.open.contains_key(g) && g != h);
        assert(apart(s.st, v, w));
        assert forall|p: int| #[trigger] writer_has(s.st, v, p) implies st1.used[p] && p
            != st1.meta_page && !in_file(st1, p) by {
            assert(!writer_has(s.st, w, p));
        }
        lemma_writer_frame(s.st, st1, v);
    }
    assert forall|a: int, b: int| #[trigger]
        s1.open.contains_key(a) && #[trigger] s1.open.contains_key(b) && a != b implies apart(
        st1,
        s1.open[a],
        s1.open[b],
    ) by {
        assert(apart(s.st, s.open[a], s.open[b]));
    }
    assert forall|p: int| #[trigger] s1.left_behind.contains(p) implies 0 <= p < PAGE_COUNT
        && st1.used[p] && p != st1.meta_page && !in_file(st1, p) && !pending(s1, p) by {
        assert(s.left_behind.contains(p));
        if writer_has(s.st, w, p) {
            lemma_pending(s, h, p);
        }
        if pending(s1, p) {
            let g = choose|g: int|
                s1.open.contains_key(g) && #[trigger] writer_has(st1, s1.open[g], p);
            assert(writer_has(s.st, s.open[g], p));
            lemma_pending(s, g, p);
        }
    }
    assert forall|p: int| 0 <= p < PAGE_COUNT && #[trigger] st1.used[p] implies p
        == st1.meta_page || in_file(st1, p) || pending(s1, p) || s1.left_behind.contains(p) by {
        assert(s.st.used[p] && !writer_has(s.st, w, p));
        if pending(s, p) {
            let g = choose|g: int|
                s.open.contains_key(g) && #[trigger] writer_has(s.st, s.open[g], p);
            assert(s1.open.contains_key(g));
            assert(writer_has(st1, s1.open[g], p));
            lemma_pending(s1, g, p);
        }
    }
}

/// Freeing pages does not change how many there are.
proof fn lemma_free_chain_len(
    fl: Seq<Seq<u8>>,
    used: Seq<bool>,
    from: Option<Ptr>,
    to: Option<Ptr>,
    limit: u32,
)
    requires
        used.len() == PAGE_COUNT,
        from matches Some(pp) ==> pp.page < PAGE_COUNT,
    ensures
        free_chain(fl, used, from, to, limit).0.len() == PAGE_COUNT,
    decreases chain_rank(from),
{
    if let Some(pp) = from {
        if !(to is Some && to->0.page == pp.page) {
            if let Ok(q) = step_back(fl, pp, limit) {
                if q is Some {
                    lemma_free_chain_len(fl, used.update(pp.page as int, false), q, to, limit);
                }
            }
        }
    }
}

/// Discarding an overtaken writer that gives back pages that have been left behind.
proof fn lemma_stray_discard(s: Session, h: int)
    requires
        session_ok(s),
        !s.open.contains_key(h),
        s.overtaken.contains_key(h),
        s.overtaken[h].page is Some,
        gives_back_own(s, h),
    ensures
        session_ok(after(s, Step::Discard { h })),
        forall|fid: int|
            0 <= fid < FILE_COUNT ==> #[trigger] file_bytes(
                after(s, Step::Discard { h }).st,
                fid,
            ) == file_bytes(s.st, fid),
{
    let s1 = after(s, Step::Discard { h });
    let w = s.overtaken[h];
    let st1 = s1.st;
    lemma_free_chain_len(
        s.st.flash,
        s.st.used.update(w.page->0.page as int, false),
        w.last,
        s.st.files[w.fid as int].last,
        0,
    );
    assert(st1.used.len() == PAGE_COUNT);
    assert forall|p: int| 0 <= p < PAGE_COUNT && in_file(s.st, p) implies #[trigger] st1.used[p] by {
        lemma_in_file_used(s.st, p);
        if st1.used[p] != s.st.used[p] {
            assert(s.left_behind.contains(p));
        }
    }
    assert(st1.used[st1.meta_page as int]) by {
        if st1.used[st1.meta_page as int] != s.st.used[st1.meta_page as int] {
            assert(s.left_behind.contains(st1.meta_page as int));
        }
    }
    if in_file(s.st, st1.meta_page as int) {
        lemma_in_file_used(s.st, st1.meta_page as int);
    }
    lemma_sound_frame(s.st, st1);
    lemma_durable_frame(s.st, st1, Set::empty(), Set::empty());
    assert forall|g: int| #[trigger] s.open.contains_key(g) implies {
        let v = s.open[g];
        &&& writer_ok(st1, v)
        &&& writer_open(st1, v)
        &&& forall|p: int| #[trigger] writer_has(st1, v, p) <==> writer_has(s.st, v, p)
    } by {
        let v = s.open[g];
        assert forall|p: int| #[trigger] writer_has(s.st, v, p) implies st1.used[p] && p
            != st1.meta_page && !in_file(st1, p) by {
            lemma_pending(s, g, p);
            if st1.used[p] != s.st.used[p] {
                assert(s.left_behind.contains(p));
            }
        }
        lemma_writer_frame(s.st, st1, v);
    }
    assert forall|a: int, b: int| #[trigger]
        s1.open.contains_key(a) && #[trigger] s1.open.contains_key(b) && a != b implies apart(
        st1,
        s1.open[a],
        s1.open[b],
    ) by {
        assert(apart(s.st, s.open[a], s.open[b]));
    }
    lemma_same_pending(s, s1);
    assert forall|g: int| #[trigger] s1.overtaken.contains_key(g) implies s1.overtaken[g].wf() && (
    s1.overtaken[g].page matches Some(op) ==> s1.left_behind.contains(op.page as int)
        && !filled_by_other(s1, g, op.page as int)) by {
        assert(s.overtaken.contains_key(g));
        if let Some(op) = s1.overtaken[g].page {
            let p = op.page as int;
            assert(filled_by_other(s, h, p));
            if filled_by_other(s1, g, p) {
                let k = choose|k: int| #[trigger]
                    s1.overtaken.contains_key(k) && k != g && s1.overtaken[k].page is Some
                        && s1.overtaken[k].page->0.page == p;
                assert(s.overtaken.contains_key(k));
                assert(filled_by_other(s, g, p));
            }
        }
    }
    assert forall|p: int| 0 <= p < PAGE_COUNT && #[trigger] st1.used[p] implies p == st1.meta_page
        || in_file(st1, p) || pending(s1, p) || s1.left_behind.contains(p) by {
        if !s.st.used[p] {
            assert(s.left_behind.contains(p));
        }
        assert(p == s.st.meta_page || in_file(s.st, p) || pending(s, p) || s.left_behind.contains(p));
    }
}

/// An overtaken writer that continues its file again.
proof fn lemma_resume(s: Session, h: int)
    requires
        session_ok(s),
        goes_well(s, Step::Resume { h }),
    ensures
        session_ok(after(s, Step::Resume { h })),
{
    let s1 = after(s, Step::Resume { h });
    let w = s.overtaken[h];
    assert forall|g: int| #[trigger] s.open.contains_key(g) implies apart(s.st, s.open[g], w)
        && apart(s.st, w, s.open[g]) by {
        assert forall|p: int| #[trigger] writer_has(s.st, w, p) implies !writer_has(
            s.st,
            s.open[g],
            p,
        ) by {
            if writer_has(s.st, s.open[g], p) {
                lemma_pending(s, g, p);
            }
        }
    }
    assert forall|a: int, b: int| #[trigger]
        s1.open.contains_key(a) && #[trigger] s1.open.contains_key(b) && a != b implies apart(
        s1.st,
        s1.open[a],
        s1.open[b],
    ) by {
        if a != h && b != h {
            assert(apart(s.st, s.open[a], s.open[b]));
        }
    }
    assert forall|p: int| #[trigger] pending(s1, p) <==> pending(s, p) || writer_has(s.st, w, p) by {
        if pending(s1, p) {
            let g = choose|g: int|
                s1.open.contains_key(g) && #[trigger] writer_has(s1.st, s1.open[g], p);
            if g != h {
                lemma_pending(s, g, p);
            }
        }
        if pending(s, p) {
            let g = choose|g: int|
                s.open.contains_key(g) && #[trigger] writer_has(s.st, s.open[g], p);
            assert(s1.open[g] == s.open[g]);
            lemma_pending(s1, g, p);
        }
        if writer_has(s.st, w, p) {
            assert(s1.open[h] == w);
            lemma_pending(s1, h, p);
        }
    }
    assert forall|g: int| #[trigger] s1.overtaken.contains_key(g) implies s1.overtaken[g].wf() && (
    s1.overtaken[g].page matches Some(op) ==> s1.left_behind.contains(op.page as int)
        && !filled_by_other(s1, g, op.page as int)) by {
        assert(s.overtaken.contains_key(g));
        if let Some(op) = s1.overtaken[g].page {
            let p = op.page as int;
            assert(filled_by_other(s, h, p));
            if filled_by_other(s1, g, p) {
                let k = choose|k: int| #[trigger]
                    s1.overtaken.contains_key(k) && k != g && s1.overtaken[k].page is Some
                        && s1.overtaken[k].page->0.page == p;
                assert(s.overtaken.contains_key(k));
                assert(filled_by_other(s, g, p));
            }
        }
    }
}

/// An overtaken writer that began its file, and has not completed a page yet, can be discarded: it
/// gives back its page.
pub proof fn law_overtaken_discard(s: Session, h: int)
    requires
        session_ok(s),
        !s.open.contains_key(h),
        s.overtaken.contains_key(h),
        s.overtaken[h].last is None,
        s.overtaken[h].page is Some,
    ensures
        goes_well(s, Step::Discard { h }),
        after(s, Step::Discard { h }).st.used == s.st.used.update(
            s.overtaken[h].page->0.page as int,
            false,
        ),
{
    let p = s.overtaken[h].page->0.page as int;
    assert(s.left_behind.contains(p));
    let used = discarded(s.st, s.overtaken[h]).0;
    assert(used == s.st.used.update(p, false));
}

/// A list of truncations, after one that drops nothing.
pub open spec fn after_nothing(fid: FileID, truncate: Seq<(FileID, usize)>) -> Seq<
    (FileID, usize),
> {
    seq![(fid, 0usize)] + truncate
}

/// A truncation that drops nothing makes no difference to those that follow.
proof fn lemma_after_nothing(st: Store, fid: FileID, truncate: Seq<(FileID, usize)>, k: int)
    requires
        sound(st),
        fid < FILE_COUNT,
        0 <= k <= truncate.len(),
    ensures
        truncate_some(st, after_nothing(fid, truncate), k + 1) == truncate_some(st, truncate, k),
        forall|b: int| #[trigger]
            asked(after_nothing(fid, truncate), k + 1, b) == asked(truncate, k, b),
    decreases k,
{
    let list = after_nothing(fid, truncate);
    if k == 0 {
        law_truncate_nothing(st, fid as int);
        assert(truncate_some(st, list, 0) == (st, Ok::<(), Error>(())));
        assert forall|b: int| #[trigger] asked(list, 1, b) == asked(truncate, 0, b) by {
            assert(asked(list, 0, b) == 0);
        }
    } else {
        lemma_after_nothing(st, fid, truncate, k - 1);
        assert(list[k] == truncate[k - 1]);
        assert forall|b: int| #[trigger] asked(list, k + 1, b) == asked(truncate, k, b) by {
            assert(asked(list, k, b) == asked(truncate, k - 1, b));
        }
    }
}

/// To commit a writer that has nothing to commit is to drop nothing from its file.
proof fn lemma_idle_commit(st: Store, w: WriterModel, truncate: Seq<(FileID, usize)>)
    requires
        sound(st),
        w.wf(),
        w.page is None,
        commit_ready(st, Some(w), truncate),
    ensures
        ({
            let list = after_nothing(w.fid, truncate);
            &&& commit_ready(st, None, list)
            &&& commit_all(st, None, list).0 == commit_all(st, Some(w), truncate).0
            &&& commit_all(st, None, list).2 == commit_all(st, Some(w), truncate).2
            &&& commit_all(st, Some(w), truncate).1 == Some(w)
        }),
{
    let list = after_nothing(w.fid, truncate);
    let n = truncate.len() as int;
    lemma_after_nothing(st, w.fid, truncate, n);
    assert(commit_list(None, list) =~= commit_list(Some(w), truncate)) by {
        let f = |t: (FileID, usize)| t.0;
        assert(list.map_values(f) =~= seq![w.fid] + truncate.map_values(f));
    }
    assert forall|i: int| 0 <= i < list.len() implies #[trigger] truncation_ready(st, list, i) by {
        if i == 0 {
            let f = st.files[w.fid as int];
            assert(file_ok(st.flash, f));
            lemma_contents_len(st.flash, f);
            if f.last is None {
                lemma_empty_file(st.flash, f);
            }
        } else {
            lemma_after_nothing(st, w.fid, truncate, i - 1);
            assert(truncation_ready(st, truncate, i - 1));
            assert(list[i] == truncate[i - 1]);
        }
    }
}

/// The writer to commit, if it has anything to commit, and the truncations to the same effect.
pub open spec fn plain_commit(s: Session, h: Option<int>, truncate: Seq<(FileID, usize)>) -> (
    Option<WriterModel>,
    Seq<(FileID, usize)>,
) {
    match h {
        Some(i) => if s.open.contains_key(i) {
            (Some(s.open[i]), truncate)
        } else {
            (None, after_nothing(s.overtaken[i].fid, truncate))
        },
        None => (None, truncate),
    }
}

/// What comes of a commit that goes well.
pub proof fn lemma_plain_commit(s: Session, h: Option<int>, truncate: Seq<(FileID, usize)>)
    requires
        session_ok(s),
        goes_well(s, Step::Commit { h, truncate }),
    ensures
        ({
            let (w, list) = plain_commit(s, h, truncate);
            let (st1, w1, r) = commit_all(s.st, writer_of(s, h), truncate);
            &&& commit_all(s.st, w, list).0 == st1
            &&& commit_all(s.st, w, list).2 is Ok
            &&& committable(s.st, w)
            &&& commit_ready(s.st, w, list)
            &&& meta_fits(s.st, commit_list(w, list).len() as int) || s.st.meta_seq < u32::MAX
            &&& committed(s.st, open_writer(s, h), truncate, st1)
            &&& h matches Some(i) ==> w1 is Some && w1->0.wf() && w1->0.page is None && (
            s.open.contains_key(i) ==> commit_all(s.st, w, list).1 == w1) && (!s.open.contains_key(
                i,
            ) ==> w1 == Some(s.overtaken[i]))
        }),
{
    let (w, list) = plain_commit(s, h, truncate);
    if let Some(i) = h {
        if !s.open.contains_key(i) {
            lemma_idle_commit(s.st, s.overtaken[i], truncate);
            lemma_after_nothing(s.st, s.overtaken[i].fid, truncate, truncate.len() as int);
        }
    }
    lemma_commit_went_well(s.st, w, list);
    law_commit(s.st, w, list);
    if let Some(x) = w {
        law_commit_writer(s.st, x);
    }
}

/// Committing.
proof fn lemma_commit(s: Session, h: Option<int>, truncate: Seq<(FileID, usize)>)
    requires
        session_ok(s),
        goes_well(s, Step::Commit { h, truncate }),
    ensures
        session_ok(after(s, Step::Commit { h, truncate })),
        committed(s.st, open_writer(s, h), truncate, after(s, Step::Commit { h, truncate }).st),
{
    let s1 = after(s, Step::Commit { h, truncate });
    let st = s.st;
    let (w, list) = plain_commit(s, h, truncate);
    let (st1, w1, r) = commit_all(st, writer_of(s, h), truncate);
    lemma_plain_commit(s, h, truncate);
    law_commit(st, w, list);
    assert forall|g: int| #[trigger] s1.open.contains_key(g) implies {
        let v = s1.open[g];
        &&& s.open.contains_key(g)
        &&& kept(s, h, truncate, g)
        &&& writer_ok(st1, v)
        &&& writer_open(st1, v)
        &&& h == Some(g) ==> forall|p: int| !#[trigger] writer_has(st1, v, p)
        &&& h != Some(g) ==> v == s.open[g] && forall|p: int| #[trigger]
            writer_has(st1, v, p) <==> writer_has(st, v, p)
    } by {
        let v = s1.open[g];
        assert(kept(s, h, truncate, g));
        if h == Some(g) {
            lemma_idle_has_nothing(st1, v);
        } else {
            if let Some(i) = h {
                if s.open.contains_key(i) {
                    assert(apart(st, s.open[i], s.open[g]));
                }
            }
            law_commit_apart(st, w, list, s.open[g]);
        }
    }
    assert forall|a: int, b: int| #[trigger]
        s1.open.contains_key(a) && #[trigger] s1.open.contains_key(b) && a != b implies apart(
        st1,
        s1.open[a],
        s1.open[b],
    ) by {
        assert(apart(st, s.open[a], s.open[b]));
    }
    assert forall|g: int| #[trigger] s1.overtaken.contains_key(g) implies s1.overtaken[g].wf() && (
    s1.overtaken[g].page matches Some(op) ==> s1.left_behind.contains(op.page as int)
        && !filled_by_other(s1, g, op.page as int)) by {
        if let Some(op) = s1.overtaken[g].page {
            let p = op.page as int;
            if s.open.contains_key(g) {
                assert(writer_has(st, s.open[g], p));
                assert(dropped_by(s, h, truncate, p));
                lemma_pending(s, g, p);
            } else {
                assert(s.left_behind.contains(p));
            }
            if filled_by_other(s1, g, p) {
                let k = choose|k: int| #[trigger]
                    s1.overtaken.contains_key(k) && k != g && s1.overtaken[k].page is Some
                        && s1.overtaken[k].page->0.page == p;
                if s.open.contains_key(k) {
                    assert(writer_has(st, s.open[k], p));
                    lemma_pending(s, k, p);
                    if s.open.contains_key(g) {
                        assert(apart(st, s.open[g], s.open[k]));
                    }
                } else {
                    assert(s.overtaken.contains_key(k));
                    assert(s.left_behind.contains(p));
                    if !s.open.contains_key(g) {
                        assert(s.overtaken.contains_key(g));
                        assert(filled_by_other(s, g, p));
                    }
                }
            }
        }
    }
    assert forall|p: int| #[trigger] s1.left_behind.contains(p) implies 0 <= p < PAGE_COUNT
        && st1.used[p] && p != st1.meta_page && !in_file(st1, p) && !pending(s1, p) by {
        if s.left_behind.contains(p) {
            if let Some(i) = h {
                if s.open.contains_key(i) && writer_has(st, s.open[i], p) {
                    lemma_pending(s, i, p);
                }
            }
            lemma_commit_leaves(st, w, list, p);
            if pending(s1, p) {
                let g = choose|g: int|
                    s1.open.contains_key(g) && #[trigger] writer_has(st1, s1.open[g], p);
                lemma_pending(s, g, p);
            }
        } else {
            assert(dropped_by(s, h, truncate, p));
            let g = choose|g: int|
                s.open.contains_key(g) && h != Some(g) && !kept(s, h, truncate, g)
                    && #[trigger] writer_has(st, s.open[g], p);
            if let Some(i) = h {
                if s.open.contains_key(i) {
                    assert(apart(st, s.open[i], s.open[g]));
                }
            }
            lemma_commit_leaves(st, w, list, p);
            if pending(s1, p) {
                let k = choose|k: int|
                    s1.open.contains_key(k) && #[trigger] writer_has(st1, s1.open[k], p);
                assert(k != g);
                assert(apart(st, s.open[k], s.open[g]));
                assert(writer_has(st, s.open[k], p));
            }
        }
    }
    assert forall|p: int| 0 <= p < PAGE_COUNT && #[trigger] st1.used[p] implies p == st1.meta_page
        || in_file(st1, p) || pending(s1, p) || s1.left_behind.contains(p) by {
        lemma_commit_used(st, w, list, p);
        if p != st1.meta_page && !in_file(st1, p) && pending(s, p) {
            let g = choose|g: int| s.open.contains_key(g) && #[trigger] writer_has(st, s.open[g], p);
            assert(h != Some(g));
            if kept(s, h, truncate, g) {
                assert(s1.open.contains_key(g));
                assert(writer_has(st1, s1.open[g], p));
                lemma_pending(s1, g, p);
            } else {
                assert(dropped_by(s, h, truncate, p));
            }
        }
    }
}

/// Mounting again.
proof fn lemma_remount(s: Session)
    requires
        session_ok(s),
    ensures
        session_ok(after(s, Step::Mount)),
        forall|fid: int|
            0 <= fid < FILE_COUNT ==> #[trigger] file_bytes(after(s, Step::Mount).st, fid)
                == file_bytes(s.st, fid),
{
    let s1 = after(s, Step::Mount);
    law_mounts(
        s.st,
        Store { files: Seq::new(FILE_COUNT as nat, |i: int| empty_file()), ..s.st },
    );
    law_mount(s.st, s.st);
    assert forall|g: int| #[trigger] s1.open.contains_key(g) implies {
        let v = s1.open[g];
        &&& writer_ok(s1.st, v)
        &&& writer_open(s1.st, v)
        &&& forall|p: int| !#[trigger] writer_has(s1.st, v, p)
    } by {
        assert(s.open.contains_key(g));
        let v = s.open[g];
        lemma_idle_has_nothing(s.st, v);
        lemma_writer_frame(s.st, s1.st, v);
    }
    assert forall|g: int| #[trigger] s1.overtaken.contains_key(g) implies s1.overtaken[g].wf()
        && s1.overtaken[g].page is None by {
        assert(s.overtaken.contains_key(g));
    }
}

/// Whether a call does to the bytes of the files what it should: a commit adds what its writer has
/// written and drops what it is asked to drop, and no other call changes them.
pub open spec fn bytes_follow(s: Session, step: Step) -> bool {
    match step {
        Step::Commit { h, truncate } => committed(
            s.st,
            open_writer(s, h),
            truncate,
            after(s, step).st,
        ),
        _ => forall|fid: int|
            0 <= fid < FILE_COUNT ==> #[trigger] file_bytes(after(s, step).st, fid) == file_bytes(
                s.st,
                fid,
            ),
    }
}

/// Every call that goes well keeps a session in order, and only a commit changes the bytes of
/// files.
pub proof fn law_session_step(s: Session, step: Step)
    requires
        session_ok(s),
        goes_well(s, step),
    ensures
        session_ok(after(s, step)),
        bytes_follow(s, step),
{
    match step {
        Step::Open { h, fid } => lemma_open(s, h, fid),
        Step::Write { h, data } => if s.open.contains_key(h) {
            lemma_write(s, h, data);
            law_append(s.st, s.open[h], data);
        } else {
            lemma_stray_write(s, h, data);
            lemma_stray_files(s, h, data);
        },
        Step::RecordEnd { h } => if s.open.contains_key(h) {
            lemma_record_end(s, h);
        } else {
            lemma_stray_record_end(s, h);
        },
        Step::Commit { h, truncate } => lemma_commit(s, h, truncate),
        Step::Discard { h } => if s.open.contains_key(h) && s.open[h].page is Some {
            lemma_discard(s, h);
            law_discard(s.st, s.open[h]);
        } else if !s.open.contains_key(h) && s.overtaken[h].page is Some {
            lemma_stray_discard(s, h);
        },
        Step::Resume { h } => lemma_resume(s, h),
        Step::Mount => lemma_remount(s),
    }
}

/// So does any number of them.
pub proof fn law_session(s: Session, steps: Seq<Step>)
    requires
        session_ok(s),
        all_go_well(s, steps),
    ensures
        session_ok(after_all(s, steps)),
    decreases steps.len(),
{
    if steps.len() > 0 {
        law_session(s, steps.drop_last());
        law_session_step(after_all(s, steps.drop_last()), steps.last());
    }
}

/// The session that begins when a device has been formatted and mounted.
pub open spec fn beginning(fl: Seq<Seq<u8>>) -> Session {
    Session {
        st: blank(fl),
        open: Map::empty(),
        overtaken: Map::empty(),
        left_behind: Set::empty(),
    }
}

/// It is in order: by `law_format_mount`, this is the store that the mount finds.
pub proof fn law_beginning(fl: Seq<Seq<u8>>)
    requires
        flash_shape(fl),
    ensures
        session_ok(beginning(fl)),
{
    law_format(fl);
}

/// After a device has been formatted and mounted, and after any number of calls since then that
/// went well, another mount of the same device, with tables in which no file has been entered
/// yet, finds every file as it is: what has been committed is there, and nothing else. It takes as
/// used exactly the pages that are in use, without those that a writer has not committed.
pub proof fn law_remount(fl: Seq<Seq<u8>>, steps: Seq<Step>, fresh: Store)
    requires
        flash_shape(fl),
        all_go_well(beginning(fl), steps),
        fresh.flash == after_all(beginning(fl), steps).st.flash,
        fresh.files == Seq::new(FILE_COUNT as nat, |i: int| empty_file()),
    ensures
        ({
            let s = after_all(beginning(fl), steps);
            let (st1, r) = mount(fresh);
            &&& r == Ok::<(), Error>(())
            &&& st1 == Store { used: st1.used, ..s.st }
            &&& forall|fid: int|
                0 <= fid < FILE_COUNT ==> #[trigger] file_bytes(st1, fid) == file_bytes(s.st, fid)
            &&& forall|p: int|
                0 <= p < PAGE_COUNT ==> (#[trigger] st1.used[p] <==> s.st.used[p] && !pending(s, p)
                    && !s.left_behind.contains(p))
        }),
{
    let s = after_all(beginning(fl), steps);
    law_beginning(fl);
    law_session(beginning(fl), steps);
    law_mounts(s.st, fresh);
    law_mount(s.st, fresh);
    let st1 = mount(fresh).0;
    lemma_same_pages(s.st, st1);
    assert forall|p: int| 0 <= p < PAGE_COUNT implies (#[trigger] st1.used[p] <==> s.st.used[p]
        && !pending(s, p) && !s.left_behind.contains(p)) by {
        if in_file(s.st, p) {
            lemma_in_file_used(s.st, p);
        }
        if pending(s, p) {
            let h = choose|h: int|
                s.open.contains_key(h) && #[trigger] writer_has(s.st, s.open[h], p);
            assert(writer_ok(s.st, s.open[h]));
        }
    }
}

} // verus!
