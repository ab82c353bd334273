//! What the headers of pages say of records, after any sequence of calls.

use vstd::prelude::*;

use crate::chain::{file_ok, file_run, lemma_empty_file, lemma_run_last, lemma_run_page};
use crate::commit_laws::law_commit_writer;
use crate::config::{FileID, FILE_COUNT, PAGE_COUNT};
use crate::durability::{
    apart, law_commit_apart, lemma_commit_leaves, lemma_commit_pages, lemma_target_page,
};
use crate::flash::flash_shape;
use crate::mount_laws::{law_mount, law_mounts};
use crate::record_laws::{
    bound_on, law_append_records, law_commit_records, law_new_writer_records, law_record_end,
    lemma_marked_frame, marked, page_marked, records_ok,
};
use crate::sessions::{
    after, after_all, all_go_well, beginning, goes_well, kept, law_beginning, law_session_step,
    lemma_plain_commit, lemma_stray_append, open_writer, pending, plain_commit, session_ok, Session,
    Step,
};
use crate::sound::{file_bytes, in_file, lemma_in_file_used, pages_of, run_has, sound};
use crate::store::{empty_file, FileModel, Ptr, Store};
use crate::write_laws::{
    law_append, law_position, target, target_run, writer_has, writer_ok, writer_open,
};
use crate::writer::{append, commit_all, commit_first, commit_writer, WriterModel};

verus! {

/// The record boundaries of each file: the positions at which its writers have been handed out, or
/// have marked the end of a record, as far as they have been committed. A file that has been
/// deleted starts anew.
pub open spec fn marks_after(s: Session, marks: Seq<Set<int>>, step: Step) -> Seq<Set<int>> {
    match step {
        Step::Commit { h, truncate } => Seq::new(
            FILE_COUNT as nat,
            |fid: int|
                if after(s, step).st.files[fid].last is None {
                    Set::empty()
                } else {
                    match open_writer(s, h) {
                        Some(w) => if w.fid == fid && w.page is Some {
                            marks[fid].union(w.bounds)
                        } else {
                            marks[fid]
                        },
                        None => marks[fid],
                    }
                },
        ),
        _ => marks,
    }
}

/// The record boundaries after any number of calls.
pub open spec fn marks_after_all(s: Session, marks: Seq<Set<int>>, steps: Seq<Step>) -> Seq<
    Set<int>,
>
    decreases steps.len(),
{
    if steps.len() == 0 {
        marks
    } else {
        let head = steps.drop_last();
        marks_after(after_all(s, head), marks_after_all(s, marks, head), steps.last())
    }
}

/// Whether the headers of the pages of all files, and of those that writers have completed, have
/// the offsets of the record boundaries.
pub open spec fn session_marked(s: Session, marks: Seq<Set<int>>) -> bool {
    &&& marks.len() == FILE_COUNT
    &&& forall|fid: int| #![trigger marks[fid]]
        0 <= fid < FILE_COUNT ==> {
            &&& marked(s.st.flash, s.st.files[fid], marks[fid])
            &&& forall|x: int| #[trigger] marks[fid].contains(x) ==> x <= s.st.files[fid].end
            &&& s.st.files[fid].last is None ==> marks[fid] == Set::<int>::empty()
        }
    &&& forall|h: int| #[trigger]
        s.open.contains_key(h) ==> records_ok(s.st, s.open[h], marks[s.open[h].fid as int])
}

/// Whether a writer that continues its file again knows of the record boundaries of the file.
pub open spec fn resumes_marked(s: Session, marks: Seq<Set<int>>, step: Step) -> bool {
    step matches Step::Resume { h } ==> records_ok(
        s.st,
        s.overtaken[h],
        marks[s.overtaken[h].fid as int],
    )
}

/// Whether this is so each time.
pub open spec fn all_resume_marked(s: Session, marks: Seq<Set<int>>, steps: Seq<Step>) -> bool
    decreases steps.len(),
{
    steps.len() > 0 ==> {
        let head = steps.drop_last();
        &&& all_resume_marked(s, marks, head)
        &&& resumes_marked(after_all(s, head), marks_after_all(s, marks, head), steps.last())
    }
}

/// What the headers of a file say also holds of a file on some of the same pages.
proof fn lemma_marked_part(
    fl: Seq<Seq<u8>>,
    f: FileModel,
    fl1: Seq<Seq<u8>>,
    f1: FileModel,
    bounds: Set<int>,
)
    requires
        marked(fl, f, bounds),
        file_ok(fl1, f1),
        forall|p: int| #[trigger]
            run_has(file_run(fl1, f1), p) ==> run_has(file_run(fl, f), p) && fl1[p] == fl[p],
    ensures
        marked(fl1, f1, bounds),
{
    let run = file_run(fl, f);
    let run1 = file_run(fl1, f1);
    assert forall|i: int| 0 <= i < run1.len() implies page_marked(
        fl1,
        #[trigger] run1[i],
        bounds,
    ) by {
        let p = run1[i].page as int;
        assert(run_has(run1, p));
        let k = choose|k: int| 0 <= k < run.len() && (#[trigger] run[k]).page == p;
        lemma_run_page(fl, f, k);
        lemma_run_page(fl1, f1, i);
        assert(run1[i] == run[k]);
        assert(page_marked(fl, run[k], bounds));
        assert(bound_on(fl1, run1[i], bounds) == bound_on(fl, run[k], bounds));
    }
}

/// The headers of the files, when the device changes elsewhere.
proof fn lemma_elsewhere(s: Session, st1: Store, marks: Seq<Set<int>>)
    requires
        session_ok(s),
        session_marked(s, marks),
        st1.files == s.st.files,
        forall|p: int|
            0 <= p < PAGE_COUNT && in_file(s.st, p) ==> #[trigger] st1.flash[p] == s.st.flash[p],
    ensures
        forall|fid: int|
            0 <= fid < FILE_COUNT ==> marked(st1.flash, st1.files[fid], #[trigger] marks[fid]),
{
    assert forall|fid: int| 0 <= fid < FILE_COUNT implies marked(
        st1.flash,
        st1.files[fid],
        #[trigger] marks[fid],
    ) by {
        let run = pages_of(s.st, fid);
        assert forall|k: int|
            #![trigger file_run(s.st.flash, s.st.files[fid])[k]]
            0 <= k < run.len() implies st1.flash[run[k].page as int]
            == s.st.flash[run[k].page as int] by {
            assert(run_has(run, run[k].page as int));
            assert(in_file(s.st, run[k].page as int));
        }
        lemma_marked_frame(s.st.flash, st1.flash, s.st.files[fid], marks[fid]);
    }
}

/// The headers of the pages of a writer, when the device changes elsewhere.
proof fn lemma_writer_elsewhere(st: Store, st1: Store, v: WriterModel, b: Set<int>)
    requires
        sound(st),
        writer_ok(st, v),
        records_ok(st, v, b),
        st1.files == st.files,
        forall|p: int| #[trigger]
            run_has(target_run(st, v), p) ==> st1.flash[p] == st.flash[p],
    ensures
        records_ok(st1, v, b),
{
    let g = target(st, v);
    let run = target_run(st, v);
    assert(target(st1, v) == g);
    assert forall|k: int|
        #![trigger file_run(st.flash, g)[k]]
        0 <= k < run.len() implies st1.flash[run[k].page as int] == st.flash[run[k].page as int] by {
        assert(run_has(run, run[k].page as int));
    }
    lemma_marked_frame(st.flash, st1.flash, g, b.union(v.bounds));
}

/// Writing with a writer that continues its file.
proof fn lemma_marked_write(s: Session, marks: Seq<Set<int>>, h: int, data: Seq<u8>)
    requires
        session_ok(s),
        session_marked(s, marks),
        s.open.contains_key(h),
        goes_well(s, Step::Write { h, data }),
    ensures
        session_marked(after(s, Step::Write { h, data }), marks),
{
    let s1 = after(s, Step::Write { h, data });
    let w = s.open[h];
    let (st1, w1, r) = append(s.st, w, data);
    law_append(s.st, w, data);
    law_append_records(s.st, w, data, marks[w.fid as int]);
    assert forall|p: int| 0 <= p < PAGE_COUNT && in_file(s.st, p) implies #[trigger] st1.flash[p]
        == s.st.flash[p] by {
        lemma_in_file_used(s.st, p);
        if w.page is Some && w.page->0.page == p {
            assert(writer_has(s.st, w, p));
        }
    }
    lemma_elsewhere(s, st1, marks);
    assert forall|g: int| #[trigger] s1.open.contains_key(g) implies records_ok(
        st1,
        s1.open[g],
        marks[s1.open[g].fid as int],
    ) by {
        if g != h {
            let v = s.open[g];
            assert(s.open.contains_key(g));
            assert(apart(s.st, w, v));
            assert forall|p: int| #[trigger] run_has(target_run(s.st, v), p) implies st1.flash[p]
                == s.st.flash[p] by {
                lemma_target_page(s.st, v, p);
                if w.page is Some && w.page->0.page == p {
                    assert(writer_has(s.st, w, p));
                }
            }
            lemma_writer_elsewhere(s.st, st1, v, marks[v.fid as int]);
        }
    }
}

/// Writing with an overtaken writer.
proof fn lemma_marked_stray_write(s: Session, marks: Seq<Set<int>>, h: int, data: Seq<u8>)
    requires
        session_ok(s),
        session_marked(s, marks),
        !s.open.contains_key(h),
        goes_well(s, Step::Write { h, data }),
    ensures
        session_marked(after(s, Step::Write { h, data }), marks),
{
    let s1 = after(s, Step::Write { h, data });
    let w = s.overtaken[h];
    let (st1, w1, r) = append(s.st, w, data);
    lemma_stray_append(s.st, w, data);
    assert forall|p: int| 0 <= p < PAGE_COUNT && in_file(s.st, p) implies #[trigger] st1.flash[p]
        == s.st.flash[p] by {
        lemma_in_file_used(s.st, p);
    }
    lemma_elsewhere(s, st1, marks);
    assert forall|g: int| #[trigger] s1.open.contains_key(g) implies records_ok(
        st1,
        s1.open[g],
        marks[s1.open[g].fid as int],
    ) by {
        let v = s.open[g];
        assert(s.open.contains_key(g));
        assert forall|p: int| #[trigger] run_has(target_run(s.st, v), p) implies st1.flash[p]
            == s.st.flash[p] by {
            lemma_target_page(s.st, v, p);
            if writer_has(s.st, v, p) {
                assert(pending(s, p));
            }
        }
        lemma_writer_elsewhere(s.st, st1, v, marks[v.fid as int]);
    }
}

/// A writer that has something to commit adds its page to the file, so that no other writer of the
/// file is kept, unless the file is deleted at once.
proof fn lemma_added_page(s: Session, h: int, truncate: Seq<(FileID, usize)>, g: int)
    requires
        session_ok(s),
        goes_well(s, Step::Commit { h: Some(h), truncate }),
        s.open.contains_key(h),
        s.open[h].page is Some,
        g != h,
        kept(s, Some(h), truncate, g),
        s.open[g].fid == s.open[h].fid,
    ensures
        s.st.files[s.open[g].fid as int].last is None,
{
    let x = s.open[h];
    let fid = x.fid as int;
    let f = s.st.files[fid];
    let (w, list) = plain_commit(s, Some(h), truncate);
    lemma_plain_commit(s, Some(h), truncate);
    lemma_commit_pages(s.st, w, list);
    if f.last is Some {
        let p = x.page->0.page as int;
        assert(writer_has(s.st, x, p));
        let st3 = commit_all(s.st, w, list).0;
        assert(st3.files[fid].last is Some);
        assert(f.last->0.page == p);
        assert(file_ok(s.st.flash, f));
        lemma_run_last(s.st.flash, f);
        let run = pages_of(s.st, fid);
        assert(run[run.len() - 1].page == p);
        assert(run_has(run, p));
        assert(in_file(s.st, p));
    }
}

/// What the headers of a file say after a commit.
proof fn lemma_marked_file(
    s: Session,
    marks: Seq<Set<int>>,
    h: Option<int>,
    truncate: Seq<(FileID, usize)>,
    fid: int,
)
    requires
        session_ok(s),
        session_marked(s, marks),
        goes_well(s, Step::Commit { h, truncate }),
        0 <= fid < FILE_COUNT,
    ensures
        ({
            let st3 = after(s, Step::Commit { h, truncate }).st;
            let f = st3.files[fid];
            let b = marks_after(s, marks, Step::Commit { h, truncate })[fid];
            &&& marked(st3.flash, f, b)
            &&& forall|x: int| #[trigger] b.contains(x) ==> x <= f.end
            &&& open_writer(s, h) matches Some(w) ==> w.fid == fid ==> marked(
                st3.flash,
                f,
                marks[fid].union(w.bounds),
            )
        }),
{
    let step = Step::Commit { h, truncate };
    let st = s.st;
    let st3 = after(s, step).st;
    let f3 = st3.files[fid];
    let b = marks_after(s, marks, step)[fid];
    let (w, list) = plain_commit(s, h, truncate);
    let mid = commit_first(st, w).0;
    lemma_plain_commit(s, h, truncate);
    law_session_step(s, step);
    lemma_commit_pages(st, w, list);
    assert(file_ok(st3.flash, f3));
    assert(marked(st.flash, st.files[fid], marks[fid]));
    if f3.last is None {
        lemma_empty_file(st3.flash, f3);
    } else {
        assert forall|p: int| #[trigger] run_has(file_run(st3.flash, f3), p) implies run_has(
            file_run(mid.flash, mid.files[fid]),
            p,
        ) && st3.flash[p] == mid.flash[p] by {
            assert(run_has(pages_of(st3, fid), p));
        }
        match w {
            Some(x) => {
                law_commit_writer(st, x);
                assert(records_ok(st, x, marks[x.fid as int]));
                if x.fid == fid {
                    law_commit_records(st, x, marks[fid]);
                    law_position(st, x);
                    lemma_marked_part(
                        mid.flash,
                        mid.files[fid],
                        st3.flash,
                        f3,
                        marks[fid].union(x.bounds),
                    );
                    if x.page is None {
                        lemma_marked_part(mid.flash, mid.files[fid], st3.flash, f3, marks[fid]);
                    }
                } else {
                    let run = pages_of(st, fid);
                    assert forall|k: int|
                        #![trigger file_run(st.flash, st.files[fid])[k]]
                        0 <= k < run.len() implies mid.flash[run[k].page as int]
                        == st.flash[run[k].page as int] by {
                        assert(run_has(run, run[k].page as int));
                        assert(in_file(st, run[k].page as int));
                    }
                    lemma_marked_frame(st.flash, mid.flash, st.files[fid], marks[fid]);
                    lemma_marked_part(mid.flash, mid.files[fid], st3.flash, f3, marks[fid]);
                }
            },
            None => {
                lemma_marked_part(mid.flash, mid.files[fid], st3.flash, f3, marks[fid]);
            },
        }
    }
}

/// What a writer that is kept knows of the record boundaries after the commit of another one.
proof fn lemma_marked_kept(
    s: Session,
    marks: Seq<Set<int>>,
    h: Option<int>,
    truncate: Seq<(FileID, usize)>,
    g: int,
)
    requires
        session_ok(s),
        session_marked(s, marks),
        goes_well(s, Step::Commit { h, truncate }),
        h != Some(g),
        kept(s, h, truncate, g),
    ensures
        ({
            let s3 = after(s, Step::Commit { h, truncate });
            records_ok(
                s3.st,
                s.open[g],
                marks_after(s, marks, Step::Commit { h, truncate })[s.open[g].fid as int],
            )
        }),
{
    let step = Step::Commit { h, truncate };
    let s3 = after(s, step);
    let st = s.st;
    let st3 = s3.st;
    let v = s.open[g];
    let fid = v.fid as int;
    let (w, list) = plain_commit(s, h, truncate);
    let mid = commit_first(st, w).0;
    lemma_plain_commit(s, h, truncate);
    law_session_step(s, step);
    lemma_commit_pages(st, w, list);
    assert(s3.open.contains_key(g) && s3.open[g] == v);
    if let Some(x) = w {
        assert(apart(st, x, v));
        law_commit_writer(st, x);
        if x.fid == v.fid && x.page is Some {
            lemma_added_page(s, h->0, truncate, g);
        }
    }
    law_commit_apart(st, w, list, v);
    assert(records_ok(st, v, marks[fid]));
    assert forall|p: int| #[trigger] run_has(target_run(st3, v), p) implies run_has(
        target_run(st, v),
        p,
    ) && st3.flash[p] == st.flash[p] by {
        lemma_target_page(st3, v, p);
        if run_has(pages_of(st3, fid), p) {
            assert(run_has(pages_of(mid, fid), p));
            assert(st3.files[fid].last is Some) by {
                if st3.files[fid].last is None {
                    assert(file_ok(st3.flash, st3.files[fid]));
                    lemma_empty_file(st3.flash, st3.files[fid]);
                }
            }
            if let Some(x) = w {
                if x.fid != fid {
                    assert(file_bytes(mid, fid) == file_bytes(st, fid));
                }
            }
            assert(run_has(pages_of(st, fid), p));
            assert(in_file(st, p));
            let run = pages_of(st, fid);
            let k = choose|k: int| 0 <= k < run.len() && (#[trigger] run[k]).page == p;
            assert(target_run(st, v).subrange(0, run.len() as int)[k] == target_run(st, v)[k]);
            assert(mid.flash[p] == st.flash[p]);
        } else {
            assert(writer_has(st3, v, p));
            assert(writer_has(st, v, p));
            lemma_commit_leaves(st, w, list, p);
        }
    }
    lemma_marked_part(
        st.flash,
        target(st, v),
        st3.flash,
        target(st3, v),
        marks[fid].union(v.bounds),
    );
}

/// Committing.
proof fn lemma_marked_commit(
    s: Session,
    marks: Seq<Set<int>>,
    h: Option<int>,
    truncate: Seq<(FileID, usize)>,
)
    requires
        session_ok(s),
        session_marked(s, marks),
        goes_well(s, Step::Commit { h, truncate }),
    ensures
        session_marked(
            after(s, Step::Commit { h, truncate }),
            marks_after(s, marks, Step::Commit { h, truncate }),
        ),
{
    let step = Step::Commit { h, truncate };
    let s3 = after(s, step);
    let st = s.st;
    let marks3 = marks_after(s, marks, step);
    let (w, list) = plain_commit(s, h, truncate);
    lemma_plain_commit(s, h, truncate);
    law_session_step(s, step);
    assert forall|fid: int| #![trigger marks3[fid]] 0 <= fid < FILE_COUNT implies {
        &&& marked(s3.st.flash, s3.st.files[fid], marks3[fid])
        &&& forall|x: int| #[trigger] marks3[fid].contains(x) ==> x <= s3.st.files[fid].end
        &&& s3.st.files[fid].last is None ==> marks3[fid] == Set::<int>::empty()
    } by {
        lemma_marked_file(s, marks, h, truncate, fid);
    }
    assert forall|g: int| #[trigger] s3.open.contains_key(g) implies records_ok(
        s3.st,
        s3.open[g],
        marks3[s3.open[g].fid as int],
    ) by {
        assert(kept(s, h, truncate, g));
        if h == Some(g) {
            let x = s.open[g];
            let x1 = s3.open[g];
            let fid = x.fid as int;
            lemma_marked_file(s, marks, h, truncate, fid);
            law_commit_records(st, x, marks[fid]);
            assert(x1 == commit_writer(st, x).1);
            assert(x1.bounds == x.bounds && x1.fid == x.fid);
            assert(writer_open(s3.st, x1));
            assert(target(s3.st, x1) == s3.st.files[fid]);
            assert(marks3[fid].union(x1.bounds) =~= marks[fid].union(x.bounds)
                || s3.st.files[fid].last is None);
            if s3.st.files[fid].last is None {
                assert(file_ok(s3.st.flash, s3.st.files[fid]));
                lemma_empty_file(s3.st.flash, s3.st.files[fid]);
            }
        } else {
            lemma_marked_kept(s, marks, h, truncate, g);
        }
    }
}

/// Every call that goes well keeps the headers of the pages right: they have the offsets of the
/// record boundaries of the files.
pub proof fn law_session_records_step(s: Session, marks: Seq<Set<int>>, step: Step)
    requires
        session_ok(s),
        session_marked(s, marks),
        goes_well(s, step),
        resumes_marked(s, marks, step),
    ensures
        session_marked(after(s, step), marks_after(s, marks, step)),
{
    let s1 = after(s, step);
    match step {
        Step::Open { h, fid } => {
            assert(marked(s.st.flash, s.st.files[fid as int], marks[fid as int]));
            law_new_writer_records(s.st, fid, marks[fid as int]);
        },
        Step::Write { h, data } => if s.open.contains_key(h) {
            lemma_marked_write(s, marks, h, data);
        } else {
            lemma_marked_stray_write(s, marks, h, data);
        },
        Step::RecordEnd { h } => if s.open.contains_key(h) {
            law_record_end(s.st, s.open[h], marks[s.open[h].fid as int]);
        },
        Step::Commit { h, truncate } => lemma_marked_commit(s, marks, h, truncate),
        Step::Discard { h } => {
            assert forall|g: int| #[trigger] s1.open.contains_key(g) implies records_ok(
                s1.st,
                s1.open[g],
                marks[s1.open[g].fid as int],
            ) by {
                assert(s.open.contains_key(g));
                assert(target(s1.st, s.open[g]) == target(s.st, s.open[g]));
            }
        },
        Step::Resume { h } => {},
        Step::Mount => {
            law_mounts(
                s.st,
                Store { files: Seq::new(FILE_COUNT as nat, |i: int| empty_file()), ..s.st },
            );
            law_mount(s.st, s.st);
            assert forall|g: int| #[trigger] s1.open.contains_key(g) implies records_ok(
                s1.st,
                s1.open[g],
                marks[s1.open[g].fid as int],
            ) by {
                assert(s.open.contains_key(g));
                assert(target(s1.st, s.open[g]) == target(s.st, s.open[g]));
            }
        },
    }
}

/// No record boundaries.
pub open spec fn no_marks() -> Seq<Set<int>> {
    Seq::new(FILE_COUNT as nat, |fid: int| Set::empty())
}

/// A session begins without files.
proof fn lemma_beginning_marked(fl: Seq<Seq<u8>>)
    requires
        flash_shape(fl),
    ensures
        session_marked(beginning(fl), no_marks()),
{
    let st = beginning(fl).st;
    law_beginning(fl);
    assert forall|fid: int|
        #![trigger no_marks()[fid]]
        0 <= fid < FILE_COUNT implies marked(st.flash, st.files[fid], no_marks()[fid]) by {
        assert(file_ok(st.flash, st.files[fid]));
        lemma_empty_file(st.flash, st.files[fid]);
    }
}

/// The headers of pages, after any number of calls.
proof fn lemma_session_records(fl: Seq<Seq<u8>>, steps: Seq<Step>)
    requires
        flash_shape(fl),
        all_go_well(beginning(fl), steps),
        all_resume_marked(beginning(fl), no_marks(), steps),
    ensures
        session_ok(after_all(beginning(fl), steps)),
        session_marked(
            after_all(beginning(fl), steps),
            marks_after_all(beginning(fl), no_marks(), steps),
        ),
    decreases steps.len(),
{
    let s = beginning(fl);
    if steps.len() == 0 {
        law_beginning(fl);
        lemma_beginning_marked(fl);
    } else {
        let head = steps.drop_last();
        lemma_session_records(fl, head);
        law_session_step(after_all(s, head), steps.last());
        law_session_records_step(
            after_all(s, head),
            marks_after_all(s, no_marks(), head),
            steps.last(),
        );
    }
}

/// Whether the header of a page has the offset of the first record boundary among its bytes, which
/// is 0 if the page starts at one.
pub open spec fn starts_marked(fl: Seq<Seq<u8>>, pp: Ptr, bounds: Set<int>) -> bool {
    &&& page_marked(fl, pp, bounds)
    &&& bounds.contains(pp.header.seq as int) ==> pp.header.record_boundary == 0
}

/// A page that starts at a record boundary has offset 0 for it.
proof fn lemma_starts_marked(fl: Seq<Seq<u8>>, f: FileModel, i: int, bounds: Set<int>)
    requires
        marked(fl, f, bounds),
        0 <= i < file_run(fl, f).len(),
    ensures
        starts_marked(fl, file_run(fl, f)[i], bounds),
{
    let pp = file_run(fl, f)[i];
    lemma_run_page(fl, f, i);
    assert(page_marked(fl, pp, bounds));
    if bounds.contains(pp.header.seq as int) {
        assert(bound_on(fl, pp, bounds));
    }
}

/// After a device has been formatted and mounted, and after any number of calls that went well,
/// the header of every page of a file, and of every page that a writer has completed since, has
/// the offset of the first record boundary on the page: the first position on it at which a
/// writer was handed out or has marked the end of a record. A new writer is handed out where the
/// file ends. So the first page that it completes, which starts there, has offset 0.
pub proof fn law_session_records(fl: Seq<Seq<u8>>, steps: Seq<Step>)
    requires
        flash_shape(fl),
        all_go_well(beginning(fl), steps),
        all_resume_marked(beginning(fl), no_marks(), steps),
    ensures
        ({
            let s = after_all(beginning(fl), steps);
            let marks = marks_after_all(beginning(fl), no_marks(), steps);
            &&& forall|fid: int, i: int|
                #![trigger pages_of(s.st, fid)[i]]
                0 <= fid < FILE_COUNT && 0 <= i < pages_of(s.st, fid).len() ==> starts_marked(
                    s.st.flash,
                    pages_of(s.st, fid)[i],
                    marks[fid],
                )
            &&& forall|h: int, i: int|
                #![trigger target_run(s.st, s.open[h])[i]]
                s.open.contains_key(h) && 0 <= i < target_run(s.st, s.open[h]).len()
                    ==> starts_marked(
                    s.st.flash,
                    target_run(s.st, s.open[h])[i],
                    marks[s.open[h].fid as int].union(s.open[h].bounds),
                )
        }),
{
    let s = after_all(beginning(fl), steps);
    let marks = marks_after_all(beginning(fl), no_marks(), steps);
    lemma_session_records(fl, steps);
    assert forall|fid: int, i: int|
        #![trigger pages_of(s.st, fid)[i]]
        0 <= fid < FILE_COUNT && 0 <= i < pages_of(s.st, fid).len() implies starts_marked(
        s.st.flash,
        pages_of(s.st, fid)[i],
        marks[fid],
    ) by {
        lemma_starts_marked(s.st.flash, s.st.files[fid], i, marks[fid]);
    }
    assert forall|h: int, i: int|
        #![trigger target_run(s.st, s.open[h])[i]]
        s.open.contains_key(h) && 0 <= i < target_run(s.st, s.open[h]).len() implies starts_marked(
        s.st.flash,
        target_run(s.st, s.open[h])[i],
        marks[s.open[h].fid as int].union(s.open[h].bounds),
    ) by {
        let w = s.open[h];
        lemma_starts_marked(
            s.st.flash,
            target(s.st, w),
            i,
            marks[w.fid as int].union(w.bounds),
        );
    }
}

} // verus!
