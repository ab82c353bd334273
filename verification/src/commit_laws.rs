//! What committing and truncating does to the files.

use vstd::prelude::*;

use crate::chain::{
    contents, file_ok, file_run, lemma_contents_len, lemma_empty_file, lemma_file_ok_of_run,
    lemma_file_page_found, lemma_run_bytes, lemma_run_distinct, lemma_run_last, lemma_run_page,
    lemma_run_sorted, lemma_run_start, lemma_run_step, page_end, page_ok, payload, run_bytes,
    run_holds, run_ok, skip_ok,
};
use crate::config::{FileID, FILE_COUNT, PAGE_COUNT, SKIPLIST_LEN};
use crate::headers::meta_header;
use crate::seqnum::skip_target;
use crate::sound::{
    file_bytes, in_file, lemma_in_file_used, lemma_sound_frame, pages_of, run_has, sound,
};
use crate::store::{
    empty_file, file_page, free_chain, ptr_wf, step_back, swapped, truncate_one, truncate_point,
    truncate_some, FileModel, Ptr, Store,
};
use crate::write_laws::{
    lemma_flush, lemma_prefix_contents, target, target_run, writer_has, writer_ok, writer_open,
    written,
};
use crate::writer::{commit_writer, discarded, flush, WriterModel};
use crate::Error;

verus! {

/// Committing a writer succeeds as long as there are sequence numbers for what has been written.
/// The file is then what it was, followed by what has been written; other files do not change.
pub proof fn law_commit_writer(st: Store, w: WriterModel)
    requires
        sound(st),
        writer_ok(st, w),
        writer_open(st, w),
        w.position() <= u32::MAX,
    ensures
        ({
            let (st1, w1, r) = commit_writer(st, w);
            let fid = w.fid as int;
            &&& r == Ok::<(), Error>(())
            &&& sound(st1)
            &&& writer_ok(st1, w1)
            &&& writer_open(st1, w1)
            &&& w1.page is None
            &&& written(st1, w1) == Seq::<u8>::empty()
            &&& file_bytes(st1, fid) == file_bytes(st, fid) + written(st, w)
            &&& forall|b: int|
                0 <= b < FILE_COUNT && b != fid ==> st1.files[b] == st.files[b]
                    && #[trigger] file_bytes(st1, b) == file_bytes(st, b) && pages_of(st1, b)
                    == pages_of(st, b)
            &&& forall|p: int| #[trigger]
                run_has(pages_of(st1, fid), p) <==> run_has(pages_of(st, fid), p) || writer_has(
                    st,
                    w,
                    p,
                )
            &&& st1.used == st.used
            &&& st1.meta_page == st.meta_page
            &&& st1.meta_seq == st.meta_seq
            &&& forall|p: int|
                0 <= p < PAGE_COUNT && #[trigger] st1.flash[p] != st.flash[p] ==> writer_has(
                    st,
                    w,
                    p,
                ) && meta_header(st1.flash[p]) is None
        }),
{
    let fid = w.fid as int;
    lemma_prefix_contents(st, w);
    if w.page is None {
        let f = st.files[fid];
        assert(file_ok(st.flash, f));
        assert(written(st, w) =~= Seq::empty());
        assert(file_bytes(st, fid) + written(st, w) =~= file_bytes(st, fid));
        assert forall|p: int| #[trigger] run_has(pages_of(st, fid), p) <==> run_has(
            pages_of(st, fid),
            p,
        ) || writer_has(st, w, p) by {}
    } else {
        let (st1, w1, r1) = flush(st, w);
        lemma_flush(st, w);
        let (st2, w2, r2) = commit_writer(st, w);
        let g = target(st1, w1);
        assert(st2.files[fid] == g);
        assert(target(st2, w1) == g);
        let run = target_run(st1, w1);
        assert(pages_of(st2, fid) == run);
        assert(pages_of(st1, fid) == pages_of(st, fid));
        assert forall|p: int| #[trigger] run_has(pages_of(st2, fid), p) <==> run_has(
            pages_of(st, fid),
            p,
        ) || writer_has(st, w, p) by {
            assert(writer_has(st1, w1, p) <==> writer_has(st, w, p));
            if run_has(pages_of(st1, fid), p) {
                let base = pages_of(st1, fid);
                let k = choose|k: int| 0 <= k < base.len() && (#[trigger] base[k]).page == p;
                assert(run[k] == run.subrange(0, base.len() as int)[k]);
                assert(run_has(run, p));
            }
        }
        assert forall|b: int| 0 <= b < FILE_COUNT && b != fid implies st2.files[b] == st.files[b]
            && #[trigger] file_bytes(st2, b) == file_bytes(st, b) && pages_of(st2, b) == pages_of(
            st,
            b,
        ) by {
            assert(file_bytes(st1, b) == file_bytes(st, b));
            assert(pages_of(st1, b) == pages_of(st, b));
        }
        lemma_commit_sound(st1, w1);
        lemma_prefix_contents(st1, w1);
        assert(file_bytes(st1, fid) == file_bytes(st, fid));
        assert(written(st1, w1) =~= contents(st1.flash, g).skip(
            file_bytes(st, fid).len() as int,
        ));
        assert(run.subrange(0, run.len() as int) =~= run);
        assert(written(st2, w1) =~= Seq::empty());
    }
}

/// Making the complete pages of a writer part of the file keeps the store sound.
proof fn lemma_commit_sound(st: Store, w: WriterModel)
    requires
        sound(st),
        writer_ok(st, w),
    ensures
        sound(Store { files: st.files.update(w.fid as int, target(st, w)), ..st }),
{
    let fid = w.fid as int;
    let st2 = Store { files: st.files.update(fid, target(st, w)), ..st };
    let run = target_run(st, w);
    assert(pages_of(st2, fid) == run);
    assert forall|b: int| 0 <= b < FILE_COUNT implies file_ok(st2.flash, #[trigger] st2.files[b]) by {
        if b != fid {
            assert(file_ok(st.flash, st.files[b]));
        }
    }
    assert forall|b: int, p: int|
        0 <= b < FILE_COUNT && #[trigger] run_has(pages_of(st2, b), p) implies 0 <= p < PAGE_COUNT
        && st2.used[p] && p != st2.meta_page by {
        if b != fid || run_has(pages_of(st, fid), p) {
            assert(run_has(pages_of(st, b), p));
        } else {
            assert(writer_has(st, w, p));
        }
    }
    assert forall|a: int, b: int, p: int|
        0 <= a < FILE_COUNT && 0 <= b < FILE_COUNT && a != b && #[trigger] run_has(
            pages_of(st2, a),
            p,
        ) implies !#[trigger] run_has(pages_of(st2, b), p) by {
        if run_has(pages_of(st2, b), p) {
            if a == fid {
                assert(pages_of(st2, b) == pages_of(st, b));
                if !run_has(pages_of(st, a), p) {
                    assert(writer_has(st, w, p));
                    assert(run_has(pages_of(st, b), p));
                }
            } else if b == fid {
                assert(pages_of(st2, a) == pages_of(st, a));
                if !run_has(pages_of(st, b), p) {
                    assert(writer_has(st, w, p));
                    assert(run_has(pages_of(st, a), p));
                }
            } else {
                assert(pages_of(st2, a) == pages_of(st, a));
                assert(pages_of(st2, b) == pages_of(st, b));
            }
            assert(run_has(pages_of(st, a), p) && run_has(pages_of(st, b), p));
        }
    }
    assert(ptr_wf(w.last));
    assert forall|i: int| 0 <= i < FILE_COUNT implies ptr_wf(
        (#[trigger] st2.files[i]).last,
    ) by {
        if i != fid {
            assert(ptr_wf(st.files[i].last));
        }
    }
}

/// The table of used pages after the first `n` pages of a run have been freed.
pub open spec fn freed(used: Seq<bool>, run: Seq<Ptr>, n: int) -> Seq<bool> {
    Seq::new(used.len(), |p: int| used[p] && !run_has(run.subrange(0, n), p))
}

/// Walking back from a page of a run frees the pages up to that page.
proof fn lemma_free_run(
    fl: Seq<Seq<u8>>,
    used: Seq<bool>,
    run: Seq<Ptr>,
    first: u32,
    end: u32,
    i: int,
)
    requires
        run_ok(fl, run, first, end),
        0 <= i < run.len(),
        used.len() == PAGE_COUNT,
    ensures
        free_chain(fl, used, Some(run[i]), None, first) == (
            freed(used, run, i + 1),
            Ok::<(), Error>(()),
        ),
    decreases i,
{
    let used2 = used.update(run[i].page as int, false);
    assert(page_ok(fl, run[i]));
    let a = run.subrange(0, i);
    let b = run.subrange(0, i + 1);
    assert forall|p: int| #[trigger] run_has(b, p) <==> run_has(a, p) || p == run[i].page by {
        if run_has(a, p) {
            let k = choose|k: int| 0 <= k < a.len() && (#[trigger] a[k]).page == p;
            assert(b[k].page == p);
        }
        if run_has(b, p) {
            let k = choose|k: int| 0 <= k < b.len() && (#[trigger] b[k]).page == p;
            if k < i {
                assert(a[k].page == p);
            }
        }
        if p == run[i].page {
            assert(b[i].page == p);
        }
    }
    if i == 0 {
        assert(step_back(fl, run[0], first) == Ok::<Option<Ptr>, Error>(None));
        assert forall|p: int| !run_has(a, p) by {}
        assert(used2 =~= freed(used, run, 1));
    } else {
        lemma_run_sorted(fl, run, first, end, 0, i);
        lemma_run_step(fl, run, first, end, i, first);
        lemma_free_run(fl, used2, run, first, end, i - 1);
        assert(freed(used2, run, i) =~= freed(used, run, i + 1));
    }
}

/// The last pages of a run are a run.
proof fn lemma_run_suffix(
    fl: Seq<Seq<u8>>,
    run: Seq<Ptr>,
    first: u32,
    end: u32,
    k: int,
    seq: u32,
)
    requires
        run_ok(fl, run, first, end),
        0 <= k < run.len(),
        run[k].header.seq <= seq < page_end(fl, run[k]),
    ensures
        run_ok(fl, run.subrange(k, run.len() as int), seq, end),
{
    let sub = run.subrange(k, run.len() as int);
    assert forall|i: int| 0 <= i < sub.len() implies page_ok(fl, #[trigger] sub[i]) by {
        assert(sub[i] == run[i + k]);
    }
    assert forall|i: int|
        #![trigger sub[i]]
        0 <= i < sub.len() - 1 implies page_end(fl, sub[i]) == sub[i + 1].header.seq by {
        assert(sub[i] == run[i + k]);
        assert(sub[i + 1] == run[i + k + 1]);
    }
    assert(sub.last() == run.last());
    if k > 0 {
        lemma_run_sorted(fl, run, first, end, 0, k);
    }
    assert forall|i: int, j: int| 0 <= i < sub.len() && 0 <= j < SKIPLIST_LEN implies skip_ok(
        sub,
        i,
        j,
    ) by {
        let s = sub[i].header.seq;
        let t = skip_target(s, j);
        if s > 0 && t >= sub[0].header.seq {
            assert(sub[i] == run[i + k]);
            assert(skip_ok(run, i + k, j));
            let q = choose|q: int|
                0 <= q < i + k && #[trigger] run_holds(run, q, t) && run[i + k].header.skiplist[j]
                    == run[q].page;
            if q < k {
                if q + 1 < k {
                    lemma_run_sorted(fl, run, first, end, q + 1, k);
                }
            }
            assert(sub[q - k] == run[q] && sub[q - k + 1] == run[q + 1]);
            assert(run_holds(sub, q - k, t));
        }
    }
}

/// The bytes of a run are those of its first pages followed by those of the others.
proof fn lemma_run_bytes_split(fl: Seq<Seq<u8>>, run: Seq<Ptr>, k: int)
    requires
        0 <= k <= run.len(),
    ensures
        run_bytes(fl, run) == run_bytes(fl, run.subrange(0, k)) + run_bytes(
            fl,
            run.subrange(k, run.len() as int),
        ),
    decreases run.len(),
{
    if k == run.len() {
        assert(run.subrange(0, k) =~= run);
        assert(run_bytes(fl, run) + Seq::<u8>::empty() =~= run_bytes(fl, run));
    } else {
        let d = run.drop_last();
        lemma_run_bytes_split(fl, d, k);
        assert(d.subrange(0, k) =~= run.subrange(0, k));
        let tail = run.subrange(k, run.len() as int);
        assert(d.subrange(k, d.len() as int) =~= tail.drop_last());
        assert(tail.last() == run.last());
        let a = run_bytes(fl, run.subrange(0, k));
        let b = run_bytes(fl, tail.drop_last());
        let c = payload(fl, run.last());
        assert((a + b) + c =~= a + (b + c));
    }
}

/// What a file holds from a byte on that is on page `k`.
proof fn lemma_suffix_contents(fl: Seq<Seq<u8>>, f: FileModel, k: int, seq: u32)
    requires
        file_ok(fl, f),
        f.last is Some,
        0 <= k < file_run(fl, f).len(),
        f.first <= seq,
        file_run(fl, f)[k].header.seq <= seq < page_end(fl, file_run(fl, f)[k]),
        file_ok(fl, FileModel { first: seq, ..f }),
        file_run(fl, FileModel { first: seq, ..f }) == file_run(fl, f).subrange(
            k,
            file_run(fl, f).len() as int,
        ),
    ensures
        contents(fl, FileModel { first: seq, ..f }) == contents(fl, f).skip(seq - f.first),
{
    let run = file_run(fl, f);
    let f1 = FileModel { first: seq, ..f };
    let sub = file_run(fl, f1);
    lemma_run_last(fl, f);
    lemma_run_start(fl, f);
    lemma_run_bytes_split(fl, run, k);
    lemma_contents_len(fl, f);
    lemma_contents_len(fl, f1);
    lemma_run_bytes(fl, run, run.len() as int);
    assert(run.subrange(0, run.len() as int) =~= run);
    if k > 0 {
        lemma_run_bytes(fl, run, k);
        lemma_run_page(fl, f, k - 1);
    } else {
        assert(run.subrange(0, 0) =~= Seq::empty());
    }
    assert(sub[0] == run[k]);
    reveal(contents);
    assert(contents(fl, f1) =~= contents(fl, f).skip(seq - f.first));
}

/// Dropping bytes from the front of a file, for a well-formed file.
proof fn lemma_truncate_file(fl: Seq<Seq<u8>>, used: Seq<bool>, f: FileModel, n: int)
    requires
        file_ok(fl, f),
        used.len() == PAGE_COUNT,
        0 <= n,
    ensures
        ({
            let seq = truncate_point(f, n);
            let f1 = if seq == f.end {
                empty_file()
            } else {
                FileModel { first: seq, ..f }
            };
            let run = file_run(fl, f);
            let run1 = file_run(fl, f1);
            let k = run.len() - run1.len();
            let unneeded = if seq == f.end {
                Ok(f.last)
            } else {
                match file_page(fl, f, seq) {
                    Err(e) => Err(e),
                    Ok(None) => Ok(None),
                    Ok(Some(pp)) => step_back(fl, pp, f.first),
                }
            };
            let c = contents(fl, f);
            &&& 0 <= k <= run.len()
            &&& run1 == run.subrange(k, run.len() as int)
            &&& file_ok(fl, f1)
            &&& unneeded is Ok
            &&& free_chain(fl, used, unneeded->Ok_0, None, f.first) == (
                freed(used, run, k),
                Ok::<(), Error>(()),
            )
            &&& contents(fl, f1) == c.skip(
                if n <= c.len() {
                    n
                } else {
                    c.len() as int
                },
            )
        }),
{
    let seq = truncate_point(f, n);
    let run = file_run(fl, f);
    let c = contents(fl, f);
    lemma_contents_len(fl, f);
    if f.last is None {
        lemma_empty_file(fl, f);
        assert(run.subrange(0, 0) =~= Seq::empty());
        assert forall|p: int| !run_has(run.subrange(0, 0), p) by {}
        assert(freed(used, run, 0) =~= used);
        assert(c.skip(0) =~= Seq::empty());
    } else {
        lemma_run_last(fl, f);
        lemma_run_start(fl, f);
        if seq == f.end {
            lemma_empty_file(fl, empty_file());
            let k = run.len() as int;
            lemma_free_run(fl, used, run, f.first, f.end, k - 1);
            assert(run.subrange(k, k) =~= Seq::empty());
            assert(c.skip(c.len() as int) =~= Seq::empty());
        } else {
            let k = lemma_file_page_found(fl, f, seq);
            let sub = run.subrange(k, run.len() as int);
            let f1 = FileModel { first: seq, ..f };
            lemma_run_suffix(fl, run, f.first, f.end, k, seq);
            assert(sub.last() == run.last());
            lemma_file_ok_of_run(fl, f1, sub);
            lemma_run_page(fl, f, k);
            if k == 0 {
                assert(step_back(fl, run[0], f.first) == Ok::<Option<Ptr>, Error>(None));
                assert forall|p: int| !run_has(run.subrange(0, 0), p) by {}
                assert(freed(used, run, 0) =~= used);
            } else {
                lemma_run_step(fl, run, f.first, f.end, k, f.first);
                lemma_free_run(fl, used, run, f.first, f.end, k - 1);
            }
            lemma_suffix_contents(fl, f, k, seq);
        }
    }
}

/// Truncating a well-formed file succeeds and drops its first `n` bytes, whatever the state of
/// other files. It gives back the pages that hold none of the remaining bytes, and changes
/// nothing else in the tables and nothing on the device.
pub proof fn law_truncate_alone(st: Store, fid: int, n: int)
    requires
        st.wf(),
        0 <= fid < FILE_COUNT,
        file_ok(st.flash, st.files[fid]),
        0 <= n,
    ensures
        ({
            let (st1, r) = truncate_one(st, fid, n);
            &&& r == Ok::<(), Error>(())
            &&& file_ok(st1.flash, st1.files[fid])
            &&& file_bytes(st1, fid) == dropped(file_bytes(st, fid), n)
            &&& st1 == (Store { files: st1.files, used: st1.used, ..st })
            &&& st1.files == st.files.update(fid, st1.files[fid])
            &&& st1.used.len() == PAGE_COUNT
            &&& forall|p: int| #[trigger]
                run_has(pages_of(st1, fid), p) ==> run_has(pages_of(st, fid), p)
            &&& forall|p: int|
                0 <= p < PAGE_COUNT ==> (#[trigger] st1.used[p] <==> st.used[p] && !(run_has(
                    pages_of(st, fid),
                    p,
                ) && !run_has(pages_of(st1, fid), p)))
        }),
{
    let f = st.files[fid];
    lemma_truncate_file(st.flash, st.used, f, n);
    let st1 = truncate_one(st, fid, n).0;
    let run = pages_of(st, fid);
    let run1 = pages_of(st1, fid);
    let k = run.len() - run1.len();
    let gone = run.subrange(0, k);
    assert(run1 == run.subrange(k, run.len() as int));
    assert forall|p: int| #[trigger] run_has(run1, p) implies run_has(run, p) by {
        let i = choose|i: int| 0 <= i < run1.len() && (#[trigger] run1[i]).page == p;
        assert(run[i + k].page == p);
    }
    assert forall|p: int| #[trigger] run_has(gone, p) <==> run_has(run, p) && !run_has(run1, p) by {
        if run_has(gone, p) {
            let i = choose|i: int| 0 <= i < gone.len() && (#[trigger] gone[i]).page == p;
            assert(run[i].page == p);
            if run_has(run1, p) {
                let j = choose|j: int| 0 <= j < run1.len() && (#[trigger] run1[j]).page == p;
                assert(run[j + k].page == p);
                if f.last is None {
                    lemma_empty_file(st.flash, f);
                }
                lemma_run_last(st.flash, f);
                lemma_run_distinct(st.flash, run, f.first, f.end, i, j + k);
            }
        }
        if run_has(run, p) && !run_has(run1, p) {
            let i = choose|i: int| 0 <= i < run.len() && (#[trigger] run[i]).page == p;
            if i >= k {
                assert(run1[i - k].page == p);
            }
            assert(gone[i].page == p);
        }
    }
}

/// Truncating a file by `n` bytes drops its first `n` bytes, or all of them if there are fewer,
/// and gives back exactly the pages that hold none of the remaining bytes. Truncating all of a
/// file deletes it. Nothing else changes.
pub proof fn law_truncate(st: Store, fid: int, n: int)
    requires
        sound(st),
        0 <= fid < FILE_COUNT,
        0 <= n,
    ensures
        ({
            let (st1, r) = truncate_one(st, fid, n);
            let c = file_bytes(st, fid);
            &&& r == Ok::<(), Error>(())
            &&& sound(st1)
            &&& file_bytes(st1, fid) == c.skip(
                if n <= c.len() {
                    n
                } else {
                    c.len() as int
                },
            )
            &&& n >= c.len() ==> st1.files[fid] == empty_file()
            &&& forall|b: int|
                0 <= b < FILE_COUNT && b != fid ==> st1.files[b] == st.files[b]
                    && #[trigger] file_bytes(st1, b) == file_bytes(st, b) && pages_of(st1, b)
                    == pages_of(st, b)
            &&& st1.flash == st.flash
            &&& st1.meta_page == st.meta_page
            &&& st1.meta_seq == st.meta_seq
            &&& forall|p: int| #[trigger]
                run_has(pages_of(st1, fid), p) ==> run_has(pages_of(st, fid), p)
            &&& forall|p: int|
                0 <= p < PAGE_COUNT ==> (#[trigger] st1.used[p] <==> st.used[p] && !(run_has(
                    pages_of(st, fid),
                    p,
                ) && !run_has(pages_of(st1, fid), p)))
        }),
{
    let f = st.files[fid];
    let c = file_bytes(st, fid);
    assert(file_ok(st.flash, f));
    lemma_contents_len(st.flash, f);
    lemma_truncate_file(st.flash, st.used, f, n);
    let (st1, r) = truncate_one(st, fid, n);
    let run = pages_of(st, fid);
    let run1 = pages_of(st1, fid);
    let k = run.len() - run1.len();
    if f.last is None {
        lemma_empty_file(st.flash, f);
    } else {
        lemma_run_last(st.flash, f);
    }
    assert forall|p: int| #[trigger] run_has(run1, p) implies run_has(run, p) by {
        let i = choose|i: int| 0 <= i < run1.len() && (#[trigger] run1[i]).page == p;
        assert(run[i + k].page == p);
    }
    assert forall|p: int| #[trigger] run_has(run.subrange(0, k), p) <==> run_has(run, p)
        && !run_has(run1, p) by {
        if run_has(run.subrange(0, k), p) {
            let i = choose|i: int|
                0 <= i < k && (#[trigger] run.subrange(0, k)[i]).page == p;
            assert(run[i].page == p);
            if run_has(run1, p) {
                let j = choose|j: int| 0 <= j < run1.len() && (#[trigger] run1[j]).page == p;
                assert(run[j + k].page == p);
                lemma_run_distinct(st.flash, run, f.first, f.end, i, j + k);
            }
        }
        if run_has(run, p) && !run_has(run1, p) {
            let i = choose|i: int| 0 <= i < run.len() && (#[trigger] run[i]).page == p;
            if i >= k {
                assert(run1[i - k].page == p);
            }
            assert(run.subrange(0, k)[i].page == p);
        }
    }
    assert(st1.used == freed(st.used, run, k));
    assert forall|b: int| 0 <= b < FILE_COUNT && b != fid implies st1.files[b] == st.files[b]
        && #[trigger] file_bytes(st1, b) == file_bytes(st, b) && pages_of(st1, b) == pages_of(
        st,
        b,
    ) by {}
    assert forall|b: int| 0 <= b < FILE_COUNT implies file_ok(st1.flash, #[trigger] st1.files[b]) by {
        if b != fid {
            assert(file_ok(st.flash, st.files[b]));
        }
    }
    assert forall|i: int| 0 <= i < FILE_COUNT implies ptr_wf(
        (#[trigger] st1.files[i]).last,
    ) by {
        assert(ptr_wf(st.files[i].last));
    }
    assert forall|b: int, p: int|
        0 <= b < FILE_COUNT && #[trigger] run_has(pages_of(st1, b), p) implies 0 <= p < PAGE_COUNT
        && st1.used[p] && p != st1.meta_page by {
        if b == fid {
            assert(run_has(pages_of(st, fid), p));
            assert(!run_has(run.subrange(0, k), p));
        } else {
            assert(pages_of(st1, b) == pages_of(st, b));
            assert(run_has(pages_of(st, b), p));
            assert(!run_has(pages_of(st, fid), p));
            assert(!run_has(run.subrange(0, k), p));
        }
    }
    assert(st1.used[st1.meta_page as int]) by {
        if run_has(run.subrange(0, k), st.meta_page as int) {
            assert(run_has(pages_of(st, fid), st.meta_page as int));
        }
    }
    assert forall|a: int, b: int, p: int|
        0 <= a < FILE_COUNT && 0 <= b < FILE_COUNT && a != b && #[trigger] run_has(
            pages_of(st1, a),
            p,
        ) implies !#[trigger] run_has(pages_of(st1, b), p) by {
        if run_has(pages_of(st1, b), p) {
            assert(run_has(pages_of(st, a), p));
            assert(run_has(pages_of(st, b), p));
        }
    }
}

/// The pages that remain of a truncated file are its last ones.
pub proof fn lemma_truncate_run(st: Store, fid: int, n: int)
    requires
        sound(st),
        0 <= fid < FILE_COUNT,
        0 <= n,
    ensures
        ({
            let st1 = truncate_one(st, fid, n).0;
            let run = pages_of(st, fid);
            let run1 = pages_of(st1, fid);
            &&& run1.len() <= run.len()
            &&& run1 == run.subrange(run.len() - run1.len(), run.len() as int)
            &&& st1.used == freed(st.used, run, run.len() - run1.len())
        }),
{
    assert(file_ok(st.flash, st.files[fid]));
    lemma_truncate_file(st.flash, st.used, st.files[fid], n);
}

/// Dropping `a` bytes and then `b` bytes comes to the same as dropping `a + b` bytes.
pub proof fn law_truncate_twice(st: Store, fid: int, a: int, b: int)
    requires
        sound(st),
        0 <= fid < FILE_COUNT,
        0 <= a,
        0 <= b,
    ensures
        truncate_one(truncate_one(st, fid, a).0, fid, b) == truncate_one(st, fid, a + b),
{
    let f = st.files[fid];
    let st1 = truncate_one(st, fid, a).0;
    let (st2, r2) = truncate_one(st1, fid, b);
    let (st3, r3) = truncate_one(st, fid, a + b);
    law_truncate(st, fid, a);
    law_truncate(st1, fid, b);
    law_truncate(st, fid, a + b);
    assert(file_ok(st.flash, f));
    lemma_contents_len(st.flash, f);
    assert(st2.files =~= st3.files);
    lemma_truncate_run(st, fid, a);
    lemma_truncate_run(st1, fid, b);
    lemma_truncate_run(st, fid, a + b);
    let run = pages_of(st, fid);
    let run1 = pages_of(st1, fid);
    assert(pages_of(st2, fid) == pages_of(st3, fid));
    let k1 = run.len() - run1.len();
    let k2 = run1.len() - pages_of(st2, fid).len();
    let x = run.subrange(0, k1);
    let y = run1.subrange(0, k2);
    let z = run.subrange(0, k1 + k2);
    assert forall|p: int| #[trigger] run_has(z, p) <==> run_has(x, p) || run_has(y, p) by {
        if run_has(x, p) {
            let k = choose|k: int| 0 <= k < x.len() && (#[trigger] x[k]).page == p;
            assert(z[k].page == p);
        }
        if run_has(y, p) {
            let k = choose|k: int| 0 <= k < y.len() && (#[trigger] y[k]).page == p;
            assert(z[k + k1].page == p);
        }
        if run_has(z, p) {
            let k = choose|k: int| 0 <= k < z.len() && (#[trigger] z[k]).page == p;
            if k < k1 {
                assert(x[k].page == p);
            } else {
                assert(y[k - k1].page == p);
            }
        }
    }
    assert(st2.used =~= st3.used);
}

/// Dropping no bytes changes nothing.
pub proof fn law_truncate_nothing(st: Store, fid: int)
    requires
        sound(st),
        0 <= fid < FILE_COUNT,
    ensures
        truncate_one(st, fid, 0) == (st, Ok::<(), Error>(())),
{
    let f = st.files[fid];
    let st1 = truncate_one(st, fid, 0).0;
    law_truncate(st, fid, 0);
    assert(file_ok(st.flash, f));
    if f.last is None {
        lemma_empty_file(st.flash, f);
    } else {
        lemma_run_last(st.flash, f);
    }
    assert(st1.files =~= st.files);
    assert(st1.used =~= st.used);
}

/// How many bytes of a file the first `k` entries of a list of truncations ask to drop.
pub open spec fn asked(list: Seq<(FileID, usize)>, k: int, fid: int) -> int
    decreases k,
{
    if k <= 0 {
        0
    } else {
        asked(list, k - 1, fid) + if list[k - 1].0 == fid {
            list[k - 1].1 as int
        } else {
            0
        }
    }
}

/// The bytes behind the first `n`.
pub open spec fn dropped(c: Seq<u8>, n: int) -> Seq<u8> {
    c.skip(
        if n <= c.len() {
            n
        } else {
            c.len() as int
        },
    )
}

/// Whether truncations turn one store into the other, as far as pages go: the device and the meta
/// page stay, and the pages that are given back are those that no file needs any more.
pub open spec fn truncated(st: Store, st1: Store) -> bool {
    &&& st1.flash == st.flash
    &&& st1.meta_page == st.meta_page
    &&& st1.meta_seq == st.meta_seq
    &&& forall|fid: int, p: int|
        0 <= fid < FILE_COUNT && #[trigger] run_has(pages_of(st1, fid), p) ==> run_has(
            pages_of(st, fid),
            p,
        )
    &&& forall|p: int|
        0 <= p < PAGE_COUNT ==> (#[trigger] st1.used[p] <==> st.used[p] && !(in_file(st, p)
            && !in_file(st1, p)))
}

/// Truncating one file gives back the pages that no file needs any more.
proof fn lemma_truncate_pages(st: Store, fid: int, n: int)
    requires
        sound(st),
        0 <= fid < FILE_COUNT,
        0 <= n,
    ensures
        truncated(st, truncate_one(st, fid, n).0),
{
    law_truncate(st, fid, n);
    let st1 = truncate_one(st, fid, n).0;
    assert forall|b: int, p: int|
        0 <= b < FILE_COUNT && #[trigger] run_has(pages_of(st1, b), p) implies run_has(
        pages_of(st, b),
        p,
    ) by {
        if b != fid {
            assert(file_bytes(st1, b) == file_bytes(st, b));
        }
    }
    assert forall|p: int|
        0 <= p < PAGE_COUNT implies (#[trigger] st1.used[p] <==> st.used[p] && !(in_file(st, p)
        && !in_file(st1, p))) by {
        let a = run_has(pages_of(st, fid), p);
        let a1 = run_has(pages_of(st1, fid), p);
        if a && !a1 {
            assert(in_file(st, p));
            if in_file(st1, p) {
                let b = choose|b: int| 0 <= b < FILE_COUNT && #[trigger] run_has(pages_of(st1, b), p);
                assert(run_has(pages_of(st, b), p));
            }
        }
        if in_file(st, p) && !in_file(st1, p) {
            let b = choose|b: int| 0 <= b < FILE_COUNT && #[trigger] run_has(pages_of(st, b), p);
            if b != fid {
                assert(file_bytes(st1, b) == file_bytes(st, b));
                assert(run_has(pages_of(st1, b), p));
            }
        }
    }
}

/// A list of truncations drops from the front of each file the bytes that its entries for that
/// file ask for, taken together, and succeeds. Files that are not in the list do not change.
pub proof fn law_truncate_some(st: Store, list: Seq<(FileID, usize)>, k: int)
    requires
        sound(st),
        0 <= k <= list.len(),
        forall|i: int| 0 <= i < k ==> (#[trigger] list[i]).0 < FILE_COUNT,
    ensures
        ({
            let (st1, r) = truncate_some(st, list, k);
            &&& r == Ok::<(), Error>(())
            &&& sound(st1)
            &&& truncated(st, st1)
            &&& forall|fid: int|
                0 <= fid < FILE_COUNT ==> #[trigger] file_bytes(st1, fid) == dropped(
                    file_bytes(st, fid),
                    asked(list, k, fid),
                ) && asked(list, k, fid) >= 0
            &&& forall|fid: int|
                #![trigger st1.files[fid]]
                0 <= fid < FILE_COUNT ==> st1.files[fid] == st.files[fid] || exists|i: int|
                    0 <= i < k && (#[trigger] list[i]).0 == fid
            &&& forall|fid: int|
                #![trigger st1.files[fid]]
                0 <= fid < FILE_COUNT ==> st1.files[fid] == empty_file() || (st1.files[fid].last
                    == st.files[fid].last && st1.files[fid].end == st.files[fid].end)
        }),
    decreases k,
{
    if k == 0 {
        assert forall|fid: int| 0 <= fid < FILE_COUNT implies #[trigger] file_bytes(st, fid)
            == dropped(file_bytes(st, fid), 0) by {
            assert(file_bytes(st, fid).skip(0) =~= file_bytes(st, fid));
        }
    } else {
        law_truncate_some(st, list, k - 1);
        let (st1, r1) = truncate_some(st, list, k - 1);
        let (st2, r2) = truncate_some(st, list, k);
        let fid = list[k - 1].0 as int;
        let n = list[k - 1].1 as int;
        law_truncate(st1, fid, n);
        lemma_truncate_pages(st1, fid, n);
        assert forall|b: int| 0 <= b < FILE_COUNT implies #[trigger] file_bytes(st2, b) == dropped(
            file_bytes(st, b),
            asked(list, k, b),
        ) && asked(list, k, b) >= 0 by {
            assert(file_bytes(st1, b) == dropped(file_bytes(st, b), asked(list, k - 1, b)));
            if b == fid {
                assert(file_bytes(st2, b) =~= dropped(file_bytes(st, b), asked(list, k, b)));
            }
        }
        assert forall|b: int|
            #![trigger st2.files[b]]
            0 <= b < FILE_COUNT implies st2.files[b] == st.files[b] || exists|i: int|
            0 <= i < k && (#[trigger] list[i]).0 == b by {
            if b != fid {
                assert(file_bytes(st2, b) == file_bytes(st1, b));
                assert(st2.files[b] == st1.files[b]);
                if st1.files[b] != st.files[b] {
                    let i = choose|i: int| 0 <= i < k - 1 && (#[trigger] list[i]).0 == b;
                    assert(0 <= i < k && list[i].0 == b);
                }
            } else {
                assert(list[k - 1].0 == b);
            }
        }
        assert forall|b: int|
            #![trigger st2.files[b]]
            0 <= b < FILE_COUNT implies st2.files[b] == empty_file() || (st2.files[b].last
            == st.files[b].last && st2.files[b].end == st.files[b].end) by {
            assert(st1.files[b] == empty_file() || (st1.files[b].last == st.files[b].last
                && st1.files[b].end == st.files[b].end));
            if b != fid {
                assert(file_bytes(st2, b) == file_bytes(st1, b));
            }
        }
        assert forall|b: int, p: int|
            0 <= b < FILE_COUNT && #[trigger] run_has(pages_of(st2, b), p) implies run_has(
            pages_of(st, b),
            p,
        ) by {
            assert(run_has(pages_of(st1, b), p));
        }
        assert forall|p: int|
            0 <= p < PAGE_COUNT implies (#[trigger] st2.used[p] <==> st.used[p] && !(in_file(st, p)
            && !in_file(st2, p))) by {
            assert(st1.used[p] <==> st.used[p] && !(in_file(st, p) && !in_file(st1, p)));
            if in_file(st1, p) {
                let b = choose|b: int| 0 <= b < FILE_COUNT && #[trigger] run_has(pages_of(st1, b), p);
                assert(run_has(pages_of(st, b), p));
            }
            if in_file(st2, p) {
                let b = choose|b: int| 0 <= b < FILE_COUNT && #[trigger] run_has(pages_of(st2, b), p);
                assert(run_has(pages_of(st1, b), p));
            }
        }
    }
}

/// Walking back from a page of a run to page `n - 1` frees the pages between them.
proof fn lemma_free_tail(
    fl: Seq<Seq<u8>>,
    used: Seq<bool>,
    run: Seq<Ptr>,
    first: u32,
    end: u32,
    n: int,
    i: int,
)
    requires
        run_ok(fl, run, first, end),
        0 < n <= i + 1 <= run.len(),
        used.len() == PAGE_COUNT,
    ensures
        free_chain(fl, used, Some(run[i]), Some(run[n - 1]), 0) == (
            Seq::new(used.len(), |p: int| used[p] && !run_has(run.subrange(n, i + 1), p)),
            Ok::<(), Error>(()),
        ),
    decreases i,
{
    let b = run.subrange(n, i + 1);
    let goal = Seq::new(used.len(), |p: int| used[p] && !run_has(b, p));
    if i == n - 1 {
        assert forall|p: int| !run_has(b, p) by {}
        assert(goal =~= used);
    } else {
        let used2 = used.update(run[i].page as int, false);
        assert(page_ok(fl, run[i]));
        let a = run.subrange(n, i);
        assert forall|p: int| #[trigger] run_has(b, p) <==> run_has(a, p) || p == run[i].page by {
            if run_has(a, p) {
                let k = choose|k: int| 0 <= k < a.len() && (#[trigger] a[k]).page == p;
                assert(b[k].page == p);
            }
            if run_has(b, p) {
                let k = choose|k: int| 0 <= k < b.len() && (#[trigger] b[k]).page == p;
                if k < i - n {
                    assert(a[k].page == p);
                }
            }
            if p == run[i].page {
                assert(b[i - n].page == p);
            }
        }
        if run[i].page == run[n - 1].page {
            lemma_run_distinct(fl, run, first, end, i, n - 1);
        }
        lemma_run_sorted(fl, run, first, end, 0, i);
        lemma_run_step(fl, run, first, end, i, 0);
        lemma_free_tail(fl, used2, run, first, end, n, i - 1);
        assert(Seq::new(used2.len(), |p: int| used2[p] && !run_has(a, p)) =~= goal);
    }
}

/// Discarding a writer gives back exactly the pages that it has taken since the last commit, and
/// nothing else happens: no file changes.
pub proof fn law_discard(st: Store, w: WriterModel)
    requires
        sound(st),
        writer_ok(st, w),
        writer_open(st, w),
    ensures
        ({
            let (used, r) = discarded(st, w);
            let st1 = Store { used, ..st };
            &&& r == Ok::<(), Error>(())
            &&& sound(st1)
            &&& used.len() == PAGE_COUNT
            &&& forall|p: int|
                0 <= p < PAGE_COUNT ==> (#[trigger] used[p] <==> st.used[p] && !writer_has(st, w, p))
            &&& forall|fid: int|
                0 <= fid < FILE_COUNT ==> #[trigger] file_bytes(st1, fid) == file_bytes(st, fid)
        }),
{
    let fid = w.fid as int;
    let (used, r) = discarded(st, w);
    let f = st.files[fid];
    let run = target_run(st, w);
    let base = pages_of(st, fid);
    let n = base.len() as int;
    assert(file_ok(st.flash, f));
    assert forall|p: int| run_has(base, p) implies #[trigger] run_has(run, p) by {
        let k = choose|k: int| 0 <= k < base.len() && (#[trigger] base[k]).page == p;
        assert(run.subrange(0, n)[k] == run[k]);
    }
    if let Some(op) = w.page {
        let used2 = st.used.update(op.page as int, false);
        let tail = run.subrange(n, run.len() as int);
        if w.last is None {
            lemma_empty_file(st.flash, target(st, w));
            assert forall|p: int| !run_has(tail, p) by {}
            assert(used =~= used2);
        } else {
            let g = target(st, w);
            lemma_run_last(st.flash, g);
            let len = run.len() as int;
            if f.last is None {
                lemma_empty_file(st.flash, f);
                lemma_free_run(st.flash, used2, run, 0, g.end, len - 1);
                assert(run.subrange(0, len) =~= tail);
            } else {
                lemma_run_last(st.flash, f);
                assert(run.subrange(0, n)[n - 1] == run[n - 1]);
                lemma_free_tail(st.flash, used2, run, g.first, g.end, n, len - 1);
            }
            assert forall|p: int| #[trigger] run_has(tail, p) <==> run_has(run, p) && !run_has(
                base,
                p,
            ) by {
                if run_has(tail, p) {
                    let i = choose|i: int| 0 <= i < tail.len() && (#[trigger] tail[i]).page == p;
                    assert(run[i + n].page == p);
                    if run_has(base, p) {
                        let k = choose|k: int| 0 <= k < base.len() && (#[trigger] base[k]).page == p;
                        assert(run.subrange(0, n)[k] == run[k]);
                        lemma_run_distinct(st.flash, run, g.first, g.end, i + n, k);
                    }
                }
                if run_has(run, p) && !run_has(base, p) {
                    let i = choose|i: int| 0 <= i < run.len() && (#[trigger] run[i]).page == p;
                    if i < n {
                        assert(run.subrange(0, n)[i] == run[i]);
                        assert(base[i].page == p);
                    }
                    assert(tail[i - n].page == p);
                }
            }
        }
        assert forall|p: int|
            0 <= p < PAGE_COUNT implies (#[trigger] used[p] <==> st.used[p] && !writer_has(
            st,
            w,
            p,
        )) by {}
    } else {
        assert forall|p: int| !#[trigger] writer_has(st, w, p) by {}
    }
    let st1 = Store { used, ..st };
    assert forall|p: int| 0 <= p < PAGE_COUNT && in_file(st, p) implies #[trigger] st1.used[p] by {
        lemma_in_file_used(st, p);
        assert(!writer_has(st, w, p));
    }
    if in_file(st, st1.meta_page as int) {
        lemma_in_file_used(st, st1.meta_page as int);
    }
    lemma_sound_frame(st, st1);
}

/// Exchanging two files exchanges their contents, and nothing else.
pub proof fn law_rename(st: Store, from: int, to: int)
    requires
        sound(st),
        0 <= from < FILE_COUNT,
        0 <= to < FILE_COUNT,
    ensures
        sound(swapped(st, from, to)),
        file_bytes(swapped(st, from, to), from) == file_bytes(st, to),
        file_bytes(swapped(st, from, to), to) == file_bytes(st, from),
        forall|b: int|
            0 <= b < FILE_COUNT && b != from && b != to ==> #[trigger] file_bytes(
                swapped(st, from, to),
                b,
            ) == file_bytes(st, b),
{
    let st1 = swapped(st, from, to);
    let other = |b: int|
        if b == to {
            from
        } else if b == from {
            to
        } else {
            b
        };
    assert forall|b: int| 0 <= b < FILE_COUNT implies #[trigger] pages_of(st1, b) == pages_of(
        st,
        other(b),
    ) && st1.files[b] == st.files[other(b)] by {}
    assert forall|b: int| 0 <= b < FILE_COUNT implies file_ok(st1.flash, #[trigger] st1.files[b])
        && ptr_wf(st1.files[b].last) by {
        assert(file_ok(st.flash, st.files[other(b)]));
        assert(ptr_wf(st.files[other(b)].last));
    }
    assert forall|b: int, p: int|
        0 <= b < FILE_COUNT && #[trigger] run_has(pages_of(st1, b), p) implies 0 <= p < PAGE_COUNT
        && st1.used[p] && p != st1.meta_page by {
        assert(run_has(pages_of(st, other(b)), p));
    }
    assert forall|a: int, b: int, p: int|
        0 <= a < FILE_COUNT && 0 <= b < FILE_COUNT && a != b && #[trigger] run_has(
            pages_of(st1, a),
            p,
        ) implies !#[trigger] run_has(pages_of(st1, b), p) by {
        assert(run_has(pages_of(st, other(a)), p));
        assert(other(a) != other(b));
    }
}

/// The end of a file of which the first bytes have been dropped, but not all: its pages are the
/// last ones of the file from page `k` on.
proof fn lemma_later_first(fl: Seq<Seq<u8>>, f: FileModel, x: u32) -> (k: int)
    requires
        file_ok(fl, f),
        f.last is Some,
        f.first <= x < f.end,
    ensures
        ({
            let f1 = FileModel { first: x, ..f };
            let run = file_run(fl, f);
            &&& 0 <= k < run.len()
            &&& run[k].header.seq <= x < page_end(fl, run[k])
            &&& file_ok(fl, f1)
            &&& file_run(fl, f1) == run.subrange(k, run.len() as int)
            &&& contents(fl, f1) == contents(fl, f).skip(x - f.first)
        }),
{
    let f1 = FileModel { first: x, ..f };
    let run = file_run(fl, f);
    lemma_run_last(fl, f);
    let k = lemma_file_page_found(fl, f, x);
    lemma_run_suffix(fl, run, f.first, f.end, k, x);
    assert(run.subrange(k, run.len() as int).last() == run.last());
    lemma_file_ok_of_run(fl, f1, run.subrange(k, run.len() as int));
    lemma_suffix_contents(fl, f, k, x);
    k
}

/// A writer is not concerned when bytes are dropped from the front of its file, as long as some
/// remain.
pub proof fn lemma_writer_first(st: Store, st1: Store, w: WriterModel)
    requires
        sound(st),
        sound(st1),
        writer_ok(st, w),
        st1.flash == st.flash,
        st.files[w.fid as int].last is Some,
        st1.files[w.fid as int] == (FileModel {
            first: st1.files[w.fid as int].first,
            ..st.files[w.fid as int]
        }),
        st.files[w.fid as int].first <= st1.files[w.fid as int].first,
        forall|p: int| #[trigger]
            writer_has(st, w, p) ==> st1.used[p] && p != st1.meta_page && !in_file(st1, p),
    ensures
        writer_ok(st1, w),
        writer_open(st, w) ==> writer_open(st1, w),
        written(st1, w) == written(st, w),
        forall|p: int| #[trigger] writer_has(st1, w, p) <==> writer_has(st, w, p),
{
    let fid = w.fid as int;
    let f = st.files[fid];
    let f1 = st1.files[fid];
    let x = f1.first;
    let g = target(st, w);
    let g1 = target(st1, w);
    let fl = st.flash;
    assert(file_ok(fl, f));
    assert(file_ok(fl, f1));
    lemma_run_last(fl, f1);
    lemma_run_last(fl, f);
    let run = pages_of(st, fid);
    let t = target_run(st, w);
    let n = run.len() as int;
    if g.last is None {
        lemma_empty_file(fl, g);
    }
    lemma_run_last(fl, g);
    lemma_prefix_contents(st, w);
    lemma_contents_len(fl, f);
    lemma_contents_len(fl, g);
    let k = lemma_later_first(fl, f, x);
    let j = lemma_later_first(fl, g, x);
    assert(j == k) by {
        assert(t.subrange(0, n)[k] == t[k]);
        if j < k {
            lemma_run_sorted(fl, t, g.first, g.end, j, k);
        }
        if k < j {
            lemma_run_sorted(fl, t, g.first, g.end, k, j);
        }
    }
    let run1 = pages_of(st1, fid);
    let t1 = target_run(st1, w);
    assert(g1 == FileModel { first: x, ..g });
    assert(t1.subrange(0, run1.len() as int) =~= run1) by {
        assert forall|i: int| 0 <= i < run1.len() implies t1.subrange(0, run1.len() as int)[i]
            == run1[i] by {
            assert(t.subrange(0, n)[i + k] == t[i + k]);
        }
    }
    assert forall|p: int| #[trigger] run_has(t1, p) implies run_has(t, p) by {
        let i = choose|i: int| 0 <= i < t1.len() && (#[trigger] t1[i]).page == p;
        assert(t[i + k].page == p);
    }
    assert forall|p: int| #[trigger] writer_has(st1, w, p) <==> writer_has(st, w, p) by {
        if run_has(t1, p) && !run_has(run1, p) {
            let i = choose|i: int| 0 <= i < t1.len() && (#[trigger] t1[i]).page == p;
            assert(t[i + k].page == p);
            if run_has(run, p) {
                let l = choose|l: int| 0 <= l < run.len() && (#[trigger] run[l]).page == p;
                assert(t.subrange(0, n)[l] == t[l]);
                lemma_run_distinct(fl, t, g.first, g.end, i + k, l);
                assert(run1[i].page == p);
            }
        }
        if run_has(t, p) && !run_has(run, p) {
            let i = choose|i: int| 0 <= i < t.len() && (#[trigger] t[i]).page == p;
            if i < n {
                assert(t.subrange(0, n)[i] == t[i]);
                assert(run[i].page == p);
            }
            assert(t1[i - k].page == p);
            if run_has(run1, p) {
                let l = choose|l: int| 0 <= l < run1.len() && (#[trigger] run1[l]).page == p;
                assert(run[l + k].page == p);
            }
        }
    }
    let d = x - f.first;
    let c = contents(fl, g);
    let m = file_bytes(st, fid).len() as int;
    lemma_contents_len(fl, f1);
    assert(c.skip(d).skip(m - d) =~= c.skip(m));
    assert(written(st1, w) =~= written(st, w));
}

} // verus!
