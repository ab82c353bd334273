//! Walks from page to page along the back pointers, on a device that may hold anything.

use vstd::prelude::*;

use crate::chain::chain;
use crate::config::{FILE_COUNT, PAGE_COUNT, SKIPLIST_LEN};
use crate::headers::data_header;
use crate::seqnum::{lemma_skip_index, skip_index, skip_target};
use crate::sound::run_has;
use crate::store::{
    chain_rank, empty_file, file_page, find_page, free_chain, jump, lemma_file_page, step_back,
    truncate_one, FileModel, Ptr, Store,
};
use crate::types::NO_PAGE;
use crate::writer::{discarded, WriterModel};
use crate::Error;

verus! {

/// Whether back pointer `j` of a page leads to a page: the device has that page, it is a data
/// page, and it starts earlier.
pub open spec fn leads_to(fl: Seq<Seq<u8>>, pp: Ptr, j: int, q: Ptr) -> bool {
    &&& pp.header.skiplist[j] == q.page
    &&& q.page < PAGE_COUNT
    &&& data_header(fl[q.page as int]) == Some(q.header)
    &&& q.header.seq < pp.header.seq
}

/// Whether a walk back to `limit` ends at a page: the page reaches back to `limit`, or it is the
/// first one there is.
pub open spec fn ends_at(pp: Ptr, limit: u32) -> bool {
    pp.header.seq <= limit || pp.header.skiplist[0] == NO_PAGE
}

/// Whether back pointer `j` of a page leads nowhere.
pub open spec fn broken_at(fl: Seq<Seq<u8>>, pp: Ptr, j: int) -> bool {
    pp.header.skiplist[j] == NO_PAGE || forall|q: Ptr| !#[trigger] leads_to(fl, pp, j, q)
}

/// Whether each page of a run leads back to the one before it, and only the first one may reach
/// back to `limit`.
pub open spec fn linked(fl: Seq<Seq<u8>>, run: Seq<Ptr>, limit: u32) -> bool {
    &&& run.len() > 0
    &&& forall|i: int|
        #![trigger run[i]]
        0 < i < run.len() ==> run[i].header.seq > limit && leads_to(fl, run[i], 0, run[i - 1])
}

/// The page before a page is the one that its first back pointer leads to. There is none if the
/// page reaches back to `limit` or is the first one. A pointer that leads nowhere is an error.
pub proof fn law_prev(fl: Seq<Seq<u8>>, pp: Ptr, limit: u32, q: Ptr)
    ensures
        ends_at(pp, limit) ==> step_back(fl, pp, limit) == Ok::<Option<Ptr>, Error>(None),
        !ends_at(pp, limit) && leads_to(fl, pp, 0, q) ==> step_back(fl, pp, limit) == Ok::<
            Option<Ptr>,
            Error,
        >(Some(q)),
        !ends_at(pp, limit) && broken_at(fl, pp, 0) ==> step_back(fl, pp, limit) == Err::<
            Option<Ptr>,
            Error,
        >(Error::Corrupted),
{
    if !ends_at(pp, limit) && broken_at(fl, pp, 0) {
        if let Ok(Some(x)) = step_back(fl, pp, limit) {
            assert(leads_to(fl, pp, 0, x));
        }
    }
}

/// A search for a sequence number stays on a page that starts at or before it. Otherwise it takes
/// the back pointer that leads furthest without passing the sequence number, and goes on from
/// there. A pointer that leads nowhere is an error.
pub proof fn law_find_step(fl: Seq<Seq<u8>>, pp: Ptr, seq: u32, j: int, q: Ptr)
    ensures
        pp.header.seq <= seq ==> find_page(fl, pp, seq) == Ok::<Ptr, Error>(pp),
        pp.header.seq > seq && 0 <= j < SKIPLIST_LEN && skip_target(pp.header.seq, j) >= seq && (
        forall|i: int| j < i < SKIPLIST_LEN ==> #[trigger] skip_target(pp.header.seq, i) < seq) ==> {
            &&& leads_to(fl, pp, j, q) && q.page != NO_PAGE ==> find_page(fl, pp, seq) == find_page(
                fl,
                q,
                seq,
            )
            &&& broken_at(fl, pp, j) ==> find_page(fl, pp, seq) == Err::<Ptr, Error>(
                Error::Corrupted,
            )
        },
{
    if pp.header.seq > seq {
        lemma_skip_index(seq, pp.header.seq);
        let k = skip_index(seq, pp.header.seq);
        if 0 <= j < SKIPLIST_LEN && skip_target(pp.header.seq, j) >= seq && (forall|i: int|
            j < i < SKIPLIST_LEN ==> #[trigger] skip_target(pp.header.seq, i) < seq) {
            assert(skip_target(pp.header.seq, k) >= seq);
            assert(k == j);
            if broken_at(fl, pp, j) {
                if let Ok(Some(x)) = jump(fl, pp, j) {
                    assert(leads_to(fl, pp, j, x));
                }
            }
        }
    }
}

/// The page of a file where a byte is looked for: none if the file does not have that byte,
/// whatever the device holds, and otherwise where the search from the last page ends.
pub proof fn law_file_page(fl: Seq<Seq<u8>>, f: FileModel, seq: u32)
    ensures
        f.last is None || seq < f.first || seq >= f.end ==> file_page(fl, f, seq) == Ok::<
            Option<Ptr>,
            Error,
        >(None),
        f.last is Some && f.first <= seq < f.end ==> match find_page(fl, f.last->0, seq) {
            Ok(pp) => file_page(fl, f, seq) == Ok::<Option<Ptr>, Error>(Some(pp)),
            Err(_) => file_page(fl, f, seq) == Err::<Option<Ptr>, Error>(Error::Corrupted),
        },
{
}

/// A walk back goes through the pages of a run exactly if each one leads back to the one before
/// it, and the walk ends at the first one.
pub proof fn law_walk(fl: Seq<Seq<u8>>, run: Seq<Ptr>, limit: u32)
    requires
        run.len() > 0,
    ensures
        chain(fl, Some(run.last()), limit) == Some(run) <==> linked(fl, run, limit) && ends_at(
            run[0],
            limit,
        ),
    decreases run.len(),
{
    let pp = run.last();
    let d = run.drop_last();
    assert(run =~= d.push(pp));
    if run.len() == 1 {
        law_prev(fl, pp, limit, pp);
        assert(d =~= Seq::empty());
        if chain(fl, Some(pp), limit) == Some(run) {
            let q = step_back(fl, pp, limit)->Ok_0;
            assert(chain(fl, q, limit)->0.push(pp).drop_last() =~= chain(fl, q, limit)->0);
            if let Some(x) = q {
                let before = chain(fl, Some(x), limit)->0;
                assert(before == d);
                lemma_walk_last(fl, x, limit);
            }
        }
    } else {
        let q = d.last();
        law_walk(fl, d, limit);
        law_prev(fl, pp, limit, q);
        if chain(fl, Some(pp), limit) == Some(run) {
            let x = step_back(fl, pp, limit)->Ok_0;
            assert(chain(fl, x, limit)->0.push(pp).drop_last() =~= chain(fl, x, limit)->0);
            assert(chain(fl, x, limit) == Some(d));
            assert(x is Some);
            lemma_walk_last(fl, x->0, limit);
            assert(x->0 == q);
            assert forall|i: int| #![trigger run[i]] 0 < i < run.len() implies run[i].header.seq
                > limit && leads_to(fl, run[i], 0, run[i - 1]) by {
                if i < run.len() - 1 {
                    assert(d[i] == run[i] && d[i - 1] == run[i - 1]);
                }
            }
        }
        if linked(fl, run, limit) && ends_at(run[0], limit) {
            assert forall|i: int| #![trigger d[i]] 0 < i < d.len() implies d[i].header.seq > limit
                && leads_to(fl, d[i], 0, d[i - 1]) by {
                assert(d[i] == run[i] && d[i - 1] == run[i - 1]);
            }
            assert(leads_to(fl, run[run.len() - 1], 0, run[run.len() - 2]));
            assert(chain(fl, Some(q), limit) == Some(d));
            assert(step_back(fl, pp, limit) == Ok::<Option<Ptr>, Error>(Some(q)));
        }
    }
}

/// The last page of a walk back is the page that it starts from.
proof fn lemma_walk_last(fl: Seq<Seq<u8>>, pp: Ptr, limit: u32)
    ensures
        chain(fl, Some(pp), limit) matches Some(run) ==> run.len() > 0 && run.last() == pp,
{
}

/// The table of pages in use without the pages of a run.
pub open spec fn without(used: Seq<bool>, run: Seq<Ptr>) -> Seq<bool> {
    Seq::new(used.len(), |p: int| used[p] && !run_has(run, p))
}

/// Pages are freed on a walk back from the last page of a run: all pages of the run from page `k`
/// on, if page `k - 1` is the one to stop at, or all of them, if none of them is. The walk fails
/// if it comes to a page whose pointer leads nowhere, after that page has been freed.
pub proof fn law_free_between(
    fl: Seq<Seq<u8>>,
    used: Seq<bool>,
    run: Seq<Ptr>,
    to: Option<Ptr>,
    limit: u32,
    k: int,
)
    requires
        used.len() == PAGE_COUNT,
        linked(fl, run, limit),
        run.last().page < PAGE_COUNT,
        0 <= k <= run.len(),
        k > 0 ==> to is Some && to->0.page == run[k - 1].page,
        to is Some ==> forall|i: int| k <= i < run.len() ==> (#[trigger] run[i]).page
            != to->0.page,
    ensures
        ({
            let (used1, r) = free_chain(fl, used, Some(run.last()), to, limit);
            &&& k > 0 || ends_at(run[0], limit) ==> {
                &&& r == Ok::<(), Error>(())
                &&& used1 == without(used, run.subrange(k, run.len() as int))
            }
            &&& k == 0 && !ends_at(run[0], limit) && broken_at(fl, run[0], 0) ==> {
                &&& r == Err::<(), Error>(Error::Corrupted)
                &&& used1 == without(used, run)
            }
        }),
    decreases run.len(),
{
    let n = run.len() as int;
    let pp = run[n - 1];
    let tail = run.subrange(k, n);
    if k == n {
        assert forall|p: int| !run_has(tail, p) by {}
        assert(without(used, tail) =~= used);
    } else {
        let used2 = used.update(pp.page as int, false);
        assert(pp.page < PAGE_COUNT);
        if n == 1 {
            law_prev(fl, pp, limit, pp);
            assert(tail =~= run);
            assert(tail[0] == pp);
            assert forall|p: int| #[trigger] run_has(run, p) <==> p == pp.page by {
                assert(run[0].page == pp.page);
            }
            assert(without(used, run) =~= used2);
        } else {
            let d = run.drop_last();
            let q = run[n - 2];
            assert(leads_to(fl, run[n - 1], 0, run[n - 2]));
            assert(pp.header.seq > limit);
            law_prev(fl, pp, limit, q);
            assert(step_back(fl, pp, limit) == Ok::<Option<Ptr>, Error>(Some(q)));
            assert forall|i: int| #![trigger d[i]] 0 < i < d.len() implies d[i].header.seq > limit
                && leads_to(fl, d[i], 0, d[i - 1]) by {
                assert(d[i] == run[i] && d[i - 1] == run[i - 1]);
            }
            assert forall|i: int| k <= i < d.len() && to is Some implies (#[trigger] d[i]).page
                != to->0.page by {
                assert(d[i] == run[i]);
            }
            if k > 0 {
                assert(d[k - 1] == run[k - 1]);
            }
            law_free_between(fl, used2, d, to, limit, k);
            let t = d.subrange(k, n - 1);
            assert(tail =~= t.push(pp));
            lemma_without(used, t, pp);
            assert(run =~= d.push(pp));
            lemma_without(used, d, pp);
        }
    }
}

/// Freeing one more page.
proof fn lemma_without(used: Seq<bool>, run: Seq<Ptr>, pp: Ptr)
    requires
        pp.page < used.len(),
    ensures
        without(used.update(pp.page as int, false), run) == without(used, run.push(pp)),
{
    let b = run.push(pp);
    assert forall|p: int| #[trigger] run_has(b, p) <==> run_has(run, p) || p == pp.page by {
        if run_has(run, p) {
            let i = choose|i: int| 0 <= i < run.len() && (#[trigger] run[i]).page == p;
            assert(b[i].page == p);
        }
        if run_has(b, p) {
            let i = choose|i: int| 0 <= i < b.len() && (#[trigger] b[i]).page == p;
            if i < run.len() {
                assert(run[i].page == p);
            }
        }
        assert(b[run.len() as int].page == pp.page);
    }
    assert(without(used.update(pp.page as int, false), run) =~= without(used, b));
}

/// Discarding a writer that is filling a page gives back that page and the pages before it, up to
/// the last page of the file. A writer that is not filling a page gives back nothing.
pub proof fn law_discard_any(st: Store, w: WriterModel, run: Seq<Ptr>, k: int)
    requires
        st.wf(),
        w.shape(),
    ensures
        ({
            let (used, r) = discarded(st, w);
            let to = st.files[w.fid as int].last;
            &&& w.page is None ==> used == st.used && r == Ok::<(), Error>(())
            &&& w.page is Some && w.last is None ==> {
                &&& r == Ok::<(), Error>(())
                &&& used == st.used.update(w.page->0.page as int, false)
            }
            &&& w.page is Some && w.last is Some && linked(st.flash, run, 0) && run.last()
                == w.last->0 && 0 <= k <= run.len() && (if k > 0 {
                to is Some && to->0.page == run[k - 1].page
            } else {
                ends_at(run[0], 0)
            }) && (to is Some ==> forall|i: int|
                k <= i < run.len() ==> (#[trigger] run[i]).page != to->0.page) ==> {
                &&& r == Ok::<(), Error>(())
                &&& used == without(
                    st.used.update(w.page->0.page as int, false),
                    run.subrange(k, run.len() as int),
                )
            }
        }),
{
    let to = st.files[w.fid as int].last;
    if w.page is Some && w.last is Some && linked(st.flash, run, 0) && run.last() == w.last->0 && 0
        <= k <= run.len() && (if k > 0 {
        to is Some && to->0.page == run[k - 1].page
    } else {
        ends_at(run[0], 0)
    }) && (to is Some ==> forall|i: int|
        k <= i < run.len() ==> (#[trigger] run[i]).page != to->0.page) {
        law_free_between(
            st.flash,
            st.used.update(w.page->0.page as int, false),
            run,
            to,
            0,
            k,
        );
    }
}

/// No page is taken on a walk back that frees pages.
proof fn lemma_free_chain_used(
    fl: Seq<Seq<u8>>,
    used: Seq<bool>,
    from: Option<Ptr>,
    to: Option<Ptr>,
    limit: u32,
)
    requires
        used.len() == PAGE_COUNT,
        from matches Some(pp) ==> pp.page < PAGE_COUNT,
    ensures
        ({
            let used1 = free_chain(fl, used, from, to, limit).0;
            &&& used1.len() == used.len()
            &&& forall|p: int| 0 <= p < used.len() && #[trigger] used1[p] ==> used[p]
        }),
    decreases chain_rank(from),
{
    if let Some(pp) = from {
        let used2 = used.update(pp.page as int, false);
        if let Ok(Some(q)) = step_back(fl, pp, limit) {
            lemma_free_chain_used(fl, used2, Some(q), to, limit);
        }
    }
}

/// What truncating a file does, whatever the device holds. If it succeeds, the file starts that
/// many bytes later, or is empty if it has no more bytes than that. If it fails, no file has
/// changed. Nothing is written to the device, no other file changes, and no page is taken.
pub proof fn law_truncate_any(st: Store, fid: int, n: int)
    requires
        st.wf(),
        0 <= fid < FILE_COUNT,
        st.files[fid].first <= st.files[fid].end,
        0 <= n,
    ensures
        ({
            let f = st.files[fid];
            let (st1, r) = truncate_one(st, fid, n);
            &&& st1 == (Store { files: st1.files, used: st1.used, ..st })
            &&& forall|p: int| 0 <= p < PAGE_COUNT && #[trigger] st1.used[p] ==> st.used[p]
            &&& r is Err ==> st1.files == st.files
            &&& r is Ok ==> st1.files == st.files.update(
                fid,
                if n < f.end - f.first {
                    FileModel { first: (f.first + n) as u32, ..f }
                } else {
                    empty_file()
                },
            )
        }),
{
    let f = st.files[fid];
    let seq = if n < f.end - f.first {
        (f.first + n) as u32
    } else {
        f.end
    };
    if seq == f.end {
        lemma_free_chain_used(st.flash, st.used, f.last, None, f.first);
    } else if let Ok(Some(pp)) = file_page(st.flash, f, seq) {
        lemma_file_page(st.flash, f, seq);
        if let Ok(p) = step_back(st.flash, pp, f.first) {
            lemma_free_chain_used(st.flash, st.used, p, None, f.first);
        }
    }
}

/// Truncating all of a file gives back its pages, whatever is on them. It fails if they cannot be
/// walked through.
pub proof fn law_truncate_all(st: Store, fid: int, n: int, run: Seq<Ptr>)
    requires
        st.wf(),
        0 <= fid < FILE_COUNT,
        st.files[fid].first <= st.files[fid].end,
        n >= st.files[fid].end - st.files[fid].first,
        st.files[fid].last is Some,
        linked(st.flash, run, st.files[fid].first),
        run.last() == st.files[fid].last->0,
    ensures
        ({
            let (st1, r) = truncate_one(st, fid, n);
            &&& ends_at(run[0], st.files[fid].first) ==> {
                &&& r == Ok::<(), Error>(())
                &&& st1.used == without(st.used, run)
            }
            &&& !ends_at(run[0], st.files[fid].first) && broken_at(st.flash, run[0], 0) ==> r
                == Err::<(), Error>(Error::Corrupted)
        }),
{
    let f = st.files[fid];
    law_free_between(st.flash, st.used, run, None, f.first, 0);
    assert(run.subrange(0, run.len() as int) =~= run);
}

/// Truncating some of a file gives back the pages before the one with the first byte that is
/// left. It fails if that page cannot be found or the pages before it cannot be walked through.
pub proof fn law_truncate_front(st: Store, fid: int, n: int, pp: Ptr, run: Seq<Ptr>)
    requires
        st.wf(),
        0 <= fid < FILE_COUNT,
        0 <= n < st.files[fid].end - st.files[fid].first,
        st.files[fid].last is Some,
    ensures
        ({
            let f = st.files[fid];
            let found = find_page(st.flash, f.last->0, (f.first + n) as u32);
            let (st1, r) = truncate_one(st, fid, n);
            &&& found is Err ==> st1 == st && r == Err::<(), Error>(Error::Corrupted)
            &&& found == Ok::<Ptr, Error>(pp) && ends_at(pp, f.first) ==> st1.used == st.used && r
                == Ok::<(), Error>(())
            &&& found == Ok::<Ptr, Error>(pp) && !ends_at(pp, f.first) && broken_at(
                st.flash,
                pp,
                0,
            ) ==> st1 == st && r == Err::<(), Error>(Error::Corrupted)
            &&& found == Ok::<Ptr, Error>(pp) && !ends_at(pp, f.first) && linked(
                st.flash,
                run,
                f.first,
            ) && leads_to(st.flash, pp, 0, run.last()) && ends_at(run[0], f.first) ==> st1.used
                == without(st.used, run) && r == Ok::<(), Error>(())
        }),
{
    let f = st.files[fid];
    law_prev(st.flash, pp, f.first, run.last());
    if linked(st.flash, run, f.first) && leads_to(st.flash, pp, 0, run.last()) {
        law_free_between(st.flash, st.used, run, None, f.first, 0);
        assert(run.subrange(0, run.len() as int) =~= run);
    }
}

} // verus!
