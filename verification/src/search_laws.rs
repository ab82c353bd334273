//! What a search through a well-formed file does.

use vstd::prelude::*;

use crate::chain::{
    file_ok, file_run, lemma_run_distinct, lemma_run_last, lemma_run_page, lemma_run_sorted,
    lemma_run_start, lemma_run_step, page_end, page_ok, payload, run_holds, run_ok, skip_ok,
};
use crate::config::{PAGE_COUNT, SKIPLIST_LEN};
use crate::headers::{data_header, NO_BOUNDARY};
use crate::read_laws::{on_page, reader_at};
use crate::reader::ReaderModel;
use crate::searcher::{
    first_pointer, from_end, narrowed, ready_to_search, search, search_from, search_ready,
    seek_page, seek_page_ready, start_ready, start_search, try_pointer, walk_back, worth_trying,
    SearchModel, SeekDirection, WalkEnd, WALK_LIMIT,
};
use crate::seqnum::{
    lemma_skip_index, lemma_skip_target, lemma_skip_target_same, skip_block, skip_target,
};
use crate::store::{FileModel, Ptr};
use crate::types::NO_PAGE;
use crate::writer::next_skiplist;
use crate::Error;

verus! {

/// Whether a record boundary lies on a page.
pub open spec fn has_boundary(pp: Ptr) -> bool {
    pp.header.record_boundary != NO_BOUNDARY
}

/// Whether page `i` of a run starts at or after `from` and before `to`, and a record boundary lies
/// on it.
pub open spec fn bound_page(run: Seq<Ptr>, i: int, from: int, to: int) -> bool {
    0 <= i < run.len() && has_boundary(run[i]) && from <= run[i].header.seq < to
}

/// Whether there is such a page.
pub open spec fn bound_page_in(run: Seq<Ptr>, from: int, to: int) -> bool {
    exists|i: int| #[trigger] bound_page(run, i, from, to)
}

/// Whether a file can be searched: a record boundary lies on one of the pages that start within
/// it, the record boundaries of its pages lie on them, and a walk back through it does not go on
/// past its first page.
pub open spec fn searchable(fl: Seq<Seq<u8>>, f: FileModel) -> bool {
    let run = file_run(fl, f);
    &&& file_ok(fl, f)
    &&& f.last is Some
    &&& bound_page_in(run, f.first as int, f.end as int)
    &&& run[0].header.seq == f.first || run[0].header.skiplist[0] == NO_PAGE ==> has_boundary(
        run[0],
    )
    &&& forall|i: int|
        0 <= i < run.len() && has_boundary(#[trigger] run[i]) ==> run[i].header.record_boundary
            < payload(fl, run[i]).len()
}

/// Whether a search that has not been sent to the right yet, and is sent to the left, has
/// something to find there. Otherwise it has nowhere to go back to.
pub open spec fn more_on_left(fl: Seq<Seq<u8>>, f: FileModel, s: SearchModel) -> bool {
    s.left_page != NO_PAGE || bound_page_in(file_run(fl, f), s.left as int, s.curr_low as int)
}

/// A run has no more pages than the device.
pub proof fn lemma_run_len(fl: Seq<Seq<u8>>, run: Seq<Ptr>, first: u32, end: u32)
    requires
        run_ok(fl, run, first, end),
    ensures
        run.len() <= PAGE_COUNT,
{
    let pages = run.map_values(|pp: Ptr| pp.page as int);
    assert(pages.no_duplicates()) by {
        assert forall|i: int, j: int|
            0 <= i < pages.len() && 0 <= j < pages.len() && i != j implies pages[i] != pages[j] by {
            if pages[i] == pages[j] {
                lemma_run_distinct(fl, run, first, end, i, j);
            }
        }
    }
    pages.unique_seq_to_set();
    let all = vstd::set_lib::set_int_range(0, PAGE_COUNT as int);
    vstd::set_lib::lemma_int_range(0, PAGE_COUNT as int);
    assert(pages.to_set().subset_of(all)) by {
        assert forall|p: int| pages.to_set().contains(p) implies all.contains(p) by {
            let i = choose|i: int| 0 <= i < pages.len() && pages[i] == p;
            assert(page_ok(fl, run[i]));
        }
    }
    vstd::set_lib::lemma_len_subset(pages.to_set(), all);
}

/// Where a walk back from page `k` ends: at the first page on the way that has a record boundary,
/// or that starts before the limit.
pub proof fn lemma_walk(
    fl: Seq<Seq<u8>>,
    f: FileModel,
    left_page: u16,
    k: int,
    limit: Option<u32>,
    fuel: int,
) -> (c: int)
    requires
        searchable(fl, f),
        0 <= k < file_run(fl, f).len(),
        k < fuel,
        limit is Some && limit->0 >= f.first || has_boundary(file_run(fl, f)[k]),
    ensures
        ({
            let run = file_run(fl, f);
            let low = limit is Some && run[c].header.seq < limit->0;
            &&& 0 <= c <= k
            &&& forall|i: int|
                c < i <= k ==> !has_boundary(#[trigger] run[i]) && (limit is Some
                    ==> run[i].header.seq >= limit->0)
            &&& low || has_boundary(run[c])
            &&& walk_back(fl, left_page, run[k].page, limit, fuel) == Some(
                (
                    if c == 0 && run[0].header.skiplist[0] == NO_PAGE {
                        run[0].page
                    } else {
                        left_page
                    },
                    if low {
                        WalkEnd::TooMuchLeft
                    } else {
                        WalkEnd::Found { page: run[c].page, header: run[c].header }
                    },
                ),
            )
        }),
    decreases k,
{
    let run = file_run(fl, f);
    lemma_run_page(fl, f, k);
    lemma_run_last(fl, f);
    assert(page_ok(fl, run[k]));
    if k > 0 {
        lemma_run_sorted(fl, run, f.first, f.end, 0, k);
        lemma_prev(fl, run, f.first, f.end, k);
    }
    if (limit is Some && run[k].header.seq < limit->0) || has_boundary(run[k]) {
        k
    } else {
        lemma_walk(fl, f, left_page, k - 1, limit, fuel - 1)
    }
}

/// Back pointer 0 leads to the page before.
proof fn lemma_prev(fl: Seq<Seq<u8>>, run: Seq<Ptr>, first: u32, end: u32, k: int)
    requires
        run_ok(fl, run, first, end),
        0 < k < run.len(),
    ensures
        run[k].header.skiplist[0] == run[k - 1].page,
        run[k - 1].page < PAGE_COUNT,
{
    lemma_run_sorted(fl, run, first, end, 0, k);
    lemma_run_step(fl, run, first, end, k, first);
    assert(page_ok(fl, run[k - 1]));
}

/// Where page `r` of a file starts, or the file ends.
pub open spec fn start_of(run: Seq<Ptr>, f: FileModel, r: int) -> u32 {
    if r < run.len() {
        run[r].header.seq
    } else {
        f.end
    }
}

/// Whether a page of a run holds the byte with sequence number `x`.
pub open spec fn page_holds(fl: Seq<Seq<u8>>, pp: Ptr, x: int) -> bool {
    pp.header.seq <= x < page_end(fl, pp)
}

/// Whether a page is the one among the first `r` of a run that holds a byte.
pub open spec fn holder(fl: Seq<Seq<u8>>, run: Seq<Ptr>, r: int, x: int, page: u16) -> bool {
    exists|k: int| 0 <= k < r && #[trigger] page_holds(fl, run[k], x) && run[k].page == page
}

/// Whether back pointers are the ones that lead back from the start of page `r`.
pub open spec fn leads_back(fl: Seq<Seq<u8>>, f: FileModel, r: int, list: Seq<u16>) -> bool {
    let run = file_run(fl, f);
    let right = start_of(run, f, r);
    &&& list.len() == SKIPLIST_LEN
    &&& forall|j: int|
        #![trigger list[j]]
        0 <= j < SKIPLIST_LEN && right > f.first && skip_target(right, j) >= f.first ==> holder(
            fl,
            run,
            r,
            skip_target(right, j),
            list[j],
        )
}

/// Whether page `l` is the left end of a search: a record starts on it, and on no other page
/// behind it that starts before `left`.
pub open spec fn left_end(fl: Seq<Seq<u8>>, f: FileModel, s: SearchModel, l: int) -> bool {
    let run = file_run(fl, f);
    &&& 0 <= l < run.len()
    &&& (#[trigger] run[l]).page == s.left_page
    &&& has_boundary(run[l])
    &&& run[l].header.seq <= s.left
    &&& forall|i: int|
        l < i < run.len() && (#[trigger] run[i]).header.seq < s.left ==> !has_boundary(run[i])
}

/// Whether page `r`, or the end of the file, is the right end of a search.
pub open spec fn right_end(fl: Seq<Seq<u8>>, f: FileModel, s: SearchModel, r: int) -> bool {
    &&& 0 <= r <= file_run(fl, f).len()
    &&& s.right == #[trigger] start_of(file_run(fl, f), f, r)
    &&& leads_back(fl, f, r, s.right_skiplist)
}

/// What holds of a search between steps.
pub open spec fn searching(fl: Seq<Seq<u8>>, f: FileModel, s: SearchModel) -> bool {
    &&& f.first <= s.left <= s.right <= f.end
    &&& exists|r: int| right_end(fl, f, s, r)
    &&& if s.left_page == NO_PAGE {
        &&& !bound_page_in(file_run(fl, f), f.first as int, s.left as int)
        &&& bound_page_in(file_run(fl, f), s.left as int, s.right as int)
    } else {
        exists|l: int| left_end(fl, f, s, l)
    }
}

/// The offset of the first record boundary on the page that a search is at.
pub open spec fn curr_boundary(fl: Seq<Seq<u8>>, s: SearchModel) -> u16 {
    data_header(fl[s.curr_page as int])->0.record_boundary
}

/// The sequence number of that record boundary.
pub open spec fn curr_record(fl: Seq<Seq<u8>>, s: SearchModel) -> int {
    s.curr_low + curr_boundary(fl, s)
}

/// Whether the reader of a search is at the record that the search is at.
pub open spec fn at_record(fl: Seq<Seq<u8>>, s: SearchModel) -> bool {
    s.reader == ReaderModel::Reading {
        seq: curr_record(fl, s) as u32,
        page: s.curr_page,
        pos: curr_boundary(fl, s) as int,
    }
}

/// Whether a search is at page `c`, on which a record boundary lies. Its reader may be anywhere.
pub open spec fn standing_on(fl: Seq<Seq<u8>>, f: FileModel, s: SearchModel, c: int) -> bool {
    let run = file_run(fl, f);
    &&& 0 <= c < run.len()
    &&& (#[trigger] run[c]).page == s.curr_page
    &&& has_boundary(run[c])
    &&& s.curr_low == run[c].header.seq
    &&& s.curr_skiplist == run[c].header.skiplist
}

/// Whether a search is at page `c`, and its reader at the first record boundary on that page.
pub open spec fn at_page(fl: Seq<Seq<u8>>, f: FileModel, s: SearchModel, c: int) -> bool {
    standing_on(fl, f, s, c) && at_record(fl, s)
}

/// Whether a search is at a page within its range, and no other page up to `curr_high` has a
/// record boundary. Its reader may be anywhere: the caller may have read the record.
pub open spec fn resting(fl: Seq<Seq<u8>>, f: FileModel, s: SearchModel) -> bool {
    let run = file_run(fl, f);
    &&& searching(fl, f, s)
    &&& s.left <= s.curr_low <= s.curr_high < s.right
    &&& run[0].header.seq == s.curr_low && run[0].header.skiplist[0] == NO_PAGE ==> s.left_page
        != NO_PAGE
    &&& exists|c: int|
        standing_on(fl, f, s, c) && forall|i: int|
            c < i < run.len() && (#[trigger] run[i]).header.seq <= s.curr_high ==> !has_boundary(
                run[i],
            )
}

/// Whether a search has just found a page within its range: the reader is at the first record
/// boundary on that page.
pub open spec fn found(fl: Seq<Seq<u8>>, f: FileModel, s: SearchModel) -> bool {
    resting(fl, f, s) && at_record(fl, s)
}

/// Whether a search has come to its end: the reader is on the page at the left end, and no record
/// boundary lies on a page between there and the right end.
pub open spec fn ended(fl: Seq<Seq<u8>>, f: FileModel, s: SearchModel) -> bool {
    let run = file_run(fl, f);
    &&& searching(fl, f, s)
    &&& s.left_page != NO_PAGE
    &&& s.curr_page == s.left_page
    &&& exists|c: int|
        at_page(fl, f, s, c) && forall|i: int|
            c < i < run.len() && (#[trigger] run[i]).header.seq < s.right ==> !has_boundary(run[i])
}

/// What comes of a step of a search: it has found a page, or come to its end.
pub open spec fn searched(
    fl: Seq<Seq<u8>>,
    f: FileModel,
    s: SearchModel,
    r: Result<bool, Error>,
) -> bool {
    match r {
        Ok(true) => found(fl, f, s),
        Ok(false) => ended(fl, f, s),
        Err(_) => false,
    }
}

/// The back pointers of a page lead back from its start.
proof fn lemma_leads_back_page(fl: Seq<Seq<u8>>, f: FileModel, r: int)
    requires
        file_ok(fl, f),
        f.last is Some,
        0 <= r < file_run(fl, f).len(),
    ensures
        leads_back(fl, f, r, file_run(fl, f)[r].header.skiplist),
{
    let run = file_run(fl, f);
    lemma_run_last(fl, f);
    lemma_run_page(fl, f, r);
    let right = run[r].header.seq;
    let list = run[r].header.skiplist;
    assert forall|j: int|
        #![trigger list[j]]
        0 <= j < SKIPLIST_LEN && right > f.first && skip_target(right, j) >= f.first implies holder(
        fl,
        run,
        r,
        skip_target(right, j),
        list[j],
    ) by {
        let t = skip_target(right, j);
        assert(skip_ok(run, r, j));
        let k = choose|k: int|
            0 <= k < r && #[trigger] run_holds(run, k, t) && run[r].header.skiplist[j]
                == run[k].page;
        assert(page_end(fl, run[k]) == run[k + 1].header.seq);
        assert(page_holds(fl, run[k], t));
    }
}

/// The back pointers that the next page of a file would have lead back from its end.
proof fn lemma_leads_back_end(fl: Seq<Seq<u8>>, f: FileModel)
    requires
        file_ok(fl, f),
        f.last is Some,
    ensures
        leads_back(fl, f, file_run(fl, f).len() as int, next_skiplist(f.last, f.end)),
{
    let run = file_run(fl, f);
    lemma_run_last(fl, f);
    let n = run.len() as int;
    let pp = f.last->0;
    let right = f.end;
    let list = next_skiplist(f.last, f.end);
    lemma_leads_back_page(fl, f, n - 1);
    assert(run[n - 1] == pp);
    assert forall|j: int|
        #![trigger list[j]]
        0 <= j < SKIPLIST_LEN && right > f.first && skip_target(right, j) >= f.first implies holder(
        fl,
        run,
        n,
        skip_target(right, j),
        list[j],
    ) by {
        let t = skip_target(right, j);
        lemma_skip_target(right, j);
        if t >= pp.header.seq {
            assert(page_holds(fl, run[n - 1], t));
        } else {
            lemma_skip_target_same(pp.header.seq, right, j);
            assert(pp.header.skiplist[j] == list[j]);
            assert(holder(fl, run, n - 1, t, pp.header.skiplist[j]));
            let k = choose|k: int|
                0 <= k < n - 1 && #[trigger] page_holds(fl, run[k], t) && run[k].page
                    == pp.header.skiplist[j];
            assert(page_holds(fl, run[k], t));
        }
    }
}

/// A page of a run that holds a byte comes before every page that starts behind the byte.
pub proof fn lemma_holder_order(fl: Seq<Seq<u8>>, f: FileModel, k: int, x: int, i: int)
    requires
        file_ok(fl, f),
        f.last is Some,
        0 <= k < file_run(fl, f).len(),
        0 <= i < file_run(fl, f).len(),
        page_holds(fl, file_run(fl, f)[k], x),
    ensures
        i <= k <==> file_run(fl, f)[i].header.seq <= x,
{
    let run = file_run(fl, f);
    lemma_run_last(fl, f);
    if i < k {
        lemma_run_sorted(fl, run, f.first, f.end, i, k);
    }
    if k < i {
        lemma_run_sorted(fl, run, f.first, f.end, k, i);
    }
}

/// Which end a search keeps on which side of a goal: the page at the left end is the first one or
/// starts at or before the goal, and the right end is the end of the file or lies behind the goal.
pub open spec fn brackets(fl: Seq<Seq<u8>>, f: FileModel, s: SearchModel, goal: int) -> bool {
    let run = file_run(fl, f);
    &&& forall|l: int|
        0 <= l < run.len() && (#[trigger] run[l]).page == s.left_page ==> l == 0
            || run[l].header.seq <= goal
    &&& s.right == f.end || s.right > goal
}

/// What stays when a search moves: the right end stays where it is, the left end does not move
/// back, and both stay on their sides of every goal.
pub open spec fn moved_on(fl: Seq<Seq<u8>>, f: FileModel, s: SearchModel, s1: SearchModel) -> bool {
    &&& s1.right == s.right
    &&& s1.right_skiplist == s.right_skiplist
    &&& s1.left >= s.left
    &&& forall|goal: int| #[trigger] brackets(fl, f, s, goal) ==> brackets(fl, f, s1, goal)
}

/// Setting the left end to the first page, or leaving it, keeps it on its side of every goal.
proof fn lemma_moved_on(fl: Seq<Seq<u8>>, f: FileModel, s: SearchModel, s1: SearchModel)
    requires
        file_ok(fl, f),
        f.last is Some,
        s1.right == s.right,
        s1.right_skiplist == s.right_skiplist,
        s1.left >= s.left,
        s1.left_page == s.left_page || s1.left_page == file_run(fl, f)[0].page,
    ensures
        moved_on(fl, f, s, s1),
{
    let run = file_run(fl, f);
    lemma_run_last(fl, f);
    assert forall|goal: int| #[trigger] brackets(fl, f, s, goal) implies brackets(
        fl,
        f,
        s1,
        goal,
    ) by {
        assert forall|l: int|
            0 <= l < run.len() && (#[trigger] run[l]).page == s1.left_page implies l == 0
            || run[l].header.seq <= goal by {
            if s1.left_page == run[0].page {
                lemma_run_distinct(fl, run, f.first, f.end, 0, l);
            }
        }
    }
}

/// Trying a back pointer either finds a page, or shows that nothing is to be found up to the byte
/// that the pointer leads to.
pub proof fn lemma_try(fl: Seq<Seq<u8>>, f: FileModel, s: SearchModel, i: int)
    requires
        searchable(fl, f),
        searching(fl, f, s),
        0 <= i < SKIPLIST_LEN,
    ensures
        worth_trying(s, i) ==> seek_page_ready(fl, s.left_page, s.right_skiplist[i], Some(s.left)),
        ({
            let (s1, r) = try_pointer(fl, s, i);
            &&& moved_on(fl, f, s, s1)
            &&& match r {
                Some(x) => {
                    &&& x == Ok::<bool, Error>(true)
                    &&& found(fl, f, s1)
                    &&& bound_page_in(file_run(fl, f), s.left as int, s.right as int)
                },
                None => {
                    &&& searching(fl, f, s1)
                    &&& file_run(fl, f)[0].header.seq >= s.left ==> s1 == s
                    &&& worth_trying(s, i) ==> s1.left == skip_target(s.right, i) + 1
                    &&& bound_page_in(file_run(fl, f), s.left as int, s.right as int)
                        ==> bound_page_in(file_run(fl, f), s1.left as int, s1.right as int)
                },
            }
        }),
{
    let run = file_run(fl, f);
    let (s1, res) = try_pointer(fl, s, i);
    lemma_run_last(fl, f);
    if worth_trying(s, i) {
        let t = skip_target(s.right, i);
        let r = choose|r: int| right_end(fl, f, s, r);
        lemma_skip_target(s.right, i);
        assert(holder(fl, run, r, t, s.right_skiplist[i]));
        let k = choose|k: int|
            0 <= k < r && #[trigger] page_holds(fl, run[k], t) && run[k].page
                == s.right_skiplist[i];
        lemma_run_len(fl, run, f.first, f.end);
        let c = lemma_walk(fl, f, s.left_page, k, Some(s.left), WALK_LIMIT as int);
        lemma_run_page(fl, f, c);
        assert(page_ok(fl, run[0]));
        if c < k {
            lemma_run_sorted(fl, run, f.first, f.end, c, k);
        }
        if c > 0 {
            lemma_run_sorted(fl, run, f.first, f.end, 0, c);
        }
        assert forall|j: int| c < j < run.len() && (#[trigger] run[j]).header.seq <= t implies
            !has_boundary(run[j]) && run[j].header.seq >= s.left by {
            lemma_holder_order(fl, f, k, t, j);
        }
        lemma_moved_on(fl, f, s, s1);
        assert(right_end(fl, f, s1, r));
        let set = c == 0 && run[0].header.skiplist[0] == NO_PAGE;
        if run[c].header.seq < s.left {
            assert forall|j: int| #[trigger]
                bound_page(run, j, s.left as int, s.right as int) implies bound_page(
                run,
                j,
                s1.left as int,
                s1.right as int,
            ) by {
                if j < c {
                    lemma_run_sorted(fl, run, f.first, f.end, j, c);
                }
            }
            if set {
                assert(left_end(fl, f, s1, 0));
            } else if s.left_page != NO_PAGE {
                let l = choose|l: int| left_end(fl, f, s, l);
                assert(left_end(fl, f, s1, l)) by {
                    assert forall|j: int|
                        l < j < run.len() && (#[trigger] run[j]).header.seq < s1.left implies
                        !has_boundary(run[j]) by {
                        if j <= c {
                            if j < c {
                                lemma_run_sorted(fl, run, f.first, f.end, j, c);
                            }
                            assert(run[j].header.seq < s.left);
                        }
                    }
                }
            } else {
                assert forall|j: int| bound_page(run, j, f.first as int, s1.left as int) implies
                    false by {
                    if j <= c {
                        if j < c {
                            lemma_run_sorted(fl, run, f.first, f.end, j, c);
                        }
                        assert(bound_page(run, j, f.first as int, s.left as int));
                    }
                }
                let j = choose|j: int| #[trigger]
                    bound_page(run, j, s.left as int, s.right as int);
                assert(!bound_page(run, j, f.first as int, s1.left as int));
                assert(bound_page(run, j, s1.left as int, s1.right as int));
            }
        } else {
            assert(at_page(fl, f, s1, c));
            assert(bound_page(run, c, s.left as int, s.right as int));
            if set {
                assert(left_end(fl, f, s1, 0)) by {
                    assert forall|j: int|
                        0 < j < run.len() && (#[trigger] run[j]).header.seq < s1.left implies
                        !has_boundary(run[j]) by {
                        lemma_run_sorted(fl, run, f.first, f.end, 0, j);
                    }
                }
            } else if s.left_page != NO_PAGE {
                let l = choose|l: int| left_end(fl, f, s, l);
                assert(left_end(fl, f, s1, l));
            }
        }
    } else {
        lemma_moved_on(fl, f, s, s1);
    }
}

/// A search finds a page within its range, or comes to its end; it does not fail.
pub proof fn lemma_search(fl: Seq<Seq<u8>>, f: FileModel, s: SearchModel, i: int)
    requires
        searchable(fl, f),
        searching(fl, f, s),
        0 <= i < SKIPLIST_LEN,
    ensures
        search_ready(fl, s, i),
        ({
            let (s1, r) = search_from(fl, s, i);
            &&& moved_on(fl, f, s, s1)
            &&& searched(fl, f, s1, r)
        }),
    decreases i,
{
    let run = file_run(fl, f);
    lemma_run_last(fl, f);
    lemma_try(fl, f, s, i);
    let (s1, r1) = try_pointer(fl, s, i);
    if r1 is None {
        if i > 0 {
            lemma_search(fl, f, s1, i - 1);
        } else {
            let (s2, r2) = search_from(fl, s, 0);
            if s.left < s.right {
                lemma_pointer_0(fl, f, s);
            }
            assert(s1.left == s1.right);
            let l = choose|l: int| left_end(fl, f, s1, l);
            lemma_run_len(fl, run, f.first, f.end);
            lemma_run_page(fl, f, l);
            let c = lemma_walk(fl, f, s1.left_page, l, None, WALK_LIMIT as int);
            assert(c == l);
            lemma_moved_on(fl, f, s1, s2);
            let r = choose|r: int| right_end(fl, f, s1, r);
            assert(right_end(fl, f, s2, r));
            assert(left_end(fl, f, s2, l));
            assert(at_page(fl, f, s2, l));
            assert(moved_on(fl, f, s, s2));
        }
    }
}

/// A search finds a page exactly if a record boundary lies on one that starts in its range.
proof fn lemma_search_finds(fl: Seq<Seq<u8>>, f: FileModel, s: SearchModel, i: int)
    requires
        searchable(fl, f),
        searching(fl, f, s),
        0 <= i < SKIPLIST_LEN,
    ensures
        search_from(fl, s, i).1 == Ok::<bool, Error>(
            bound_page_in(file_run(fl, f), s.left as int, s.right as int),
        ),
    decreases i,
{
    let run = file_run(fl, f);
    lemma_try(fl, f, s, i);
    let (s1, r1) = try_pointer(fl, s, i);
    if r1 is None {
        if bound_page_in(run, s1.left as int, s1.right as int) {
            let j = choose|j: int| #[trigger]
                bound_page(run, j, s1.left as int, s1.right as int);
            assert(bound_page(run, j, s.left as int, s.right as int));
        }
        if i > 0 {
            lemma_search_finds(fl, f, s1, i - 1);
        } else {
            if s.left < s.right {
                lemma_pointer_0(fl, f, s);
            }
            lemma_search(fl, f, s, 0);
        }
    }
}

/// A search that has no page before its range leaves the left end of the range where it is.
proof fn lemma_left_stays(fl: Seq<Seq<u8>>, f: FileModel, s: SearchModel, i: int)
    requires
        searchable(fl, f),
        searching(fl, f, s),
        file_run(fl, f)[0].header.seq >= s.left,
        0 <= i < SKIPLIST_LEN,
    ensures
        search_from(fl, s, i).0.left == s.left,
    decreases i,
{
    lemma_try(fl, f, s, i);
    if try_pointer(fl, s, i).1 is None && i > 0 {
        lemma_left_stays(fl, f, s, i - 1);
    }
}

/// Back pointer 0 is worth trying as long as there is a range.
pub proof fn lemma_pointer_0(fl: Seq<Seq<u8>>, f: FileModel, s: SearchModel)
    requires
        searchable(fl, f),
        searching(fl, f, s),
        s.left < s.right,
    ensures
        worth_trying(s, 0),
        skip_target(s.right, 0) == s.right - 1,
{
    let run = file_run(fl, f);
    lemma_run_last(fl, f);
    let r = choose|r: int| right_end(fl, f, s, r);
    assert(skip_block(0) == 1);
    assert(skip_target(s.right, 0) == s.right - 1);
    assert(holder(fl, run, r, s.right - 1, s.right_skiplist[0]));
    let k = choose|k: int|
        0 <= k < r && #[trigger] page_holds(fl, run[k], s.right - 1) && run[k].page
            == s.right_skiplist[0];
    assert(page_ok(fl, run[k]));
}

/// Whether a search that was sent to a side is now at a page and a record on that side.
pub open spec fn on_side(
    fl: Seq<Seq<u8>>,
    s: SearchModel,
    s1: SearchModel,
    dir: SeekDirection,
) -> bool {
    match dir {
        SeekDirection::Left => s1.curr_low < s.curr_low && curr_record(fl, s1) < curr_record(fl, s),
        SeekDirection::Right => s1.curr_low > s.curr_low && curr_record(fl, s1) > curr_record(
            fl,
            s,
        ),
    }
}

/// Records on different pages are in the order of the pages.
proof fn lemma_record_order(
    fl: Seq<Seq<u8>>,
    f: FileModel,
    s: SearchModel,
    s1: SearchModel,
    c: int,
    c1: int,
)
    requires
        searchable(fl, f),
        standing_on(fl, f, s, c),
        standing_on(fl, f, s1, c1),
        s.curr_low < s1.curr_low,
    ensures
        c < c1,
        curr_record(fl, s) < curr_record(fl, s1),
{
    let run = file_run(fl, f);
    lemma_run_last(fl, f);
    assert(page_ok(fl, run[c]) && page_ok(fl, run[c1]));
    if c1 < c {
        lemma_run_sorted(fl, run, f.first, f.end, c1, c);
    }
    lemma_run_sorted(fl, run, f.first, f.end, c, c1);
}

/// The direction that leads to a goal.
pub open spec fn toward(s: SearchModel, goal: int) -> SeekDirection {
    if s.curr_low > goal {
        SeekDirection::Left
    } else {
        SeekDirection::Right
    }
}

/// Starting a search in a file that can be searched finds a page with a record boundary.
pub proof fn law_search_start(fl: Seq<Seq<u8>>, f: FileModel, s: SearchModel)
    requires
        searchable(fl, f),
        f.end < u32::MAX,
        s.left_page == NO_PAGE,
    ensures
        start_ready(fl, s, f),
        ({
            let (s1, r) = start_search(fl, s, f);
            &&& r == Ok::<bool, Error>(true)
            &&& found(fl, f, s1)
            &&& s1.right == f.end
            &&& s1.left >= f.first
            &&& file_run(fl, f)[0].header.seq == f.first ==> s1.left == f.first
            &&& forall|goal: int| #[trigger] brackets(fl, f, s1, goal)
        }),
{
    let run = file_run(fl, f);
    lemma_run_last(fl, f);
    lemma_run_start(fl, f);
    lemma_leads_back_end(fl, f);
    let t = from_end(s, f);
    assert(right_end(fl, f, t, run.len() as int)) by {
        assert(start_of(run, f, run.len() as int) == f.end);
    }
    assert(searching(fl, f, t));
    lemma_first_pointer(t);
    lemma_search(fl, f, t, first_pointer(t));
    lemma_search_finds(fl, f, t, first_pointer(t));
    assert forall|goal: int| #[trigger] brackets(fl, f, t, goal) by {
        assert forall|l: int| 0 <= l < run.len() implies (#[trigger] run[l]).page != NO_PAGE by {
            assert(page_ok(fl, run[l]));
        }
    }
    let s1 = start_search(fl, s, f).0;
    if run[0].header.seq == f.first {
        lemma_left_stays(fl, f, t, first_pointer(t));
    }
    assert forall|goal: int| #[trigger] brackets(fl, f, s1, goal) by {
        assert(brackets(fl, f, t, goal));
    }
}

pub proof fn lemma_first_pointer(s: SearchModel)
    ensures
        0 <= first_pointer(s) < SKIPLIST_LEN,
{
    if s.left + 1 < s.right {
        lemma_skip_index((s.left + 1) as u32, s.right);
    }
}

/// A search that goes on is one.
pub proof fn lemma_step_searching(fl: Seq<Seq<u8>>, f: FileModel, s: SearchModel, dir: SeekDirection)
    requires
        searchable(fl, f),
        f.end < u32::MAX,
        resting(fl, f, s),
        dir == SeekDirection::Left ==> more_on_left(fl, f, s),
    ensures
        searching(fl, f, narrowed(s, dir)),
        s.curr_high < u32::MAX,
        narrowed(s, dir).left < narrowed(s, dir).right || narrowed(s, dir).right <= s.curr_high + 1
            <= f.end,
        s.curr_low <= s.curr_high,
{
    let run = file_run(fl, f);
    lemma_run_last(fl, f);
    let t = narrowed(s, dir);
    let c = choose|c: int|
        standing_on(fl, f, s, c) && forall|i: int|
            c < i < run.len() && (#[trigger] run[i]).header.seq <= s.curr_high ==> !has_boundary(
                run[i],
            );
    assert(page_ok(fl, run[c]));
    if dir == SeekDirection::Left {
        lemma_leads_back_page(fl, f, c);
        assert(start_of(run, f, c) == run[c].header.seq);
        assert(right_end(fl, f, t, c));
        if s.left_page != NO_PAGE {
            let l = choose|l: int| left_end(fl, f, s, l);
            assert(left_end(fl, f, t, l));
        }
    } else {
        assert(run[c].page != NO_PAGE);
        let r = choose|r: int| right_end(fl, f, s, r);
        assert(right_end(fl, f, t, r));
        assert(left_end(fl, f, t, c));
    }
    assert(searching(fl, f, t));
}

/// Going on with a search does not fail, as long as there is something on the left when it is
/// sent there. It finds a page with a record boundary on the side that it was sent to if there is
/// one in the range that is left, and comes to its end if not; that range gets smaller. If it was
/// sent toward a goal, the goal stays between its ends.
pub proof fn law_search_step(fl: Seq<Seq<u8>>, f: FileModel, s: SearchModel, dir: SeekDirection)
    requires
        searchable(fl, f),
        f.end < u32::MAX,
        resting(fl, f, s),
        dir == SeekDirection::Left ==> more_on_left(fl, f, s),
    ensures
        s.curr_high < u32::MAX,
        ready_to_search(fl, narrowed(s, dir)),
        ({
            let (s1, r) = search(fl, narrowed(s, dir));
            &&& searched(fl, f, s1, r)
            &&& r == Ok::<bool, Error>(
                bound_page_in(
                    file_run(fl, f),
                    narrowed(s, dir).left as int,
                    narrowed(s, dir).right as int,
                ),
            )
            &&& s1.right == narrowed(s, dir).right
            &&& s1.left >= narrowed(s, dir).left
            &&& s1.right - s1.left < s.right - s.left
            &&& r == Ok::<bool, Error>(true) ==> on_side(fl, s, s1, dir)
            &&& forall|goal: int|
                #![trigger brackets(fl, f, s, goal)]
                brackets(fl, f, s, goal) && dir == toward(s, goal) ==> brackets(fl, f, s1, goal)
        }),
{
    let run = file_run(fl, f);
    lemma_run_last(fl, f);
    let t = narrowed(s, dir);
    let c = choose|c: int|
        standing_on(fl, f, s, c) && forall|i: int|
            c < i < run.len() && (#[trigger] run[i]).header.seq <= s.curr_high ==> !has_boundary(
                run[i],
            );
    assert(page_ok(fl, run[c]));
    if dir == SeekDirection::Left {
        lemma_leads_back_page(fl, f, c);
        assert(start_of(run, f, c) == run[c].header.seq);
        assert(right_end(fl, f, t, c));
        if s.left_page != NO_PAGE {
            let l = choose|l: int| left_end(fl, f, s, l);
            assert(left_end(fl, f, t, l));
        }
    } else {
        assert(run[c].page != NO_PAGE);
        let r = choose|r: int| right_end(fl, f, s, r);
        assert(right_end(fl, f, t, r));
        assert(left_end(fl, f, t, c));
    }
    assert(searching(fl, f, t));
    lemma_first_pointer(t);
    lemma_search(fl, f, t, first_pointer(t));
    lemma_search_finds(fl, f, t, first_pointer(t));
    let (s1, res) = search(fl, t);
    if res == Ok::<bool, Error>(true) {
        let c1 = choose|c1: int|
            standing_on(fl, f, s1, c1) && forall|i: int|
                c1 < i < run.len() && (#[trigger] run[i]).header.seq <= s1.curr_high
                    ==> !has_boundary(run[i]);
        if dir == SeekDirection::Left {
            lemma_record_order(fl, f, s1, s, c1, c);
        } else {
            lemma_record_order(fl, f, s, s1, c, c1);
        }
    }
    assert forall|goal: int|
        #![trigger brackets(fl, f, s, goal)]
        brackets(fl, f, s, goal) && dir == toward(s, goal) implies brackets(fl, f, s1, goal) by {
        assert(brackets(fl, f, t, goal)) by {
            if dir == SeekDirection::Right {
                assert forall|l: int|
                    0 <= l < run.len() && (#[trigger] run[l]).page == t.left_page implies l == 0
                    || run[l].header.seq <= goal by {
                    lemma_run_distinct(fl, run, f.first, f.end, c, l);
                }
            }
        }
    }
}

/// A search that has been sent toward a goal all the way ends at the last page that starts at or
/// before the goal and has a record boundary, or at the first page if there is none.
pub proof fn law_search_end(fl: Seq<Seq<u8>>, f: FileModel, s: SearchModel, goal: int) -> (c: int)
    requires
        searchable(fl, f),
        ended(fl, f, s),
        brackets(fl, f, s, goal),
    ensures
        at_page(fl, f, s, c),
        c == 0 || file_run(fl, f)[c].header.seq <= goal,
        forall|i: int|
            c < i < file_run(fl, f).len() && has_boundary(#[trigger] file_run(fl, f)[i])
                ==> file_run(fl, f)[i].header.seq > goal,
{
    let run = file_run(fl, f);
    lemma_run_last(fl, f);
    let c = choose|c: int|
        at_page(fl, f, s, c) && forall|i: int|
            c < i < run.len() && (#[trigger] run[i]).header.seq < s.right ==> !has_boundary(run[i]);
    assert(run[c].page == s.left_page);
    assert forall|i: int| c < i < run.len() && has_boundary(#[trigger] run[i]) implies
        run[i].header.seq > goal by {
        lemma_run_page(fl, f, i);
    }
    c
}

/// A search goes on from a page that it has found, wherever the caller has left its reader.
pub proof fn law_search_resting(fl: Seq<Seq<u8>>, f: FileModel, s: SearchModel, x: ReaderModel)
    requires
        resting(fl, f, s),
    ensures
        resting(fl, f, SearchModel { reader: x, ..s }),
        curr_record(fl, SearchModel { reader: x, ..s }) == curr_record(fl, s),
{
    let t = SearchModel { reader: x, ..s };
    let run = file_run(fl, f);
    let c = choose|c: int|
        standing_on(fl, f, s, c) && forall|i: int|
            c < i < run.len() && (#[trigger] run[i]).header.seq <= s.curr_high ==> !has_boundary(
                run[i],
            );
    assert(standing_on(fl, f, t, c));
    let r = choose|r: int| right_end(fl, f, s, r);
    assert(right_end(fl, f, t, r));
    if s.left_page != NO_PAGE {
        let l = choose|l: int| left_end(fl, f, s, l);
        assert(left_end(fl, f, t, l));
    }
}

/// Where a search goes does not depend on where its reader is.
proof fn lemma_reader_apart(fl: Seq<Seq<u8>>, s: SearchModel, x: ReaderModel, i: int)
    ensures
        ({
            let t = SearchModel { reader: x, ..s };
            let (s1, r) = search_from(fl, s, i);
            let (t1, q) = search_from(fl, t, i);
            &&& q == r
            &&& r is Ok ==> t1 == s1
            &&& search_ready(fl, t, i) == search_ready(fl, s, i)
        }),
    decreases i,
{
    let t = SearchModel { reader: x, ..s };
    let (s1, r) = try_pointer(fl, s, i);
    let (t1, q) = try_pointer(fl, t, i);
    if worth_trying(s, i) {
        let seq = skip_target(s.right, i) as u32;
        let a = SearchModel { curr_high: seq, ..s };
        let b = SearchModel { curr_high: seq, ..t };
        assert(b =~= SearchModel { reader: x, ..a });
        lemma_seek_page_apart(fl, a, x, s.right_skiplist[i], Some(s.left));
    }
    if r is None {
        assert(t1 =~= SearchModel { reader: x, ..s1 });
        if i <= 0 {
            lemma_seek_page_apart(fl, s1, x, s1.left_page, None);
        } else {
            lemma_reader_apart(fl, s1, x, i - 1);
        }
    }
}

proof fn lemma_seek_page_apart(
    fl: Seq<Seq<u8>>,
    s: SearchModel,
    x: ReaderModel,
    page: u16,
    limit: Option<u32>,
)
    ensures
        ({
            let (s1, r) = seek_page(fl, s, page, limit);
            let (t1, q) = seek_page(fl, SearchModel { reader: x, ..s }, page, limit);
            &&& q == r
            &&& t1 == if r is Ok {
                s1
            } else {
                SearchModel { reader: x, ..s1 }
            }
        }),
{
}

/// What the caller reads between the steps of a search has no influence on it: a step comes to the
/// same, wherever the reader has been left.
pub proof fn law_search_reads_apart(
    fl: Seq<Seq<u8>>,
    s: SearchModel,
    x: ReaderModel,
    dir: SeekDirection,
)
    ensures
        ({
            let t = SearchModel { reader: x, ..s };
            let (s1, r) = search(fl, narrowed(s, dir));
            let (t1, q) = search(fl, narrowed(t, dir));
            &&& ready_to_search(fl, narrowed(t, dir)) == ready_to_search(fl, narrowed(s, dir))
            &&& q == r
            &&& r is Ok ==> t1 == s1
        }),
{
    let t = SearchModel { reader: x, ..s };
    assert(narrowed(t, dir) =~= SearchModel { reader: x, ..narrowed(s, dir) });
    lemma_reader_apart(fl, narrowed(s, dir), x, first_pointer(narrowed(s, dir)));
}

/// In a file from which nothing has been dropped, there is always something on the left, or a page
/// to go back to.
pub proof fn law_search_whole(fl: Seq<Seq<u8>>, f: FileModel, s: SearchModel)
    requires
        searchable(fl, f),
        file_run(fl, f)[0].header.seq == f.first,
        file_run(fl, f)[0].header.skiplist[0] == NO_PAGE,
        resting(fl, f, s),
    ensures
        more_on_left(fl, f, s),
{
    let run = file_run(fl, f);
    lemma_run_last(fl, f);
    if s.left_page == NO_PAGE {
        if s.left > f.first {
            assert(bound_page(run, 0, f.first as int, s.left as int));
        }
        assert(bound_page(run, 0, s.left as int, s.curr_low as int));
    }
}

/// A search puts the reader at an offset of the file where a record starts, unless that record has
/// been dropped.
pub proof fn law_search_reader(fl: Seq<Seq<u8>>, f: FileModel, s: SearchModel, c: int)
    requires
        searchable(fl, f),
        at_page(fl, f, s, c),
        file_run(fl, f)[c].header.seq + file_run(fl, f)[c].header.record_boundary >= f.first,
    ensures
        reader_at(
            fl,
            f,
            s.reader,
            file_run(fl, f)[c].header.seq + file_run(fl, f)[c].header.record_boundary - f.first,
        ),
{
    reveal(reader_at);
    let run = file_run(fl, f);
    lemma_run_last(fl, f);
    lemma_run_page(fl, f, c);
    if c > 0 {
        lemma_run_sorted(fl, run, f.first, f.end, 0, c);
    }
    assert(on_page(fl, f, s.reader, c));
}

} // verus!
