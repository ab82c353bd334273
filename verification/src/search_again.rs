//! Searchers that have been used before, and searches that go on after their end.

use vstd::prelude::*;

use crate::chain::{file_run, lemma_run_distinct, lemma_run_last, lemma_run_page, page_ok};
use crate::config::{PAGE_COUNT, SKIPLIST_LEN};
use crate::headers::{data_header, data_payload};
use crate::search_laws::{
    at_page, at_record, brackets, found, has_boundary, law_search_start, law_search_step, left_end,
    lemma_first_pointer, lemma_pointer_0, lemma_run_len, lemma_step_searching, lemma_try,
    lemma_walk, more_on_left, resting, searchable, searching, standing_on,
};
use crate::search_runs::{can_go_on, go_on, looked_at, whole_search, Caller};
use crate::searcher::{
    first_pointer, from_end, narrowed, ready_to_search, search, search_from, search_ready,
    seek_page_ready, start_ready, start_search, try_pointer, walk_back, worth_trying, SearchModel,
    SeekDirection, WalkEnd, WALK_LIMIT,
};
use crate::seqnum::lemma_skip_target;
use crate::store::FileModel;
use crate::types::NO_PAGE;
use crate::Error;

verus! {

/// A search that knows of no page at its left end.
pub open spec fn unset(s: SearchModel) -> SearchModel {
    SearchModel { left_page: NO_PAGE, ..s }
}

/// A search, with a page at its left end that it has from before if it has not come upon one.
pub open spec fn with_left(t: SearchModel, x: u16) -> SearchModel {
    if t.left_page == NO_PAGE {
        SearchModel { left_page: x, ..t }
    } else {
        t
    }
}

/// A walk back goes the same way, whatever page was at the left end before.
proof fn lemma_walk_left(fl: Seq<Seq<u8>>, x: u16, page: u16, limit: Option<u32>, fuel: int)
    ensures
        match walk_back(fl, NO_PAGE, page, limit, fuel) {
            None => walk_back(fl, x, page, limit, fuel) is None,
            Some((left, end)) => walk_back(fl, x, page, limit, fuel) == Some(
                (
                    if left == NO_PAGE {
                        x
                    } else {
                        left
                    },
                    end,
                ),
            ),
        },
    decreases fuel,
{
    if fuel > 0 && page < PAGE_COUNT {
        if let (Some(h), Some(b)) = (data_header(fl[page as int]), data_payload(fl[page as int])) {
            if h.skiplist[0] != NO_PAGE {
                lemma_walk_left(fl, x, h.skiplist[0], limit, fuel - 1);
            }
        }
    }
}

/// The same of trying a back pointer.
proof fn lemma_try_left(fl: Seq<Seq<u8>>, t: SearchModel, x: u16, i: int)
    ensures
        ({
            let (t1, r) = try_pointer(fl, t, i);
            &&& try_pointer(fl, with_left(t, x), i) == (with_left(t1, x), r)
            &&& worth_trying(with_left(t, x), i) == worth_trying(t, i)
            &&& seek_page_ready(fl, with_left(t, x).left_page, t.right_skiplist[i], Some(t.left))
                == seek_page_ready(fl, t.left_page, t.right_skiplist[i], Some(t.left))
        }),
{
    if t.left_page == NO_PAGE {
        lemma_walk_left(fl, x, t.right_skiplist[i], Some(t.left), WALK_LIMIT as int);
        let (t1, r) = try_pointer(fl, t, i);
        assert(try_pointer(fl, with_left(t, x), i).0 =~= with_left(t1, x));
    } else {
        lemma_walk_keeps(
            fl,
            t.left_page,
            t.right_skiplist[i],
            Some(t.left),
            WALK_LIMIT as int,
        );
    }
}

/// The same of a search.
proof fn lemma_search_left(fl: Seq<Seq<u8>>, t: SearchModel, x: u16, i: int)
    requires
        search_ready(fl, t, i),
    ensures
        search_ready(fl, with_left(t, x), i),
        ({
            let (t1, r) = search_from(fl, t, i);
            search_from(fl, with_left(t, x), i) == (with_left(t1, x), r)
        }),
    decreases i,
{
    lemma_try_left(fl, t, x, i);
    let (t1, r) = try_pointer(fl, t, i);
    if r is None {
        if i > 0 {
            lemma_search_left(fl, t1, x, i - 1);
        } else {
            assert(with_left(t1, x) == t1);
            lemma_walk_keeps(fl, t1.left_page, t1.left_page, None, WALK_LIMIT as int);
        }
    }
}

/// A page at the left end is not forgotten.
proof fn lemma_walk_keeps(fl: Seq<Seq<u8>>, left: u16, page: u16, limit: Option<u32>, fuel: int)
    requires
        left != NO_PAGE,
    ensures
        walk_back(fl, left, page, limit, fuel) matches Some((l, _)) ==> l != NO_PAGE,
    decreases fuel,
{
    if fuel > 0 && page < PAGE_COUNT {
        if let (Some(h), Some(b)) = (data_header(fl[page as int]), data_payload(fl[page as int])) {
            if h.skiplist[0] != NO_PAGE {
                lemma_walk_keeps(fl, left, h.skiplist[0], limit, fuel - 1);
            }
        }
    }
}

/// Whether two searches have the same range.
pub open spec fn same_range(s: SearchModel, t: SearchModel) -> bool {
    &&& s.left == t.left
    &&& s.left_page == t.left_page
    &&& s.right == t.right
    &&& s.right_skiplist == t.right_skiplist
}

/// What a search finds depends on nothing but its range.
proof fn lemma_same_range(fl: Seq<Seq<u8>>, s: SearchModel, t: SearchModel, i: int)
    requires
        same_range(s, t),
    ensures
        search_ready(fl, s, i) == search_ready(fl, t, i),
        search_from(fl, s, i).1 == search_from(fl, t, i).1,
        search_from(fl, t, i).1 == Ok::<bool, Error>(true) ==> search_from(fl, s, i).0
            == search_from(fl, t, i).0,
    decreases i,
{
    let (s1, r) = try_pointer(fl, s, i);
    let (t1, q) = try_pointer(fl, t, i);
    assert(r == q);
    if r is None {
        assert(same_range(s1, t1));
        if i > 0 {
            lemma_same_range(fl, s1, t1, i - 1);
        }
    } else if r == Some(Ok::<bool, Error>(true)) {
        assert(s1 =~= t1);
    }
}

/// A searcher that has been used before starts a search like a new one: whatever its state, it
/// comes to the same record, over the same range. Only the page at the left end may be one from
/// before, as long as the search has not come upon one.
pub proof fn law_start_again(fl: Seq<Seq<u8>>, f: FileModel, s: SearchModel, fresh: SearchModel)
    requires
        searchable(fl, f),
        f.end < u32::MAX,
        fresh.left_page == NO_PAGE,
    ensures
        start_ready(fl, s, f),
        ({
            let (t, r) = start_search(fl, fresh, f);
            start_search(fl, s, f) == (with_left(t, s.left_page), r)
        }),
{
    let t = from_end(unset(s), f);
    let u = from_end(fresh, f);
    law_search_start(fl, f, fresh);
    law_search_start(fl, f, unset(s));
    lemma_run_last(fl, f);
    assert(first_pointer(t) == first_pointer(u));
    lemma_same_range(fl, t, u, first_pointer(u));
    lemma_search_left(fl, t, s.left_page, first_pointer(t));
    assert(from_end(s, f) =~= with_left(t, s.left_page));
}

/// In a file that can be searched, a start finds a record, from every state of the searcher: its
/// range then ends with the file, and starts with it too if its first page does. The left end
/// does not count as long as it is one from before: without it, every goal lies between the ends
/// of the search.
pub proof fn law_search_start_any(fl: Seq<Seq<u8>>, f: FileModel, s: SearchModel)
    requires
        searchable(fl, f),
        f.end < u32::MAX,
    ensures
        start_ready(fl, s, f),
        ({
            let (s1, r) = start_search(fl, s, f);
            &&& r == Ok::<bool, Error>(true)
            &&& s1.right == f.end
            &&& s1.left >= f.first
            &&& file_run(fl, f)[0].header.seq == f.first ==> s1.left == f.first
            &&& exists|c: int| #[trigger] at_page(fl, f, s1, c)
            &&& found(fl, f, s1) || (s1.left_page == s.left_page && found(fl, f, unset(s1)))
            &&& (forall|goal: int| #[trigger] brackets(fl, f, s1, goal)) || (s1.left_page
                == s.left_page && forall|goal: int| #[trigger] brackets(fl, f, unset(s1), goal))
        }),
{
    let t = from_end(unset(s), f);
    let x = s.left_page;
    law_search_start(fl, f, unset(s));
    lemma_run_last(fl, f);
    lemma_search_left(fl, t, x, first_pointer(t));
    assert(from_end(s, f) =~= with_left(t, x));
    let (t1, r) = start_search(fl, unset(s), f);
    let s1 = start_search(fl, s, f).0;
    assert(s1 == with_left(t1, x));
    if t1.left_page == NO_PAGE {
        assert(unset(s1) =~= t1);
    }
    let run = file_run(fl, f);
    let c = choose|c: int|
        standing_on(fl, f, t1, c) && forall|i: int|
            c < i < run.len() && (#[trigger] run[i]).header.seq <= t1.curr_high ==> !has_boundary(
                run[i],
            );
    assert(at_page(fl, f, s1, c));
}

/// A step of a search comes to the same, whatever page is at its left end from before.
pub proof fn law_seek_again(
    fl: Seq<Seq<u8>>,
    t: SearchModel,
    x: u16,
    dir: SeekDirection,
)
    requires
        ready_to_search(fl, narrowed(t, dir)),
        dir == SeekDirection::Right ==> t.curr_page != NO_PAGE,
    ensures
        ready_to_search(fl, narrowed(with_left(t, x), dir)),
        ({
            let (t1, r) = search(fl, narrowed(t, dir));
            search(fl, narrowed(with_left(t, x), dir)) == (with_left(t1, x), r)
        }),
{
    let u = narrowed(t, dir);
    lemma_search_left(fl, u, x, first_pointer(u));
    assert(narrowed(with_left(t, x), dir) =~= with_left(u, x));
}

/// Whether what a caller does depends on nothing but where the search is.
pub open spec fn heeds_no_left(k: Caller) -> bool {
    forall|t: SearchModel, x: u16|
        (k.sends)(#[trigger] with_left(t, x)) == (k.sends)(t) && (k.leaves)(with_left(t, x)) == (
        k.leaves)(t)
}

/// The same of any number of steps.
proof fn lemma_go_on_again(fl: Seq<Seq<u8>>, t: SearchModel, x: u16, k: Caller, n: nat)
    requires
        can_go_on(fl, t, k, n),
        heeds_no_left(k),
        t.curr_page != NO_PAGE,
    ensures
        can_go_on(fl, with_left(t, x), k, n),
        ({
            let (t1, r) = go_on(fl, t, k, n);
            go_on(fl, with_left(t, x), k, n) == (with_left(t1, x), r)
        }),
    decreases n,
{
    if n > 0 {
        let dir = (k.sends)(t);
        let u = looked_at(t, k);
        assert(looked_at(with_left(t, x), k) =~= with_left(u, x)) by {
            assert((k.leaves)(with_left(t, x)) == (k.leaves)(t));
        }
        assert((k.sends)(with_left(t, x)) == dir);
        law_seek_again(fl, u, x, dir);
        let (t1, r) = search(fl, narrowed(u, dir));
        if r == Ok::<bool, Error>(true) {
            lemma_found_page(fl, narrowed(u, dir), first_pointer(narrowed(u, dir)));
            lemma_go_on_again(fl, t1, x, k, (n - 1) as nat);
        }
    }
}

/// A search that finds a record is then at a page.
proof fn lemma_found_page(fl: Seq<Seq<u8>>, s: SearchModel, i: int)
    ensures
        search_from(fl, s, i).1 == Ok::<bool, Error>(true) ==> search_from(fl, s, i).0.curr_page
            != NO_PAGE,
    decreases i,
{
    let (s1, r) = try_pointer(fl, s, i);
    if worth_trying(s, i) {
        lemma_walk_page(fl, s.left_page, s.right_skiplist[i], Some(s.left), WALK_LIMIT as int);
    }
    if r is None && i > 0 {
        lemma_found_page(fl, s1, i - 1);
    }
}

/// A walk back ends at a page of the device.
proof fn lemma_walk_page(fl: Seq<Seq<u8>>, left: u16, page: u16, limit: Option<u32>, fuel: int)
    ensures
        walk_back(fl, left, page, limit, fuel) matches Some((_, WalkEnd::Found { page: p, .. }))
            ==> p < PAGE_COUNT,
    decreases fuel,
{
    if fuel > 0 && page < PAGE_COUNT {
        if let (Some(h), Some(b)) = (data_header(fl[page as int]), data_payload(fl[page as int])) {
            let l = if h.skiplist[0] == NO_PAGE {
                page
            } else {
                left
            };
            lemma_walk_page(fl, l, h.skiplist[0], limit, fuel - 1);
        }
    }
}

/// A whole search with a searcher that has been used before comes to the same record as one with a
/// new searcher, and to the same result.
pub proof fn law_search_again(fl: Seq<Seq<u8>>, f: FileModel, s: SearchModel, k: Caller, n: nat)
    requires
        searchable(fl, f),
        f.end < u32::MAX,
        heeds_no_left(k),
        can_go_on(fl, start_search(fl, unset(s), f).0, k, n),
    ensures
        start_ready(fl, s, f),
        can_go_on(fl, start_search(fl, s, f).0, k, n),
        ({
            let (t, r) = whole_search(fl, unset(s), f, k, n);
            whole_search(fl, s, f, k, n) == (with_left(t, s.left_page), r)
        }),
{
    law_search_start(fl, f, unset(s));
    law_start_again(fl, f, s, unset(s));
    let t = from_end(unset(s), f);
    lemma_run_last(fl, f);
    lemma_found_page(fl, t, first_pointer(t));
    lemma_go_on_again(fl, start_search(fl, unset(s), f).0, s.left_page, k, n);
}

/// Starting a search in an empty file comes to its end at once.
pub proof fn law_search_empty(fl: Seq<Seq<u8>>, f: FileModel, s: SearchModel)
    requires
        f.last is None,
    ensures
        start_ready(fl, s, f),
        start_search(fl, s, f).1 == Ok::<bool, Error>(false),
        start_search(fl, s, f).0.reader == s.reader,
{
}

/// Whether a search has nothing left in its range, and is at the page at its left end. The reader
/// may be anywhere.
pub open spec fn exhausted(fl: Seq<Seq<u8>>, f: FileModel, s: SearchModel) -> bool {
    &&& s.left_page == s.curr_page
    &&& s.curr_low <= s.left <= f.end
    &&& s.right <= s.curr_high + 1 <= f.end
    &&& s.curr_low <= s.curr_high + 1
    &&& exists|c: int| standing_on(fl, f, s, c)
}

/// When a search comes to its end, it has looked at its range up to the right end.
proof fn lemma_looked_through(fl: Seq<Seq<u8>>, f: FileModel, s: SearchModel, i: int)
    requires
        searchable(fl, f),
        searching(fl, f, s),
        0 <= i < SKIPLIST_LEN,
        s.left < s.right || s.right <= s.curr_high + 1 <= f.end,
    ensures
        search_from(fl, s, i).1 == Ok::<bool, Error>(false) ==> {
            let s1 = search_from(fl, s, i).0;
            s1.right <= s1.curr_high + 1 <= f.end
        },
    decreases i,
{
    lemma_try(fl, f, s, i);
    let (s1, r) = try_pointer(fl, s, i);
    if worth_trying(s, i) {
        lemma_skip_target(s.right, i);
    }
    if r is None {
        if i > 0 {
            lemma_looked_through(fl, f, s1, i - 1);
        } else if s.left < s.right {
            lemma_pointer_0(fl, f, s);
        }
    }
}

/// A search that has come to its end is exhausted.
pub proof fn law_search_exhausted(fl: Seq<Seq<u8>>, f: FileModel, s: SearchModel, dir: SeekDirection)
    requires
        searchable(fl, f),
        f.end < u32::MAX,
        resting(fl, f, s),
        dir == SeekDirection::Left ==> more_on_left(fl, f, s),
        search(fl, narrowed(s, dir)).1 == Ok::<bool, Error>(false),
    ensures
        exhausted(fl, f, search(fl, narrowed(s, dir)).0),
{
    let t = narrowed(s, dir);
    law_search_step(fl, f, s, dir);
    let s1 = search(fl, t).0;
    let run = file_run(fl, f);
    lemma_run_last(fl, f);
    lemma_step_searching(fl, f, s, dir);
    lemma_first_pointer(t);
    lemma_looked_through(fl, f, t, first_pointer(t));
    let c = choose|c: int|
        at_page(fl, f, s1, c) && forall|i: int|
            c < i < run.len() && (#[trigger] run[i]).header.seq < s1.right ==> !has_boundary(run[i]);
    let l = choose|l: int| left_end(fl, f, s1, l);
    lemma_run_distinct(fl, run, f.first, f.end, c, l);
    assert(standing_on(fl, f, s1, c));
}

/// Going on with a search that is exhausted, on either side, finds nothing and stays at the same
/// record, wherever the reader has been left.
pub proof fn law_seek_exhausted(fl: Seq<Seq<u8>>, f: FileModel, s: SearchModel, dir: SeekDirection)
    requires
        searchable(fl, f),
        f.end < u32::MAX,
        exhausted(fl, f, s),
    ensures
        s.curr_high < u32::MAX,
        ready_to_search(fl, narrowed(s, dir)),
        ({
            let (s1, r) = search(fl, narrowed(s, dir));
            &&& r == Ok::<bool, Error>(false)
            &&& exhausted(fl, f, s1)
            &&& s1.curr_page == s.curr_page
            &&& s1.curr_low == s.curr_low
            &&& at_record(fl, s1)
        }),
{
    let run = file_run(fl, f);
    lemma_run_last(fl, f);
    let t = narrowed(s, dir);
    let c = choose|c: int| standing_on(fl, f, s, c);
    lemma_run_page(fl, f, c);
    lemma_run_len(fl, run, f.first, f.end);
    assert(page_ok(fl, run[c]));
    let c1 = lemma_walk(fl, f, t.left_page, c, None, WALK_LIMIT as int);
    assert(c1 == c);
    assert(!worth_trying(t, 0));
    assert(first_pointer(t) == 0);
    let s1 = search(fl, t).0;
    assert(standing_on(fl, f, s1, c));
}

} // verus!
