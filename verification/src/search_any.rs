//! Which page a search goes to, and what it does on a device that may hold anything.

use vstd::prelude::*;

use crate::chain::{file_run, lemma_run_last, lemma_run_sorted, page_ok};
use crate::config::{PAGE_COUNT, SKIPLIST_LEN};
use crate::headers::{data_header, data_payload, NO_BOUNDARY};
use crate::reader::ReaderModel;
use crate::search_laws::{
    at_record, bound_page, bound_page_in, brackets, found, holder, law_search_start,
    lemma_holder_order, lemma_run_len, lemma_try, lemma_walk, page_holds, right_end, searchable,
    searching,
};
use crate::searcher::{
    narrowed, new_search, search, search_from, start_search, try_pointer, walk_back, worth_trying,
    SearchModel, SeekDirection, WalkEnd, WALK_LIMIT,
};
use crate::seqnum::{lemma_skip_index, lemma_skip_target, skip_index, skip_target};
use crate::store::FileModel;
use crate::types::NO_PAGE;
use crate::Error;

verus! {

/// Whether a page can be read as a page of a file.
pub open spec fn readable(fl: Seq<Seq<u8>>, page: u16) -> bool {
    page < PAGE_COUNT && data_header(fl[page as int]) is Some && data_payload(
        fl[page as int],
    ) is Some
}

/// Whether a walk back passes a page: it does not start before the limit, no record boundary lies
/// on it, and it leads back to `next`.
pub open spec fn passes(fl: Seq<Seq<u8>>, page: u16, next: u16, limit: Option<u32>) -> bool {
    let h = data_header(fl[page as int])->0;
    &&& readable(fl, page)
    &&& limit is Some ==> h.seq >= limit->0
    &&& h.record_boundary == NO_BOUNDARY
    &&& h.skiplist[0] == next
    &&& next != NO_PAGE
}

/// A walk back in search of a record boundary goes from page to page until it comes to one that
/// it does not pass. There it ends: with that page, if a record boundary lies on it; short of
/// one, if the page starts before the limit; and with an error, if the page cannot be read or is
/// the first one. If it ends at the first page of the file, it makes a note of that page.
pub proof fn law_walk_back(
    fl: Seq<Seq<u8>>,
    left: u16,
    pages: Seq<u16>,
    limit: Option<u32>,
    fuel: int,
)
    requires
        0 < pages.len() <= fuel,
        forall|i: int|
            #![trigger pages[i]]
            0 <= i < pages.len() - 1 ==> passes(fl, pages[i], pages[i + 1], limit),
    ensures
        ({
            let page = pages.last();
            let h = data_header(fl[page as int])->0;
            let low = limit is Some && h.seq < limit->0;
            let out = walk_back(fl, left, pages[0], limit, fuel);
            let left1 = if h.skiplist[0] == NO_PAGE {
                page
            } else {
                left
            };
            &&& !readable(fl, page) ==> out == Some((left, WalkEnd::Corrupted))
            &&& readable(fl, page) && low ==> out == Some((left1, WalkEnd::TooMuchLeft))
            &&& readable(fl, page) && !low && h.record_boundary != NO_BOUNDARY ==> out == Some(
                (left1, WalkEnd::Found { page, header: h }),
            )
            &&& readable(fl, page) && !low && h.record_boundary == NO_BOUNDARY && h.skiplist[0]
                == NO_PAGE ==> out == Some((left1, WalkEnd::Corrupted))
        }),
    decreases pages.len(),
{
    if pages.len() > 1 {
        let d = pages.subrange(1, pages.len() as int);
        assert(passes(fl, pages[0], pages[1], limit));
        assert forall|i: int| #![trigger d[i]] 0 <= i < d.len() - 1 implies passes(
            fl,
            d[i],
            d[i + 1],
            limit,
        ) by {
            assert(d[i] == pages[i + 1] && d[i + 1] == pages[i + 1 + 1]);
        }
        law_walk_back(fl, left, d, limit, fuel - 1);
        assert(d[0] == pages[1]);
        assert(d.last() == pages.last());
    }
}

/// Where a walk back ends is a page as the device has it.
proof fn lemma_walk_found(
    fl: Seq<Seq<u8>>,
    left: u16,
    page: u16,
    limit: Option<u32>,
    fuel: int,
)
    ensures
        walk_back(fl, left, page, limit, fuel) matches Some((_, WalkEnd::Found { page: p, header }))
            ==> {
            &&& readable(fl, p)
            &&& data_header(fl[p as int]) == Some(header)
            &&& header.record_boundary != NO_BOUNDARY
            &&& limit is Some ==> header.seq >= limit->0
        },
    decreases fuel,
{
    if fuel > 0 && readable(fl, page) {
        let h = data_header(fl[page as int])->0;
        let l = if h.skiplist[0] == NO_PAGE {
            page
        } else {
            left
        };
        lemma_walk_found(fl, l, h.skiplist[0], limit, fuel - 1);
    }
}

/// Whether a search is at a record: the page that it is at has a record boundary, and the reader
/// is there.
pub open spec fn at_some_record(fl: Seq<Seq<u8>>, s: SearchModel) -> bool {
    let h = data_header(fl[s.curr_page as int])->0;
    &&& readable(fl, s.curr_page)
    &&& h.record_boundary != NO_BOUNDARY
    &&& h.record_boundary <= data_payload(fl[s.curr_page as int])->0.len()
    &&& s.curr_low == h.seq
    &&& s.curr_skiplist == h.skiplist
    &&& at_record(fl, s)
}

proof fn lemma_search_outcome(fl: Seq<Seq<u8>>, s: SearchModel, i: int)
    requires
        0 <= i < SKIPLIST_LEN,
    ensures
        ({
            let (s1, r) = search_from(fl, s, i);
            &&& s1.right == s.right
            &&& s1.right_skiplist == s.right_skiplist
            &&& s1.left >= s.left
            &&& r is Ok ==> at_some_record(fl, s1)
            &&& r == Ok::<bool, Error>(true) ==> s1.left <= s1.curr_low && s1.left <= s1.curr_high
                < s1.right
            &&& r is Err ==> s1.reader == s.reader && s1.curr_low == s.curr_low && s1.curr_page
                == s.curr_page
        }),
    decreases i,
{
    let (s1, r) = try_pointer(fl, s, i);
    if worth_trying(s, i) {
        lemma_skip_target(s.right, i);
        lemma_walk_found(fl, s.left_page, s.right_skiplist[i], Some(s.left), WALK_LIMIT as int);
    }
    if r is None {
        if i > 0 {
            lemma_search_outcome(fl, s1, i - 1);
        } else {
            lemma_walk_found(fl, s1.left_page, s1.left_page, None, WALK_LIMIT as int);
        }
    }
}

/// What holds of every step of a search, whatever the device holds. If it does not fail, the
/// reader is at a record boundary of a page. If it finds a page, that page is not in front of the
/// range. If it fails, the reader is where it was. The range gets no larger, and its right end
/// stays.
pub proof fn law_search_outcome(fl: Seq<Seq<u8>>, s: SearchModel)
    ensures
        ({
            let (s1, r) = search(fl, s);
            &&& s1.right == s.right
            &&& s1.right_skiplist == s.right_skiplist
            &&& s1.left >= s.left
            &&& r is Ok ==> at_some_record(fl, s1)
            &&& r == Ok::<bool, Error>(true) ==> s.left <= s1.curr_low && s.left <= s1.curr_high
                < s.right
            &&& r is Err ==> s1.reader == s.reader
        }),
{
    if s.left + 1 < s.right {
        lemma_skip_index((s.left + 1) as u32, s.right);
        lemma_search_outcome(fl, s, skip_index((s.left + 1) as u32, s.right));
    } else {
        lemma_search_outcome(fl, s, 0);
    }
}

/// Going on to the left makes the start of the current page the right end of the range, with the
/// back pointers of that page. Going on to the right makes the range start behind where the
/// current page was looked for.
pub proof fn law_seek_narrows(fl: Seq<Seq<u8>>, s: SearchModel, dir: SeekDirection)
    requires
        s.curr_high < u32::MAX,
    ensures
        ({
            let (s1, r) = search(fl, narrowed(s, dir));
            match dir {
                SeekDirection::Left => {
                    &&& s1.right == s.curr_low
                    &&& s1.right_skiplist == s.curr_skiplist
                    &&& s1.left >= s.left
                    &&& r == Ok::<bool, Error>(true) ==> s.left <= s1.curr_low
                },
                SeekDirection::Right => {
                    &&& s1.right == s.right
                    &&& s1.right_skiplist == s.right_skiplist
                    &&& s1.left > s.curr_high
                    &&& r == Ok::<bool, Error>(true) ==> s1.curr_low > s.curr_high
                },
            }
        }),
{
    law_search_outcome(fl, narrowed(s, dir));
}

/// A search of a file whose last page starts behind its end fails.
pub proof fn law_start_corrupted(fl: Seq<Seq<u8>>, f: FileModel, s: SearchModel)
    requires
        f.last is Some,
        f.end <= f.last->0.header.seq,
    ensures
        start_search(fl, s, f).1 == Err::<bool, Error>(Error::Corrupted),
        start_search(fl, s, f).0.reader == s.reader,
{
}

/// Whether back pointer `j` from the right end of a search is the one that leads furthest back
/// without coming to the left end.
pub open spec fn furthest(s: SearchModel, j: int) -> bool {
    &&& 0 <= j < SKIPLIST_LEN
    &&& j == 0 || skip_target(s.right, j) > s.left
    &&& forall|i: int| j < i < SKIPLIST_LEN ==> #[trigger] skip_target(s.right, i) <= s.left
}

/// A search does not go from page to page: it takes the back pointer from its right end that
/// leads furthest into the range. If a record boundary lies on a page that starts in the range
/// and not behind where that pointer leads, the search finds the last such page.
pub proof fn law_search_jumps(fl: Seq<Seq<u8>>, f: FileModel, s: SearchModel, j: int)
    requires
        searchable(fl, f),
        searching(fl, f, s),
        s.left < s.right,
        furthest(s, j),
        bound_page_in(file_run(fl, f), s.left as int, skip_target(s.right, j) + 1),
    ensures
        ({
            let (s1, r) = search(fl, s);
            &&& r == Ok::<bool, Error>(true)
            &&& found(fl, f, s1)
            &&& s1.curr_high == skip_target(s.right, j)
        }),
{
    let run = file_run(fl, f);
    let x = skip_target(s.right, j);
    lemma_run_last(fl, f);
    lemma_skip_target(s.right, j);
    if s.left + 1 < s.right {
        lemma_skip_index((s.left + 1) as u32, s.right);
        let i = skip_index((s.left + 1) as u32, s.right);
        assert(i == j) by {
            assert(skip_target(s.right, i) >= s.left + 1);
            assert(skip_target(s.right, 0) >= s.left + 1);
            assert(skip_target(s.right, j) >= s.left + 1);
        }
    } else {
        assert(s.right == s.left + 1);
        lemma_skip_target(s.right, 0);
    }
    let r = choose|r: int| right_end(fl, f, s, r);
    let b = choose|b: int| #[trigger] bound_page(run, b, s.left as int, x + 1);
    assert(x >= s.left);
    assert(holder(fl, run, r, x, s.right_skiplist[j]));
    let k = choose|k: int|
        0 <= k < r && #[trigger] page_holds(fl, run[k], x) && run[k].page == s.right_skiplist[j];
    assert(page_ok(fl, run[k]));
    assert(worth_trying(s, j));
    lemma_run_len(fl, run, f.first, f.end);
    let c = lemma_walk(fl, f, s.left_page, k, Some(s.left), WALK_LIMIT as int);
    lemma_holder_order(fl, f, k, x, b);
    if run[c].header.seq < s.left && b < c {
        lemma_run_sorted(fl, run, f.first, f.end, b, c);
    }
    lemma_try(fl, f, s, j);
    assert(try_pointer(fl, s, j).1 is Some);
}

/// A new searcher knows of no page at its left end. Started in a file that can be searched, it
/// finds a record, and every goal lies between its ends.
pub proof fn law_new_search(fl: Seq<Seq<u8>>, f: FileModel, r: ReaderModel)
    ensures
        new_search(r).left_page == NO_PAGE,
        new_search(r).reader == r,
        searchable(fl, f) && f.end < u32::MAX ==> {
            let (s1, res) = start_search(fl, new_search(r), f);
            &&& res == Ok::<bool, Error>(true)
            &&& found(fl, f, s1)
            &&& forall|goal: int| #[trigger] brackets(fl, f, s1, goal)
        },
{
    if searchable(fl, f) && f.end < u32::MAX {
        law_search_start(fl, f, new_search(r));
    }
}

} // verus!
