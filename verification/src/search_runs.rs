//! What a whole search finds: a search that is started and then sent to one side after the other,
//! with the caller reading as it likes between the steps.

use vstd::prelude::*;

use crate::chain::{file_run, lemma_run_last, lemma_run_page, lemma_run_sorted, page_ok};
use crate::read_laws::reader_at;
use crate::reader::ReaderModel;
use crate::record_laws::whole;
use crate::search_laws::{
    at_page, bound_page, brackets, curr_record, found, has_boundary, law_search_end,
    law_search_reader, law_search_resting, law_search_start, law_search_step, law_search_whole,
    resting, searchable, searched, standing_on, toward,
};
use crate::searcher::{
    narrowed, ready_to_search, search, start_ready, start_search, SearchModel, SeekDirection,
};
use crate::store::{FileModel, Ptr};
use crate::types::NO_PAGE;
use crate::Error;

verus! {

/// What a caller does with a search: where it leaves the reader after it has looked at the record
/// that the search is at, and on which side it then goes on.
pub struct Caller {
    pub leaves: spec_fn(SearchModel) -> ReaderModel,
    pub sends: spec_fn(SearchModel) -> SeekDirection,
}

/// A search that is at a record, after the caller has looked at the record.
pub open spec fn looked_at(s: SearchModel, k: Caller) -> SearchModel {
    SearchModel { reader: (k.leaves)(s), ..s }
}

/// A search after at most `n` more steps. It stops earlier if a step does not return `Ok(true)`.
pub open spec fn go_on(fl: Seq<Seq<u8>>, s: SearchModel, k: Caller, n: nat) -> (
    SearchModel,
    Result<bool, Error>,
)
    decreases n,
{
    if n == 0 {
        (s, Ok(true))
    } else {
        let (s1, r) = search(fl, narrowed(looked_at(s, k), (k.sends)(s)));
        if r == Ok::<bool, Error>(true) {
            go_on(fl, s1, k, (n - 1) as nat)
        } else {
            (s1, r)
        }
    }
}

/// Whether each of these steps can be made.
pub open spec fn can_go_on(fl: Seq<Seq<u8>>, s: SearchModel, k: Caller, n: nat) -> bool
    decreases n,
{
    n > 0 ==> {
        let dir = (k.sends)(s);
        let t = narrowed(looked_at(s, k), dir);
        let (s1, r) = search(fl, t);
        &&& dir == SeekDirection::Right ==> s.curr_high < u32::MAX
        &&& ready_to_search(fl, t)
        &&& r == Ok::<bool, Error>(true) ==> can_go_on(fl, s1, k, (n - 1) as nat)
    }
}

/// A search from its start on, with at most `n` steps after that.
pub open spec fn whole_search(
    fl: Seq<Seq<u8>>,
    s: SearchModel,
    f: FileModel,
    k: Caller,
    n: nat,
) -> (SearchModel, Result<bool, Error>) {
    let (s1, r) = start_search(fl, s, f);
    if r == Ok::<bool, Error>(true) {
        go_on(fl, s1, k, n)
    } else {
        (s1, r)
    }
}

/// The number of pages among the first `n` that start in `from..to` and have a record boundary.
pub open spec fn bound_pages(run: Seq<Ptr>, from: int, to: int, n: int) -> nat
    decreases n,
{
    if n <= 0 {
        0
    } else {
        bound_pages(run, from, to, n - 1) + if bound_page(run, n - 1, from, to) {
            1nat
        } else {
            0nat
        }
    }
}

/// A range that has fewer pages: it is part of the other, and lacks page `c`.
proof fn lemma_fewer_pages(run: Seq<Ptr>, from: int, to: int, from1: int, to1: int, c: int, n: int)
    requires
        from <= from1,
        to1 <= to,
        bound_page(run, c, from, to),
        !bound_page(run, c, from1, to1),
    ensures
        bound_pages(run, from1, to1, n) + (if c < n {
            1int
        } else {
            0
        }) <= bound_pages(run, from, to, n),
        bound_pages(run, from, to, n) <= if n < 0 {
            0
        } else {
            n
        },
    decreases n,
{
    if n > 0 {
        lemma_fewer_pages(run, from, to, from1, to1, c, n - 1);
    }
}

/// A step of a search uses up a page: fewer pages with a record boundary are left in its range.
proof fn lemma_step_uses_page(fl: Seq<Seq<u8>>, f: FileModel, s: SearchModel, dir: SeekDirection)
    requires
        searchable(fl, f),
        f.end < u32::MAX,
        whole(fl, f),
        resting(fl, f, s),
    ensures
        ({
            let (s1, r) = search(fl, narrowed(s, dir));
            let run = file_run(fl, f);
            let n = run.len() as int;
            bound_pages(run, s1.left as int, s1.right as int, n) < bound_pages(
                run,
                s.left as int,
                s.right as int,
                n,
            ) <= n
        }),
{
    let run = file_run(fl, f);
    let n = run.len() as int;
    law_search_whole(fl, f, s);
    law_search_step(fl, f, s, dir);
    let (s1, r) = search(fl, narrowed(s, dir));
    let c = choose|c: int|
        standing_on(fl, f, s, c) && forall|i: int|
            c < i < run.len() && (#[trigger] run[i]).header.seq <= s.curr_high ==> !has_boundary(
                run[i],
            );
    assert(bound_page(run, c, s.left as int, s.right as int));
    lemma_fewer_pages(
        run,
        s.left as int,
        s.right as int,
        s1.left as int,
        s1.right as int,
        c,
        n,
    );
}

/// A search that goes on after it has found a page, with one goal.
proof fn lemma_go_on(fl: Seq<Seq<u8>>, f: FileModel, s: SearchModel, k: Caller, n: nat, goal: int)
    requires
        searchable(fl, f),
        f.end < u32::MAX,
        whole(fl, f),
        found(fl, f, s),
    ensures
        can_go_on(fl, s, k, n),
        ({
            let (s1, r) = go_on(fl, s, k, n);
            let run = file_run(fl, f);
            &&& searched(fl, f, s1, r)
            &&& r == Ok::<bool, Error>(true) ==> n < bound_pages(
                run,
                s.left as int,
                s.right as int,
                run.len() as int,
            )
            &&& brackets(fl, f, s, goal) && (forall|t: SearchModel| #[trigger]
                found(fl, f, t) ==> (k.sends)(t) == toward(t, goal)) ==> brackets(fl, f, s1, goal)
        }),
    decreases n,
{
    let run = file_run(fl, f);
    let t = looked_at(s, k);
    let dir = (k.sends)(s);
    law_search_resting(fl, f, s, (k.leaves)(s));
    law_search_whole(fl, f, t);
    law_search_step(fl, f, t, dir);
    lemma_step_uses_page(fl, f, t, dir);
    if n > 0 {
        let (s1, r) = search(fl, narrowed(t, dir));
        if brackets(fl, f, s, goal) {
            assert(brackets(fl, f, t, goal));
        }
        if r == Ok::<bool, Error>(true) {
            lemma_go_on(fl, f, s1, k, (n - 1) as nat, goal);
        }
    }
}

/// In a file from which nothing has been dropped, a search never fails, whatever the caller reads
/// and wherever it sends the search, and it finds a record at most as often as the file has pages:
/// the start and as many steps as there are pages come to its end.
pub proof fn law_search_comes_to_its_end(
    fl: Seq<Seq<u8>>,
    f: FileModel,
    s: SearchModel,
    k: Caller,
    n: nat,
)
    requires
        searchable(fl, f),
        f.end < u32::MAX,
        whole(fl, f),
        s.left_page == NO_PAGE,
    ensures
        start_ready(fl, s, f),
        start_search(fl, s, f).1 == Ok::<bool, Error>(true),
        can_go_on(fl, start_search(fl, s, f).0, k, n),
        searched(fl, f, whole_search(fl, s, f, k, n).0, whole_search(fl, s, f, k, n).1),
        n >= file_run(fl, f).len() ==> whole_search(fl, s, f, k, n).1 == Ok::<bool, Error>(false),
{
    law_search_start(fl, f, s);
    let s1 = start_search(fl, s, f).0;
    lemma_go_on(fl, f, s1, k, n, 0);
    lemma_step_uses_page(fl, f, s1, SeekDirection::Left);
}

/// The record boundary that the header of a page names.
pub open spec fn record_of(pp: Ptr) -> int {
    pp.header.seq + pp.header.record_boundary
}

/// Whether what is asked of records is so of the first ones and not of the others, as far as page
/// headers name them. With records in ascending order, to have a lower key is such a thing.
pub open spec fn ascending(run: Seq<Ptr>, lower: spec_fn(int) -> bool) -> bool {
    forall|i: int, j: int|
        0 <= i < j < run.len() && has_boundary(#[trigger] run[i]) && has_boundary(
            #[trigger] run[j],
        ) && lower(record_of(run[j])) ==> lower(record_of(run[i]))
}

/// There is a sequence number that the pages whose records are lower start before, and the others
/// behind.
proof fn lemma_goal(
    fl: Seq<Seq<u8>>,
    f: FileModel,
    lower: spec_fn(int) -> bool,
    n: int,
) -> (goal: int)
    requires
        searchable(fl, f),
        ascending(file_run(fl, f), lower),
        0 <= n <= file_run(fl, f).len(),
    ensures
        forall|i: int|
            0 <= i < n && has_boundary(#[trigger] file_run(fl, f)[i]) ==> (file_run(
                fl,
                f,
            )[i].header.seq <= goal <==> lower(record_of(file_run(fl, f)[i]))),
        n < file_run(fl, f).len() ==> goal < file_run(fl, f)[n].header.seq,
    decreases n,
{
    let run = file_run(fl, f);
    lemma_run_last(fl, f);
    if n == 0 {
        -1
    } else {
        if n < run.len() {
            lemma_run_sorted(fl, run, f.first, f.end, n - 1, n);
        }
        let pp = run[n - 1];
        if has_boundary(pp) && lower(record_of(pp)) {
            assert forall|i: int| 0 <= i < n && has_boundary(#[trigger] run[i]) implies (
            run[i].header.seq <= pp.header.seq <==> lower(record_of(run[i]))) by {
                if i < n - 1 {
                    lemma_run_sorted(fl, run, f.first, f.end, i, n - 1);
                }
            }
            pp.header.seq as int
        } else {
            lemma_goal(fl, f, lower, n - 1)
        }
    }
}

/// A search for a key, in a file of ascending records from which nothing has been dropped: the
/// caller reads the record that the search is at, and goes on to the right if its key is lower
/// than the one that it wants, and to the left otherwise, until the search comes to its end. The
/// reader is then at the last of the records named by page headers whose key is lower, or at the
/// first of these records if there is none.
pub proof fn law_search_finds_key(
    fl: Seq<Seq<u8>>,
    f: FileModel,
    s: SearchModel,
    k: Caller,
    lower: spec_fn(int) -> bool,
    n: nat,
) -> (c: int)
    requires
        searchable(fl, f),
        f.end < u32::MAX,
        whole(fl, f),
        s.left_page == NO_PAGE,
        ascending(file_run(fl, f), lower),
        forall|t: SearchModel| #[trigger]
            found(fl, f, t) ==> (k.sends)(t) == (if lower(curr_record(fl, t)) {
                SeekDirection::Right
            } else {
                SeekDirection::Left
            }),
        n >= file_run(fl, f).len(),
    ensures
        ({
            let run = file_run(fl, f);
            let (s1, r) = whole_search(fl, s, f, k, n);
            &&& r == Ok::<bool, Error>(false)
            &&& at_page(fl, f, s1, c)
            &&& reader_at(fl, f, s1.reader, record_of(run[c]) - f.first)
            &&& c == 0 || lower(record_of(run[c]))
            &&& forall|i: int|
                c < i < run.len() && has_boundary(#[trigger] run[i]) ==> !lower(record_of(run[i]))
        }),
{
    let run = file_run(fl, f);
    lemma_run_last(fl, f);
    let goal = lemma_goal(fl, f, lower, run.len() as int);
    assert forall|t: SearchModel| #[trigger] found(fl, f, t) implies (k.sends)(t) == toward(
        t,
        goal,
    ) by {
        let c = choose|c: int|
            standing_on(fl, f, t, c) && forall|i: int|
                c < i < run.len() && (#[trigger] run[i]).header.seq <= t.curr_high
                    ==> !has_boundary(run[i]);
        assert(page_ok(fl, run[c]));
        assert(curr_record(fl, t) == record_of(run[c]));
    }
    law_search_start(fl, f, s);
    law_search_comes_to_its_end(fl, f, s, k, n);
    let s0 = start_search(fl, s, f).0;
    let (s1, r) = whole_search(fl, s, f, k, n);
    assert(brackets(fl, f, s0, goal));
    lemma_go_on(fl, f, s0, k, n, goal);
    let c = law_search_end(fl, f, s1, goal);
    lemma_run_page(fl, f, c);
    if c > 0 {
        lemma_run_sorted(fl, run, f.first, f.end, 0, c);
    }
    law_search_reader(fl, f, s1, c);
    c
}

} // verus!
