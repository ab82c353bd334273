//! Well-formed files: the pages of a file, what they hold, and that the skiplist finds its way
//! through them.

use vstd::prelude::*;

use crate::config::{PAGE_COUNT, SKIPLIST_LEN};
use crate::headers::{data_header, data_payload};
use crate::seqnum::{lemma_skip_index, lemma_skip_target, skip_block, skip_index, skip_target};
use crate::store::{chain_rank, empty_file, file_page, find_page, jump, step_back, FileModel, Ptr};
use crate::Error;

verus! {

/// The pages of a walk back from `from` to `limit`, oldest first. `None` if the walk fails.
pub open spec fn chain(fl: Seq<Seq<u8>>, from: Option<Ptr>, limit: u32) -> Option<Seq<Ptr>>
    decreases chain_rank(from),
{
    match from {
        None => Some(Seq::empty()),
        Some(pp) => match step_back(fl, pp, limit) {
            Err(_) => None,
            Ok(q) => match chain(fl, q, limit) {
                None => None,
                Some(run) => Some(run.push(pp)),
            },
        },
    }
}

/// The payload of a page.
pub open spec fn payload(fl: Seq<Seq<u8>>, pp: Ptr) -> Seq<u8> {
    data_payload(fl[pp.page as int])->0
}

/// The sequence number behind the last byte of a page.
pub open spec fn page_end(fl: Seq<Seq<u8>>, pp: Ptr) -> int {
    pp.header.seq + payload(fl, pp).len()
}

/// Whether the device holds the page with that header, and the page has bytes.
pub open spec fn page_ok(fl: Seq<Seq<u8>>, pp: Ptr) -> bool {
    &&& pp.page < PAGE_COUNT
    &&& pp.header.skiplist.len() == SKIPLIST_LEN
    &&& data_header(fl[pp.page as int]) == Some(pp.header)
    &&& data_payload(fl[pp.page as int]) is Some
    &&& payload(fl, pp).len() > 0
    &&& page_end(fl, pp) <= u32::MAX
}

/// Whether page `k` of a run contains the byte with sequence number `x`, seen from a later page.
pub open spec fn run_holds(run: Seq<Ptr>, k: int, x: int) -> bool {
    run[k].header.seq <= x < run[k + 1].header.seq
}

/// Whether back pointer `j` of page `i` leads to the page with the largest multiple of the block
/// of `j` before page `i`, provided that page is in the run.
pub open spec fn skip_ok(run: Seq<Ptr>, i: int, j: int) -> bool {
    let seq = run[i].header.seq;
    seq > 0 && skip_target(seq, j) >= run[0].header.seq ==> exists|k: int|
        0 <= k < i && #[trigger] run_holds(run, k, skip_target(seq, j))
            && run[i].header.skiplist[j] == run[k].page
}

/// Whether a run of pages holds the bytes of a file from `first` to `end`.
pub open spec fn run_ok(fl: Seq<Seq<u8>>, run: Seq<Ptr>, first: u32, end: u32) -> bool {
    &&& run.len() > 0
    &&& forall|i: int| 0 <= i < run.len() ==> page_ok(fl, #[trigger] run[i])
    &&& forall|i: int|
        #![trigger run[i]]
        0 <= i < run.len() - 1 ==> page_end(fl, run[i]) == run[i + 1].header.seq
    &&& page_end(fl, run.last()) == end
    &&& run[0].header.seq <= first < page_end(fl, run[0])
    &&& forall|i: int, j: int| 0 <= i < run.len() && 0 <= j < SKIPLIST_LEN ==> skip_ok(run, i, j)
}

/// The pages of a file.
#[verifier::opaque]
pub open spec fn file_run(fl: Seq<Seq<u8>>, f: FileModel) -> Seq<Ptr> {
    match chain(fl, f.last, f.first) {
        Some(run) => run,
        None => Seq::empty(),
    }
}

/// A well-formed file: it is empty, or the walk back from its last page gives a run of pages
/// that holds its bytes.
#[verifier::opaque]
pub open spec fn file_ok(fl: Seq<Seq<u8>>, f: FileModel) -> bool {
    if f.last is None {
        f == empty_file()
    } else {
        &&& chain(fl, f.last, f.first) is Some
        &&& run_ok(fl, file_run(fl, f), f.first, f.end)
    }
}

/// What a run of pages holds.
pub open spec fn run_bytes(fl: Seq<Seq<u8>>, run: Seq<Ptr>) -> Seq<u8>
    decreases run.len(),
{
    if run.len() == 0 {
        Seq::empty()
    } else {
        run_bytes(fl, run.drop_last()) + payload(fl, run.last())
    }
}

/// The bytes of a file.
#[verifier::opaque]
pub open spec fn contents(fl: Seq<Seq<u8>>, f: FileModel) -> Seq<u8> {
    let run = file_run(fl, f);
    if f.last is None {
        Seq::empty()
    } else {
        run_bytes(fl, run).skip(f.first - run[0].header.seq)
    }
}

/// Pages of a run start one after the other.
pub proof fn lemma_run_sorted(fl: Seq<Seq<u8>>, run: Seq<Ptr>, first: u32, end: u32, a: int, b: int)
    requires
        run_ok(fl, run, first, end),
        0 <= a < b < run.len(),
    ensures
        run[a].header.seq < run[b].header.seq,
        page_end(fl, run[a]) <= run[b].header.seq,
    decreases b - a,
{
    assert(page_ok(fl, run[a]));
    if a + 1 < b {
        assert(page_ok(fl, run[a + 1]));
        lemma_run_sorted(fl, run, first, end, a + 1, b);
    }
}

/// No page occurs twice in a run.
pub proof fn lemma_run_distinct(
    fl: Seq<Seq<u8>>,
    run: Seq<Ptr>,
    first: u32,
    end: u32,
    a: int,
    b: int,
)
    requires
        run_ok(fl, run, first, end),
        0 <= a < run.len(),
        0 <= b < run.len(),
        run[a].page == run[b].page,
    ensures
        a == b,
{
    assert(page_ok(fl, run[a]) && page_ok(fl, run[b]));
    if a < b {
        lemma_run_sorted(fl, run, first, end, a, b);
    }
    if b < a {
        lemma_run_sorted(fl, run, first, end, b, a);
    }
}

/// The previous page of a page of a run is the page before it in the run.
pub proof fn lemma_run_step(fl: Seq<Seq<u8>>, run: Seq<Ptr>, first: u32, end: u32, i: int, limit: u32)
    requires
        run_ok(fl, run, first, end),
        0 < i < run.len(),
        limit < run[i].header.seq,
    ensures
        step_back(fl, run[i], limit) == Ok::<Option<Ptr>, Error>(Some(run[i - 1])),
        run[i - 1].header.seq < run[i].header.seq,
{
    lemma_run_sorted(fl, run, first, end, i - 1, i);
    if i > 1 {
        lemma_run_sorted(fl, run, first, end, 0, i - 1);
    }
    let seq = run[i].header.seq;
    lemma_skip_target(seq, 0);
    assert(skip_block(0) == 1);
    assert(skip_target(seq, 0) == seq - 1);
    assert(skip_ok(run, i, 0));
    let k = choose|k: int|
        0 <= k < i && #[trigger] run_holds(run, k, seq - 1) && run[i].header.skiplist[0]
            == run[k].page;
    assert(k == i - 1) by {
        if k < i - 1 {
            if k + 1 < i - 1 {
                lemma_run_sorted(fl, run, first, end, k + 1, i - 1);
            }
        }
    }
    assert(page_ok(fl, run[i - 1]));
}

/// A run of pages is what the walk back from its last page finds.
pub proof fn lemma_chain_of_run(fl: Seq<Seq<u8>>, run: Seq<Ptr>, first: u32, end: u32)
    requires
        run_ok(fl, run, first, end),
    ensures
        chain(fl, Some(run.last()), first) == Some(run),
{
    lemma_chain_prefix(fl, run, first, end, run.len() - 1);
    assert(run.subrange(0, run.len() as int) =~= run);
}

/// Walking back from a page of a run finds the part of the run up to that page.
pub proof fn lemma_chain_prefix(fl: Seq<Seq<u8>>, run: Seq<Ptr>, first: u32, end: u32, i: int)
    requires
        run_ok(fl, run, first, end),
        0 <= i < run.len(),
    ensures
        chain(fl, Some(run[i]), first) == Some(run.subrange(0, i + 1)),
    decreases i,
{
    if i == 0 {
        assert(step_back(fl, run[0], first) == Ok::<Option<Ptr>, Error>(None));
        assert(chain(fl, None, first) == Some(Seq::<Ptr>::empty()));
        assert(Seq::<Ptr>::empty().push(run[0]) =~= run.subrange(0, 1));
    } else {
        lemma_run_sorted(fl, run, first, end, 0, i);
        lemma_run_step(fl, run, first, end, i, first);
        lemma_chain_prefix(fl, run, first, end, i - 1);
        assert(run.subrange(0, i).push(run[i]) =~= run.subrange(0, i + 1));
    }
}

/// A file is well-formed if there is a run of pages for it, and then that is its run.
pub proof fn lemma_file_ok_of_run(fl: Seq<Seq<u8>>, f: FileModel, run: Seq<Ptr>)
    requires
        run_ok(fl, run, f.first, f.end),
        f.last == Some(run.last()),
    ensures
        file_ok(fl, f),
        file_run(fl, f) == run,
{
    reveal(file_ok);
    reveal(file_run);
    lemma_chain_of_run(fl, run, f.first, f.end);
}

/// The last page of a file ends its run.
pub proof fn lemma_run_last(fl: Seq<Seq<u8>>, f: FileModel)
    requires
        file_ok(fl, f),
        f.last is Some,
    ensures
        file_run(fl, f).len() > 0,
        file_run(fl, f).last() == f.last->0,
        run_ok(fl, file_run(fl, f), f.first, f.end),
        f.first < f.end,
        f.last->0.header.seq < f.end,
{
    reveal(file_ok);
    reveal(file_run);
    let run = file_run(fl, f);
    let pp = f.last->0;
    assert(run.last() == pp) by {
        let q = step_back(fl, pp, f.first)->Ok_0;
        let r = chain(fl, q, f.first)->0;
        assert(run == r.push(pp));
    }
    assert(page_ok(fl, run.last()));
    if run.len() > 1 {
        lemma_run_sorted(fl, run, f.first, f.end, 0, run.len() - 1);
    }
}

/// An empty file.
pub proof fn lemma_empty_file(fl: Seq<Seq<u8>>, f: FileModel)
    requires
        f.last is None,
    ensures
        file_ok(fl, f) <==> f == empty_file(),
        file_run(fl, f) == Seq::<Ptr>::empty(),
        contents(fl, f) == Seq::<u8>::empty(),
{
    reveal(file_ok);
    reveal(file_run);
    reveal(contents);
}

/// A file stays as it is when the device changes elsewhere.
pub proof fn lemma_file_frame(fl: Seq<Seq<u8>>, fl2: Seq<Seq<u8>>, f: FileModel)
    requires
        file_ok(fl, f),
        forall|k: int|
            #![trigger file_run(fl, f)[k]]
            0 <= k < file_run(fl, f).len() ==> fl2[file_run(fl, f)[k].page as int]
                == fl[file_run(fl, f)[k].page as int],
    ensures
        file_ok(fl2, f),
        file_run(fl2, f) == file_run(fl, f),
        contents(fl2, f) == contents(fl, f),
{
    reveal(file_ok);
    reveal(file_run);
    reveal(contents);
    if f.last is Some {
        let run = file_run(fl, f);
        lemma_run_last(fl, f);
        assert forall|i: int| 0 <= i < run.len() implies page_ok(fl2, #[trigger] run[i])
            && page_end(fl2, run[i]) == page_end(fl, run[i]) by {
            assert(page_ok(fl, run[i]));
        }
        assert(run_ok(fl2, run, f.first, f.end));
        lemma_file_ok_of_run(fl2, f, run);
        lemma_run_bytes_frame(fl, fl2, run);
    } else {
        assert(file_run(fl, f) =~= file_run(fl2, f));
    }
}

pub proof fn lemma_run_bytes_frame(fl: Seq<Seq<u8>>, fl2: Seq<Seq<u8>>, run: Seq<Ptr>)
    requires
        forall|k: int|
            #![trigger run[k]]
            0 <= k < run.len() ==> fl2[run[k].page as int] == fl[run[k].page as int],
    ensures
        run_bytes(fl2, run) == run_bytes(fl, run),
    decreases run.len(),
{
    if run.len() > 0 {
        assert forall|k: int|
            #![trigger run.drop_last()[k]]
            0 <= k < run.drop_last().len() implies fl2[run.drop_last()[k].page as int]
            == fl[run.drop_last()[k].page as int] by {
            assert(run.drop_last()[k] == run[k]);
        }
        lemma_run_bytes_frame(fl, fl2, run.drop_last());
        assert(run.last() == run[run.len() - 1]);
    }
}

/// Where the bytes of a page are among the bytes of a run.
pub proof fn lemma_run_bytes(fl: Seq<Seq<u8>>, run: Seq<Ptr>, n: int)
    requires
        0 < n <= run.len(),
        forall|i: int| 0 <= i < run.len() ==> page_ok(fl, #[trigger] run[i]),
        forall|i: int|
            #![trigger run[i]]
            0 <= i < run.len() - 1 ==> page_end(fl, run[i]) == run[i + 1].header.seq,
    ensures
        run_bytes(fl, run.subrange(0, n)).len() == page_end(fl, run[n - 1]) - run[0].header.seq,
        forall|k: int|
            #![trigger run[k]]
            0 <= k < n ==> {
                let at = run[k].header.seq - run[0].header.seq;
                &&& 0 <= at
                &&& at + payload(fl, run[k]).len() <= run_bytes(fl, run.subrange(0, n)).len()
                &&& run_bytes(fl, run.subrange(0, n)).subrange(
                    at,
                    at + payload(fl, run[k]).len(),
                ) == payload(fl, run[k])
            },
    decreases n,
{
    let part = run.subrange(0, n);
    let bytes = run_bytes(fl, part);
    let last = payload(fl, run[n - 1]);
    assert(part.last() == run[n - 1]);
    assert(part.drop_last() =~= run.subrange(0, n - 1));
    let before = run_bytes(fl, run.subrange(0, n - 1));
    assert(bytes == before + last);
    if n > 1 {
        lemma_run_bytes(fl, run, n - 1);
        assert(page_end(fl, run[n - 2]) == run[n - 1].header.seq);
    } else {
        assert(before =~= Seq::empty());
    }
    assert forall|k: int|
        #![trigger run[k]]
        0 <= k < n implies {
        let at = run[k].header.seq - run[0].header.seq;
        &&& 0 <= at
        &&& at + payload(fl, run[k]).len() <= bytes.len()
        &&& bytes.subrange(at, at + payload(fl, run[k]).len()) == payload(fl, run[k])
    } by {
        let at = run[k].header.seq - run[0].header.seq;
        if k < n - 1 {
            assert(before.subrange(at, at + payload(fl, run[k]).len()) == payload(fl, run[k]));
            assert(bytes.subrange(at, at + payload(fl, run[k]).len()) =~= before.subrange(
                at,
                at + payload(fl, run[k]).len(),
            ));
        } else {
            assert(at == before.len());
            assert(bytes.subrange(at, at + last.len()) =~= last);
        }
    }
}

/// The length of a file.
pub proof fn lemma_contents_len(fl: Seq<Seq<u8>>, f: FileModel)
    requires
        file_ok(fl, f),
    ensures
        f.first <= f.end,
        contents(fl, f).len() == f.end - f.first,
{
    if f.last is Some {
        let run = file_run(fl, f);
        lemma_run_last(fl, f);
        lemma_run_bytes(fl, run, run.len() as int);
        assert(run.subrange(0, run.len() as int) =~= run);
        reveal(contents);
        lemma_run_start(fl, f);
    } else {
        lemma_empty_file(fl, f);
    }
}

/// The first page of a file starts at or before its first byte, and the other pages behind it.
pub proof fn lemma_run_start(fl: Seq<Seq<u8>>, f: FileModel)
    requires
        file_ok(fl, f),
        f.last is Some,
    ensures
        file_run(fl, f)[0].header.seq <= f.first < f.end,
        page_end(fl, file_run(fl, f).last()) == f.end,
{
    lemma_run_last(fl, f);
}

/// The pages of a file are as they should be, and end where the next page starts.
pub proof fn lemma_run_page(fl: Seq<Seq<u8>>, f: FileModel, k: int)
    requires
        file_ok(fl, f),
        0 <= k < file_run(fl, f).len(),
    ensures
        f.last is Some,
        page_ok(fl, file_run(fl, f)[k]),
        page_end(fl, file_run(fl, f)[k]) <= f.end,
        k + 1 < file_run(fl, f).len() ==> page_end(fl, file_run(fl, f)[k]) == file_run(
            fl,
            f,
        )[k + 1].header.seq,
        k > 0 ==> file_run(fl, f)[k].header.seq > f.first,
{
    if f.last is None {
        lemma_empty_file(fl, f);
    } else {
        lemma_run_last(fl, f);
        let run = file_run(fl, f);
        assert(page_ok(fl, run[k]));
        if k + 1 < run.len() {
            lemma_run_sorted(fl, run, f.first, f.end, k, run.len() - 1);
            assert(page_ok(fl, run[run.len() - 1]));
        }
        if k > 0 {
            lemma_run_sorted(fl, run, f.first, f.end, 0, k);
        }
    }
}

/// Where the bytes of a page are among the bytes of the file.
pub proof fn lemma_contents_slice(fl: Seq<Seq<u8>>, f: FileModel, k: int, x: int, c: int)
    requires
        file_ok(fl, f),
        0 <= k < file_run(fl, f).len(),
        0 <= c,
        f.first <= x,
        file_run(fl, f)[k].header.seq <= x,
        x + c <= page_end(fl, file_run(fl, f)[k]),
    ensures
        x + c <= f.end,
        contents(fl, f).subrange(x - f.first, x - f.first + c) == payload(
            fl,
            file_run(fl, f)[k],
        ).subrange(
            x - file_run(fl, f)[k].header.seq,
            x - file_run(fl, f)[k].header.seq + c,
        ),
{
    lemma_run_page(fl, f, k);
    lemma_run_last(fl, f);
    lemma_run_start(fl, f);
    lemma_contents_len(fl, f);
    let run = file_run(fl, f);
    lemma_run_bytes(fl, run, run.len() as int);
    assert(run.subrange(0, run.len() as int) =~= run);
    reveal(contents);
    let bytes = run_bytes(fl, run);
    let b = payload(fl, run[k]);
    let at = run[k].header.seq - run[0].header.seq;
    let s = bytes.subrange(at, at + b.len());
    assert(s == b);
    let from = x - run[k].header.seq;
    assert(contents(fl, f).subrange(x - f.first, x - f.first + c) =~= s.subrange(from, from + c));
}

/// The walk along the skiplist from a page of a run ends at the page that holds `seq`.
pub proof fn lemma_find_in_run(
    fl: Seq<Seq<u8>>,
    run: Seq<Ptr>,
    first: u32,
    end: u32,
    i: int,
    seq: u32,
) -> (k: int)
    requires
        run_ok(fl, run, first, end),
        0 <= i < run.len(),
        run[0].header.seq <= seq < page_end(fl, run[i]),
    ensures
        0 <= k <= i,
        run[k].header.seq <= seq < page_end(fl, run[k]),
        find_page(fl, run[i], seq) == Ok::<Ptr, Error>(run[k]),
    decreases i,
{
    if run[i].header.seq <= seq {
        i
    } else {
        let s = run[i].header.seq;
        let idx = skip_index(seq, s);
        lemma_skip_index(seq, s);
        lemma_skip_target(s, idx);
        let t = skip_target(s, idx);
        assert(t >= seq);
        assert(skip_ok(run, i, idx));
        let q = choose|q: int|
            0 <= q < i && #[trigger] run_holds(run, q, t) && run[i].header.skiplist[idx]
                == run[q].page;
        assert(page_ok(fl, run[q]));
        assert(page_end(fl, run[q]) == run[q + 1].header.seq);
        lemma_run_sorted(fl, run, first, end, q, i);
        assert(jump(fl, run[i], idx) == Ok::<Option<Ptr>, Error>(Some(run[q])));
        let k = lemma_find_in_run(fl, run, first, end, q, seq);
        k
    }
}

/// Every byte of a file is found on the page that holds it.
pub proof fn lemma_file_page_found(fl: Seq<Seq<u8>>, f: FileModel, seq: u32) -> (k: int)
    requires
        file_ok(fl, f),
        f.first <= seq < f.end,
    ensures
        0 <= k < file_run(fl, f).len(),
        file_run(fl, f)[k].header.seq <= seq < page_end(fl, file_run(fl, f)[k]),
        file_page(fl, f, seq) == Ok::<Option<Ptr>, Error>(Some(file_run(fl, f)[k])),
{
    reveal(file_ok);
    let run = file_run(fl, f);
    lemma_run_last(fl, f);
    lemma_find_in_run(fl, run, f.first, f.end, run.len() - 1, seq)
}

/// Back pointer `j` of a page leads to the latest page before it that has a byte whose sequence
/// number is a multiple of `skip_block(j)`, provided there is such a page in the file. Pointer 0
/// leads to the previous page.
pub proof fn law_skiplist(fl: Seq<Seq<u8>>, f: FileModel, i: int, j: int) -> (k: int)
    requires
        file_ok(fl, f),
        0 <= i < file_run(fl, f).len(),
        0 <= j < SKIPLIST_LEN,
        file_run(fl, f)[i].header.seq > 0,
        skip_target(file_run(fl, f)[i].header.seq, j) >= file_run(fl, f)[0].header.seq,
    ensures
        ({
            let run = file_run(fl, f);
            let x = skip_target(run[i].header.seq, j);
            &&& 0 <= k < i
            &&& run[i].header.skiplist[j] == run[k].page
            &&& x % skip_block(j) == 0
            &&& run[k].header.seq <= x < page_end(fl, run[k])
            &&& forall|y: int| #[trigger]
                (y % skip_block(j)) == 0 && y < run[i].header.seq ==> y < page_end(fl, run[k])
            &&& j == 0 ==> k == i - 1
        }),
{
    let run = file_run(fl, f);
    lemma_run_page(fl, f, i);
    lemma_run_last(fl, f);
    let seq = run[i].header.seq;
    let x = skip_target(seq, j);
    lemma_skip_target(seq, j);
    assert(skip_ok(run, i, j));
    let k = choose|k: int|
        0 <= k < i && #[trigger] run_holds(run, k, x) && run[i].header.skiplist[j] == run[k].page;
    assert(page_end(fl, run[k]) == run[k + 1].header.seq);
    if j == 0 && k < i - 1 {
        assert(skip_block(0) == 1);
        lemma_run_sorted(fl, run, f.first, f.end, k + 1, i);
    }
    k
}

} // verus!
