//! How much there is room for.

use vstd::prelude::*;

use crate::allocator::{has_free, lemma_lowest_free_from, lowest_free};
use crate::config::PAGE_COUNT;
use crate::headers::PAGE_MAX_PAYLOAD_SIZE;
use crate::mount_laws::blank;
use crate::store::{all_free, Store};
use crate::writer::{append, append_has_space, fitting, make_room, WriterModel};

verus! {

/// The number of free pages among the first `k`.
pub open spec fn free_among(used: Seq<bool>, k: int) -> int
    decreases k,
{
    if k <= 0 {
        0
    } else if used[k - 1] {
        free_among(used, k - 1)
    } else {
        free_among(used, k - 1) + 1
    }
}

/// The number of free pages.
pub open spec fn free_pages(used: Seq<bool>) -> int {
    free_among(used, used.len() as int)
}

/// How many bytes a writer takes without a new page.
pub open spec fn room(w: WriterModel) -> int {
    match w.page {
        Some(op) => PAGE_MAX_PAYLOAD_SIZE - op.buf.len(),
        None => 0,
    }
}

/// How many new pages a writer needs for `n` bytes.
pub open spec fn pages_needed(w: WriterModel, n: int) -> int {
    if n <= room(w) {
        0
    } else {
        (n - room(w) + PAGE_MAX_PAYLOAD_SIZE - 1) / (PAGE_MAX_PAYLOAD_SIZE as int)
    }
}

/// `pages_needed`, with the size of a page written out.
pub proof fn lemma_pages_needed(w: WriterModel, n: int)
    requires
        n > room(w),
    ensures
        pages_needed(w, n) == (n - room(w) + 231) / 232,
{
    assert(PAGE_MAX_PAYLOAD_SIZE == 232);
}

proof fn lemma_free_among(used: Seq<bool>, k: int)
    requires
        0 <= k <= used.len(),
    ensures
        0 <= free_among(used, k) <= k,
        free_among(used, k) == 0 <==> forall|i: int| 0 <= i < k ==> used[i],
    decreases k,
{
    if k > 0 {
        lemma_free_among(used, k - 1);
        if free_among(used, k) == 0 {
            assert forall|i: int| 0 <= i < k implies used[i] by {}
        }
        if forall|i: int| 0 <= i < k ==> used[i] {
            assert(used[k - 1]);
        }
    }
}

proof fn lemma_take_page(used: Seq<bool>, p: int, k: int)
    requires
        0 <= k <= used.len(),
        0 <= p < used.len(),
        !used[p],
    ensures
        free_among(used.update(p, true), k) == free_among(used, k) - (if p < k {
            1int
        } else {
            0
        }),
    decreases k,
{
    if k > 0 {
        lemma_take_page(used, p, k - 1);
    }
}

/// A page can be allocated exactly if there is a free one, and then there is one less.
pub proof fn law_allocate(used: Seq<bool>)
    ensures
        has_free(used) <==> free_pages(used) > 0,
        has_free(used) ==> free_pages(used.update(lowest_free(used), true)) == free_pages(used)
            - 1,
{
    lemma_lowest_free_from(used, 0);
    lemma_free_among(used, used.len() as int);
    if has_free(used) {
        lemma_take_page(used, lowest_free(used), used.len() as int);
    } else {
        assert forall|i: int| 0 <= i < used.len() implies used[i] by {}
    }
}

/// There is room for bytes exactly if there are as many free pages as they need, and appending
/// them takes that many. A page takes `PAGE_MAX_PAYLOAD_SIZE` bytes.
pub proof fn law_space(st: Store, w: WriterModel, data: Seq<u8>)
    requires
        st.used.len() == PAGE_COUNT,
        w.wf(),
        w.position() + data.len() <= u32::MAX,
    ensures
        append_has_space(st, w, data) <==> pages_needed(w, data.len() as int) <= free_pages(
            st.used,
        ),
        append_has_space(st, w, data) ==> free_pages(append(st, w, data).0.used) == free_pages(
            st.used,
        ) - pages_needed(w, data.len() as int),
    decreases data.len(),
{
    law_allocate(st.used);
    lemma_free_among(st.used, st.used.len() as int);
    lemma_lowest_free_from(st.used, 0);
    if data.len() > room(w) {
        lemma_pages_needed(w, data.len() as int);
    }
    if data.len() > 0 {
        let (st1, w1, r) = make_room(st, w);
        let n = fitting(w1, data.len() as int);
        let head = data.subrange(0, n);
        let tail = data.subrange(n, data.len() as int);
        if w.needs_page() && !has_free(st.used) {
            assert(pages_needed(w, data.len() as int) > 0);
        } else {
            let w2 = w1.filled(head);
            law_space(st1, w2, tail);
            if tail.len() > room(w2) {
                lemma_pages_needed(w2, tail.len() as int);
            }
            let total = data.len() as int;
            if w.needs_page() {
                assert(room(w) == 0);
                assert(room(w2) == PAGE_MAX_PAYLOAD_SIZE - n);
                assert(pages_needed(w, total) == 1 + pages_needed(w2, total - n));
            } else {
                assert(room(w2) == room(w) - n);
                assert(pages_needed(w, total) == pages_needed(w2, total - n));
            }
        }
    }
}

proof fn lemma_all_free(k: int)
    requires
        0 <= k <= PAGE_COUNT,
    ensures
        free_among(all_free(), k) == k,
    decreases k,
{
    if k > 0 {
        lemma_all_free(k - 1);
    }
}

/// After formatting and mounting, every page but one is free.
pub proof fn law_blank_space(fl: Seq<Seq<u8>>)
    ensures
        free_pages(blank(fl).used) == PAGE_COUNT - 1,
{
    lemma_all_free(PAGE_COUNT as int);
    lemma_take_page(all_free(), 0, PAGE_COUNT as int);
}

} // verus!
