//! Sound stores: every file is well-formed, and every page has at most one owner.

use vstd::prelude::*;

use crate::allocator::{has_free, lemma_lowest_free_from, lowest_free};
use crate::chain::{
    contents, file_ok, file_run, lemma_contents_len, lemma_empty_file, lemma_file_frame,
    lemma_run_last,
};
use crate::config::{FILE_COUNT, PAGE_COUNT};
use crate::flash::flash_shape;
use crate::store::{empty_file, Ptr, Store};

verus! {

/// Whether a page is in a run.
pub open spec fn run_has(run: Seq<Ptr>, p: int) -> bool {
    exists|k: int| 0 <= k < run.len() && (#[trigger] run[k]).page == p
}

/// The pages of a file.
pub open spec fn pages_of(st: Store, fid: int) -> Seq<Ptr> {
    file_run(st.flash, st.files[fid])
}

/// The bytes of a file.
pub open spec fn file_bytes(st: Store, fid: int) -> Seq<u8> {
    contents(st.flash, st.files[fid])
}

/// A sound store: all files are well-formed, their pages and the meta page are marked as used,
/// and no page belongs to two of them.
pub open spec fn sound(st: Store) -> bool {
    &&& st.wf()
    &&& st.used[st.meta_page as int]
    &&& forall|fid: int| 0 <= fid < FILE_COUNT ==> file_ok(st.flash, #[trigger] st.files[fid])
    &&& forall|fid: int, p: int|
        0 <= fid < FILE_COUNT && #[trigger] run_has(pages_of(st, fid), p) ==> 0 <= p < PAGE_COUNT
            && st.used[p] && p != st.meta_page
    &&& forall|a: int, b: int, p: int|
        0 <= a < FILE_COUNT && 0 <= b < FILE_COUNT && a != b && #[trigger] run_has(
            pages_of(st, a),
            p,
        ) ==> !#[trigger] run_has(pages_of(st, b), p)
}

/// Whether a page belongs to a file.
pub open spec fn in_file(st: Store, p: int) -> bool {
    exists|fid: int| 0 <= fid < FILE_COUNT && #[trigger] run_has(pages_of(st, fid), p)
}

/// Whether exactly the pages of the files and the meta page are marked as used.
pub open spec fn tight(st: Store) -> bool {
    forall|p: int|
        0 <= p < PAGE_COUNT ==> (#[trigger] st.used[p] <==> p == st.meta_page || in_file(st, p))
}

/// Changing pages that belong to no file changes no file.
pub proof fn lemma_files_frame(st: Store, st2: Store)
    requires
        sound(st),
        st2.files == st.files,
        forall|p: int|
            0 <= p < PAGE_COUNT && #[trigger] st2.flash[p] != st.flash[p] ==> !in_file(st, p),
    ensures
        forall|fid: int|
            #![trigger st.files[fid]]
            #![trigger pages_of(st2, fid)]
            0 <= fid < FILE_COUNT ==> file_ok(st2.flash, st.files[fid]) && pages_of(st2, fid)
                == pages_of(st, fid) && file_bytes(st2, fid) == file_bytes(st, fid),
{
    assert forall|fid: int|
        #![trigger st.files[fid]]
        #![trigger pages_of(st2, fid)]
        0 <= fid < FILE_COUNT implies file_ok(st2.flash, st.files[fid]) && pages_of(st2, fid)
        == pages_of(st, fid) && file_bytes(st2, fid) == file_bytes(st, fid) by {
        let f = st.files[fid];
        let run = file_run(st.flash, f);
        assert forall|k: int|
            #![trigger file_run(st.flash, f)[k]]
            0 <= k < run.len() implies st2.flash[run[k].page as int]
            == st.flash[run[k].page as int] by {
            let p = run[k].page as int;
            assert(run_has(pages_of(st, fid), p));
        }
        lemma_file_frame(st.flash, st2.flash, f);
    }
}

/// A store stays sound when pages that belong to no file change, and the pages of the files stay
/// in use.
pub proof fn lemma_sound_frame(st: Store, st2: Store)
    requires
        sound(st),
        flash_shape(st2.flash),
        st2.files == st.files,
        st2.meta_page < PAGE_COUNT,
        !in_file(st, st2.meta_page as int),
        st2.used.len() == PAGE_COUNT,
        st2.used[st2.meta_page as int],
        forall|p: int| 0 <= p < PAGE_COUNT && in_file(st, p) ==> #[trigger] st2.used[p],
        forall|p: int|
            0 <= p < PAGE_COUNT && #[trigger] st2.flash[p] != st.flash[p] ==> !in_file(st, p),
    ensures
        sound(st2),
        forall|fid: int|
            0 <= fid < FILE_COUNT ==> #[trigger] pages_of(st2, fid) == pages_of(st, fid),
        forall|fid: int|
            0 <= fid < FILE_COUNT ==> #[trigger] file_bytes(st2, fid) == file_bytes(st, fid),
        forall|p: int| #[trigger] in_file(st2, p) <==> in_file(st, p),
{
    lemma_files_frame(st, st2);
    assert forall|fid: int, p: int|
        0 <= fid < FILE_COUNT && #[trigger] run_has(pages_of(st2, fid), p) implies 0 <= p
        < PAGE_COUNT && st2.used[p] && p != st2.meta_page by {
        assert(pages_of(st2, fid) == pages_of(st, fid));
        assert(run_has(pages_of(st, fid), p));
        assert(in_file(st, p));
    }
    assert forall|a: int, b: int, p: int|
        0 <= a < FILE_COUNT && 0 <= b < FILE_COUNT && a != b && #[trigger] run_has(
            pages_of(st2, a),
            p,
        ) implies !#[trigger] run_has(pages_of(st2, b), p) by {
        assert(pages_of(st2, a) == pages_of(st, a));
        assert(pages_of(st2, b) == pages_of(st, b));
        assert(run_has(pages_of(st, a), p));
    }
    assert forall|fid: int| 0 <= fid < FILE_COUNT implies #[trigger] file_bytes(st2, fid)
        == file_bytes(st, fid) by {
        assert(pages_of(st2, fid) == pages_of(st, fid));
    }
    assert forall|p: int| #[trigger] in_file(st2, p) <==> in_file(st, p) by {
        if in_file(st2, p) {
            let b = choose|b: int| 0 <= b < FILE_COUNT && #[trigger] run_has(pages_of(st2, b), p);
            assert(pages_of(st2, b) == pages_of(st, b));
            assert(run_has(pages_of(st, b), p));
        }
        if in_file(st, p) {
            let b = choose|b: int| 0 <= b < FILE_COUNT && #[trigger] run_has(pages_of(st, b), p);
            assert(pages_of(st2, b) == pages_of(st, b));
            assert(run_has(pages_of(st2, b), p));
        }
    }
}

/// A file has no pages exactly if it has no bytes.
pub proof fn law_empty(st: Store, fid: int)
    requires
        sound(st),
        0 <= fid < FILE_COUNT,
    ensures
        st.files[fid].last is None <==> file_bytes(st, fid).len() == 0,
        st.files[fid].last is None <==> st.files[fid] == empty_file(),
{
    let f = st.files[fid];
    assert(file_ok(st.flash, f));
    lemma_contents_len(st.flash, f);
    if f.last is None {
        lemma_empty_file(st.flash, f);
    } else {
        lemma_run_last(st.flash, f);
    }
}

/// A page of a file is in use.
pub proof fn lemma_in_file_used(st: Store, p: int)
    requires
        sound(st),
        in_file(st, p),
    ensures
        0 <= p < PAGE_COUNT,
        st.used[p],
        p != st.meta_page,
{
    let fid = choose|fid: int|
        0 <= fid < FILE_COUNT && #[trigger] run_has(pages_of(st, fid), p);
}

/// A newly allocated page belonged to nobody.
pub proof fn lemma_fresh_page(st: Store)
    requires
        sound(st),
        has_free(st.used),
    ensures
        0 <= lowest_free(st.used) < PAGE_COUNT,
        !st.used[lowest_free(st.used)],
        lowest_free(st.used) != st.meta_page,
        !in_file(st, lowest_free(st.used)),
{
    lemma_lowest_free_from(st.used, 0);
}

} // verus!
