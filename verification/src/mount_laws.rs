//! What the meta page keeps, and what mounting gets back from it.

use vstd::prelude::*;

use crate::allocator::{has_free, lemma_lowest_free_from, lowest_free};
use crate::chain::{
    file_ok, lemma_empty_file, lemma_run_distinct, lemma_run_last, lemma_run_page, lemma_run_sorted,
    lemma_run_start, lemma_run_step, page_ok, run_ok,
};
use crate::config::{FileID, FILE_COUNT, PAGE_COUNT};
use crate::flash::{erased_page, flash_shape};
use crate::headers::{
    decode_meta, encode_meta, lemma_meta_appended, lemma_meta_image, lemma_meta_round_trip,
    meta_appended, meta_end, meta_header, meta_image, meta_payload, FileMeta, FILE_META_SIZE,
};
use crate::page::erased_from;
use crate::sound::{
    file_bytes, in_file, law_empty, lemma_fresh_page, lemma_in_file_used, lemma_sound_frame,
    pages_of, run_has, sound, tight,
};
use crate::store::{
    all_free, apply_entry, empty_file, file_entries, file_entry, find_meta, formatted,
    lemma_parse_meta_range, mark_chain, meta_fits, meta_readable, mount, mount_files, no_infos,
    nonempty_files, parse_entries, parse_meta, ptr_wf, rewrite_meta, step_back, write_meta,
    FileInfo, FileModel, Ptr, Store,
};
use crate::types::NO_PAGE;
use crate::Error;

verus! {

/// What the meta page is to say of a file.
pub open spec fn info_of(f: FileModel) -> FileInfo {
    FileInfo {
        last: match f.last {
            Some(pp) => pp.page,
            None => NO_PAGE,
        },
        first: f.first,
    }
}

/// What the meta page says of the files.
pub open spec fn stored_infos(st: Store) -> Option<Seq<FileInfo>> {
    match meta_payload(st.flash[st.meta_page as int]) {
        Some(b) => parse_meta(b),
        None => None,
    }
}

/// Whether the meta page is the latest one, can be added to, and says of every file what the
/// tables say, except for the files in `stale`.
pub open spec fn durable_but(st: Store, stale: Set<int>) -> bool {
    let p = st.flash[st.meta_page as int];
    &&& st.meta_seq > 0
    &&& meta_header(p) == Some(st.meta_seq)
    &&& forall|q: int|
        0 <= q < PAGE_COUNT && q != st.meta_page ==> (meta_header(
            #[trigger] st.flash[q],
        ) matches Some(s) ==> s < st.meta_seq)
    &&& stored_infos(st) is Some
    &&& forall|fid: int|
        #![trigger st.files[fid]]
        0 <= fid < FILE_COUNT && !stale.contains(fid) ==> stored_infos(st)->0[fid] == info_of(
            st.files[fid],
        )
    &&& erased_from(p, meta_end(p))
}

/// Whether the device holds everything that the tables say of the files.
pub open spec fn durable(st: Store) -> bool {
    durable_but(st, Set::empty())
}

/// Whether the device says of every file what the tables say: the meta page is the first one of
/// those with the highest sequence number, and its entries are those of the files.
pub open spec fn recorded(st: Store) -> bool {
    &&& st.meta_seq > 0
    &&& meta_header(st.flash[st.meta_page as int]) == Some(st.meta_seq)
    &&& forall|q: int|
        0 <= q < PAGE_COUNT && q != st.meta_page ==> (meta_header(
            #[trigger] st.flash[q],
        ) matches Some(s) ==> s < st.meta_seq || (q > st.meta_page && s == st.meta_seq))
    &&& stored_infos(st) is Some
    &&& forall|fid: int|
        #![trigger st.files[fid]]
        0 <= fid < FILE_COUNT ==> stored_infos(st)->0[fid] == info_of(st.files[fid])
}

/// Entries are read the same, whatever follows them.
proof fn lemma_parse_prefix(b: Seq<u8>, e: Seq<u8>, k: int)
    requires
        0 <= k,
        k * FILE_META_SIZE <= b.len(),
    ensures
        parse_entries(b + e, k) == parse_entries(b, k),
    decreases k,
{
    if k > 0 {
        lemma_parse_prefix(b, e, k - 1);
        let off = (k - 1) * FILE_META_SIZE;
        let c = b + e;
        assert(c[off] == b[off] && c[off + 1] == b[off + 1] && c[off + 2] == b[off + 2] && c[off
            + 3] == b[off + 3] && c[off + 4] == b[off + 4] && c[off + 5] == b[off + 5] && c[off + 6]
            == b[off + 6] && c[off + 7] == b[off + 7]);
        assert(decode_meta(c, off) == decode_meta(b, off));
    }
}

/// One more entry overrides what the meta page said of that file.
proof fn lemma_parse_entry(b: Seq<u8>, m: FileMeta)
    requires
        parse_meta(b) is Some,
    ensures
        parse_meta(b + encode_meta(m)) == apply_entry(parse_meta(b)->0, m),
{
    let e = encode_meta(m);
    let c = b + e;
    let k = (b.len() / (FILE_META_SIZE as nat)) as int;
    assert(e.len() == FILE_META_SIZE);
    assert(k * FILE_META_SIZE == b.len());
    lemma_parse_prefix(b, e, k);
    assert(c.subrange(b.len() as int, b.len() + FILE_META_SIZE) =~= e);
    lemma_meta_round_trip(m, c, b.len() as int);
    assert(c.len() == (k + 1) * FILE_META_SIZE);
    assert(c.len() % (FILE_META_SIZE as nat) == 0);
    assert((c.len() / (FILE_META_SIZE as nat)) as int == k + 1);
}

/// Whether a file can be described by an entry of the meta page.
pub open spec fn describable(f: FileModel) -> bool {
    match f.last {
        Some(pp) => pp.page < PAGE_COUNT,
        None => f.first == 0,
    }
}

/// The entries of a list of files override what the meta page said of those files.
pub proof fn lemma_parse_file_entries(b: Seq<u8>, files: Seq<FileModel>, fids: Seq<FileID>)
    requires
        parse_meta(b) is Some,
        parse_meta(b)->0.len() == FILE_COUNT,
        files.len() == FILE_COUNT,
        forall|i: int| 0 <= i < fids.len() ==> (#[trigger] fids[i]) < FILE_COUNT,
        forall|i: int| 0 <= i < FILE_COUNT ==> describable(#[trigger] files[i]),
    ensures
        file_entries(files, fids).len() == fids.len() * FILE_META_SIZE,
        ({
            let infos = parse_meta(b + file_entries(files, fids));
            &&& infos is Some
            &&& infos->0.len() == FILE_COUNT
            &&& forall|fid: int|
                0 <= fid < FILE_COUNT ==> #[trigger] infos->0[fid] == (if fids.contains(
                    fid as FileID,
                ) {
                    info_of(files[fid])
                } else {
                    parse_meta(b)->0[fid]
                })
        }),
    decreases fids.len(),
{
    if fids.len() == 0 {
        assert(b + file_entries(files, fids) =~= b);
    } else {
        let d = fids.drop_last();
        let last = fids.last();
        lemma_parse_file_entries(b, files, d);
        let before = file_entries(files, d);
        let m = file_entry(files, last);
        lemma_parse_entry(b + before, m);
        assert(b + file_entries(files, fids) =~= (b + before) + encode_meta(m));
        assert(encode_meta(m).len() == FILE_META_SIZE);
        assert(describable(files[last as int]));
        let infos = parse_meta(b + file_entries(files, fids));
        assert forall|fid: int| 0 <= fid < FILE_COUNT implies #[trigger] infos->0[fid] == (
        if fids.contains(fid as FileID) {
            info_of(files[fid])
        } else {
            parse_meta(b)->0[fid]
        }) by {
            if d.contains(fid as FileID) {
                let k = choose|k: int| 0 <= k < d.len() && d[k] == fid as FileID;
                assert(fids[k] == fid as FileID);
            }
            if fids.contains(fid as FileID) && fid != last {
                let k = choose|k: int| 0 <= k < fids.len() && fids[k] == fid as FileID;
                assert(d[k] == fid as FileID);
            }
            if fid == last {
                assert(fids[fids.len() - 1] == fid as FileID);
            }
        }
    }
}

/// Which files are listed as not empty.
proof fn lemma_nonempty_files(files: Seq<FileModel>, k: int)
    requires
        0 <= k <= FILE_COUNT,
        files.len() == FILE_COUNT,
    ensures
        nonempty_files(files, k).len() <= k,
        forall|i: int|
            0 <= i < nonempty_files(files, k).len() ==> (#[trigger] nonempty_files(files, k)[i])
                < k,
        forall|fid: int|
            0 <= fid < FILE_COUNT ==> (#[trigger] nonempty_files(files, k).contains(fid as FileID)
                <==> fid < k && files[fid].last is Some),
    decreases k,
{
    if k > 0 {
        lemma_nonempty_files(files, k - 1);
        let a = nonempty_files(files, k - 1);
        let b = nonempty_files(files, k);
        if files[k - 1].last is Some {
            assert(b == a.push((k - 1) as FileID));
            assert forall|fid: int| 0 <= fid < FILE_COUNT implies (#[trigger] b.contains(
                fid as FileID,
            ) <==> fid < k && files[fid].last is Some) by {
                if a.contains(fid as FileID) {
                    let i = choose|i: int| 0 <= i < a.len() && a[i] == fid as FileID;
                    assert(b[i] == fid as FileID);
                }
                if b.contains(fid as FileID) && fid != k - 1 {
                    let i = choose|i: int| 0 <= i < b.len() && b[i] == fid as FileID;
                    assert(a[i] == fid as FileID);
                }
                if fid == k - 1 {
                    assert(b[a.len() as int] == fid as FileID);
                }
            }
        }
    }
}

/// The files of a sound store can be described by entries of the meta page.
proof fn lemma_describable(st: Store)
    requires
        sound(st),
    ensures
        forall|i: int| 0 <= i < FILE_COUNT ==> describable(#[trigger] st.files[i]),
{
    assert forall|i: int| 0 <= i < FILE_COUNT implies describable(#[trigger] st.files[i]) by {
        let f = st.files[i];
        assert(file_ok(st.flash, f));
        assert(ptr_wf(f.last));
        if f.last is None {
            lemma_empty_file(st.flash, f);
        }
    }
}

/// The files of a set that are not in a list.
pub open spec fn not_listed(stale: Set<int>, fids: Seq<FileID>) -> Set<int> {
    Set::new(|fid: int| stale.contains(fid) && !fids.contains(fid as FileID))
}

/// Writing the entries of files to the meta page makes the state of those files durable, whatever
/// the meta page says of other files. If there is no room on the meta page, a new one takes its
/// place.
pub proof fn law_write_entries(st: Store, fids: Seq<FileID>, stale: Set<int>)
    requires
        sound(st),
        durable_but(st, stale),
        forall|i: int| 0 <= i < fids.len() ==> (#[trigger] fids[i]) < FILE_COUNT,
        !meta_fits(st, fids.len() as int) ==> has_free(st.used) && st.meta_seq < u32::MAX,
    ensures
        ({
            let (st1, r) = write_meta(st, fids);
            &&& r == Ok::<(), Error>(())
            &&& sound(st1)
            &&& durable_but(st1, not_listed(stale, fids))
            &&& !meta_fits(st, fids.len() as int) ==> durable(st1)
            &&& st1.files == st.files
            &&& forall|fid: int|
                0 <= fid < FILE_COUNT ==> #[trigger] file_bytes(st1, fid) == file_bytes(st, fid)
            &&& forall|fid: int|
                0 <= fid < FILE_COUNT ==> #[trigger] pages_of(st1, fid) == pages_of(st, fid)
            &&& tight(st) ==> tight(st1)
            &&& forall|p: int|
                0 <= p < PAGE_COUNT && p != st.meta_page && p != st1.meta_page
                    ==> #[trigger] st1.used[p] == st.used[p] && st1.flash[p] == st.flash[p]
            &&& st1.meta_page == st.meta_page || (!st.used[st1.meta_page as int]
                && !st1.used[st.meta_page as int])
        }),
{
    let (st1, r) = write_meta(st, fids);
    let left = not_listed(stale, fids);
    let p = st.flash[st.meta_page as int];
    let b = meta_payload(p)->0;
    assert(meta_readable(st));
    lemma_parse_meta_range(b);
    lemma_describable(st);
    if meta_fits(st, fids.len() as int) {
        if fids.len() > 0 {
            let e = file_entries(st.files, fids);
            lemma_parse_file_entries(b, st.files, fids);
            lemma_meta_appended(p, e);
            assert forall|q: int| 0 <= q < PAGE_COUNT && in_file(st, q) implies #[trigger]
                st1.used[q] by {
                lemma_in_file_used(st, q);
            }
            if in_file(st, st.meta_page as int) {
                lemma_in_file_used(st, st.meta_page as int);
            }
            assert forall|q: int| 0 <= q < PAGE_COUNT && #[trigger] st1.flash[q] != st.flash[q] implies
                !in_file(st, q) by {
                assert(q == st.meta_page);
            }
            lemma_sound_frame(st, st1);
            assert forall|fid: int|
                #![trigger st1.files[fid]]
                0 <= fid < FILE_COUNT && !left.contains(fid) implies stored_infos(st1)->0[fid]
                == info_of(st1.files[fid]) by {
                assert(stored_infos(st1) == parse_meta(b + e));
                assert(parse_meta(b + e)->0[fid] == (if fids.contains(fid as FileID) {
                    info_of(st.files[fid])
                } else {
                    parse_meta(b)->0[fid]
                }));
            }
        } else {
            assert(st1 == st);
            assert forall|fid: int|
                #![trigger st1.files[fid]]
                0 <= fid < FILE_COUNT && !left.contains(fid) implies stored_infos(st1)->0[fid]
                == info_of(st1.files[fid]) by {
                assert(!stale.contains(fid));
            }
        }
    } else {
        lemma_rewrite(st);
        let page = lowest_free(st.used);
        lemma_fresh_page(st);
        assert forall|q: int| 0 <= q < PAGE_COUNT && in_file(st, q) implies #[trigger]
            st1.used[q] by {
            lemma_in_file_used(st, q);
        }
        assert forall|q: int| 0 <= q < PAGE_COUNT && #[trigger] st1.flash[q] != st.flash[q] implies
            !in_file(st, q) by {
            assert(q == page);
        }
        lemma_sound_frame(st, st1);
        assert forall|q: int|
            0 <= q < PAGE_COUNT && q != st1.meta_page implies (meta_header(
            #[trigger] st1.flash[q],
        ) matches Some(s) ==> s < st1.meta_seq) by {
            assert(st1.flash[q] == st.flash[q]);
        }
    }
    if tight(st) {
        assert forall|q: int| 0 <= q < PAGE_COUNT implies (#[trigger] st1.used[q] <==> q
            == st1.meta_page || in_file(st1, q)) by {
            assert(st.used[q] <==> q == st.meta_page || in_file(st, q));
            assert(in_file(st1, q) <==> in_file(st, q));
            if in_file(st, q) {
                lemma_in_file_used(st, q);
            }
        }
    }
}

/// Writing the entries of files to the meta page makes the state of those files durable. If there
/// is no room on the meta page, a new one takes its place.
pub proof fn law_write_meta(st: Store, fids: Seq<FileID>, stale: Set<int>)
    requires
        sound(st),
        durable_but(st, stale),
        forall|i: int| 0 <= i < fids.len() ==> (#[trigger] fids[i]) < FILE_COUNT,
        forall|fid: int|
            0 <= fid < FILE_COUNT && #[trigger] stale.contains(fid) ==> fids.contains(
                fid as FileID,
            ),
        !meta_fits(st, fids.len() as int) ==> has_free(st.used) && st.meta_seq < u32::MAX,
    ensures
        ({
            let (st1, r) = write_meta(st, fids);
            &&& r == Ok::<(), Error>(())
            &&& sound(st1)
            &&& durable(st1)
            &&& st1.files == st.files
            &&& forall|fid: int|
                0 <= fid < FILE_COUNT ==> #[trigger] file_bytes(st1, fid) == file_bytes(st, fid)
            &&& forall|fid: int|
                0 <= fid < FILE_COUNT ==> #[trigger] pages_of(st1, fid) == pages_of(st, fid)
            &&& tight(st) ==> tight(st1)
            &&& forall|p: int|
                0 <= p < PAGE_COUNT && p != st.meta_page && p != st1.meta_page
                    ==> #[trigger] st1.used[p] == st.used[p] && st1.flash[p] == st.flash[p]
            &&& st1.meta_page == st.meta_page || (!st.used[st1.meta_page as int]
                && !st1.used[st.meta_page as int])
        }),
{
    law_write_entries(st, fids, stale);
    assert(not_listed(stale, fids).disjoint(Set::new(|fid: int| 0 <= fid < FILE_COUNT)));
    let st1 = write_meta(st, fids).0;
    assert forall|fid: int| #![trigger st1.files[fid]] 0 <= fid < FILE_COUNT implies stored_infos(
        st1,
    )->0[fid] == info_of(st1.files[fid]) by {
        assert(!not_listed(stale, fids).contains(fid));
    }
}

/// Writing entries to a readable meta page succeeds and changes no file, whatever the meta page
/// says.
pub proof fn lemma_write_meta_sound(st: Store, fids: Seq<FileID>)
    requires
        sound(st),
        meta_readable(st),
        !meta_fits(st, fids.len() as int) ==> has_free(st.used) && st.meta_seq < u32::MAX,
    ensures
        ({
            let (st1, r) = write_meta(st, fids);
            &&& r == Ok::<(), Error>(())
            &&& sound(st1)
            &&& st1.files == st.files
            &&& forall|fid: int|
                0 <= fid < FILE_COUNT ==> #[trigger] file_bytes(st1, fid) == file_bytes(st, fid)
            &&& forall|fid: int|
                0 <= fid < FILE_COUNT ==> #[trigger] pages_of(st1, fid) == pages_of(st, fid)
            &&& forall|p: int|
                0 <= p < PAGE_COUNT && p != st.meta_page && p != st1.meta_page
                    ==> #[trigger] st1.used[p] == st.used[p] && st1.flash[p] == st.flash[p]
        }),
{
    let (st1, r) = write_meta(st, fids);
    assert forall|q: int| 0 <= q < PAGE_COUNT && in_file(st, q) implies q != st.meta_page
        && st.used[q] by {
        lemma_in_file_used(st, q);
    }
    if meta_fits(st, fids.len() as int) {
        reveal(meta_appended);
        if in_file(st, st.meta_page as int) {
            lemma_in_file_used(st, st.meta_page as int);
        }
    } else {
        lemma_describable(st);
        lemma_rewrite(st);
        lemma_fresh_page(st);
    }
    assert forall|q: int| 0 <= q < PAGE_COUNT && in_file(st, q) implies #[trigger] st1.used[q] by {
        lemma_in_file_used(st, q);
    }
    lemma_sound_frame(st, st1);
}

/// A new meta page says of every file what the tables say.
pub proof fn lemma_rewrite(st: Store)
    requires
        st.wf(),
        forall|i: int| 0 <= i < FILE_COUNT ==> describable(#[trigger] st.files[i]),
        has_free(st.used),
        st.meta_seq < u32::MAX,
    ensures
        ({
            let (st1, r) = rewrite_meta(st);
            let p = st1.flash[st1.meta_page as int];
            &&& r == Ok::<(), Error>(())
            &&& flash_shape(st1.flash)
            &&& st1.meta_page == lowest_free(st.used)
            &&& meta_header(p) == Some(st1.meta_seq)
            &&& stored_infos(st1) is Some
            &&& forall|fid: int|
                #![trigger st1.files[fid]]
                0 <= fid < FILE_COUNT ==> stored_infos(st1)->0[fid] == info_of(st1.files[fid])
            &&& erased_from(p, meta_end(p))
        }),
{
    let (st1, r) = rewrite_meta(st);
    let list = nonempty_files(st.files, FILE_COUNT as int);
    let e = file_entries(st.files, list);
    lemma_lowest_free_from(st.used, 0);
    lemma_nonempty_files(st.files, FILE_COUNT as int);
    let none = Seq::<u8>::empty();
    assert(parse_meta(none) == Some(no_infos()));
    lemma_parse_file_entries(none, st.files, list);
    assert(none + e =~= e);
    lemma_meta_image((st.meta_seq + 1) as u32, e);
    assert forall|fid: int|
        #![trigger st1.files[fid]]
        0 <= fid < FILE_COUNT implies stored_infos(st1)->0[fid] == info_of(st1.files[fid]) by {
        assert(parse_meta(none + e)->0[fid] == (if list.contains(fid as FileID) {
            info_of(st.files[fid])
        } else {
            parse_meta(none)->0[fid]
        }));
        assert(describable(st.files[fid]));
    }
}

/// The latest meta page is found.
proof fn lemma_find_meta(st: Store, k: int)
    requires
        st.wf(),
        recorded(st),
        0 <= k <= PAGE_COUNT,
    ensures
        k <= st.meta_page ==> find_meta(st.flash, k).1 < st.meta_seq,
        k > st.meta_page ==> find_meta(st.flash, k) == (Some(st.meta_page), st.meta_seq),
    decreases k,
{
    if k > 0 {
        lemma_find_meta(st, k - 1);
        assert(meta_header(st.flash[k - 1]) == meta_header(st.flash[k - 1]));
    }
}

/// The table of used pages after the first `n` pages of a run have been marked.
spec fn marked(used: Seq<bool>, run: Seq<Ptr>, n: int) -> Seq<bool> {
    Seq::new(used.len(), |p: int| used[p] || run_has(run.subrange(0, n), p))
}

/// Walking back from a page of a run marks the pages up to that page.
proof fn lemma_mark_run(
    fl: Seq<Seq<u8>>,
    used: Seq<bool>,
    run: Seq<Ptr>,
    first: u32,
    end: u32,
    i: int,
)
    requires
        run_ok(fl, run, first, end),
        0 <= i < run.len(),
        used.len() == PAGE_COUNT,
        forall|k: int| 0 <= k <= i ==> !used[(#[trigger] run[k]).page as int],
    ensures
        mark_chain(fl, used, run[i], first) == (marked(used, run, i + 1), Ok::<(), Error>(())),
    decreases i,
{
    let used2 = used.update(run[i].page as int, true);
    assert(page_ok(fl, run[i]));
    let a = run.subrange(0, i);
    let b = run.subrange(0, i + 1);
    assert forall|p: int| #[trigger] run_has(b, p) <==> run_has(a, p) || p == run[i].page by {
        if run_has(a, p) {
            let k = choose|k: int| 0 <= k < a.len() && (#[trigger] a[k]).page == p;
            assert(b[k].page == p);
        }
        if run_has(b, p) {
            let k = choose|k: int| 0 <= k < b.len() && (#[trigger] b[k]).page == p;
            if k < i {
                assert(a[k].page == p);
            }
        }
        if p == run[i].page {
            assert(b[i].page == p);
        }
    }
    if i == 0 {
        assert(step_back(fl, run[0], first) == Ok::<Option<Ptr>, Error>(None));
        assert forall|p: int| !run_has(a, p) by {}
        assert(used2 =~= marked(used, run, 1));
    } else {
        lemma_run_sorted(fl, run, first, end, 0, i);
        lemma_run_step(fl, run, first, end, i, first);
        assert forall|k: int| 0 <= k <= i - 1 implies !used2[(#[trigger] run[k]).page as int] by {
            assert(page_ok(fl, run[k]));
            if run[k].page == run[i].page {
                lemma_run_distinct(fl, run, first, end, k, i);
            }
        }
        lemma_mark_run(fl, used2, run, first, end, i - 1);
        assert(marked(used2, run, i) =~= marked(used, run, i + 1));
    }
}

/// The meta page and the pages of the first `k` files.
spec fn owned(st: Store, k: int) -> Seq<bool> {
    Seq::new(
        PAGE_COUNT as nat,
        |p: int|
            p == st.meta_page || exists|fid: int|
                0 <= fid < k && #[trigger] run_has(pages_of(st, fid), p),
    )
}

/// The files that a mount finds: those that the device says are not empty, and of the others what
/// the tables said of them.
pub open spec fn mounted_files(st: Store, st0: Store) -> Seq<FileModel> {
    Seq::new(
        FILE_COUNT as nat,
        |fid: int|
            if st.files[fid].last is Some {
                st.files[fid]
            } else {
                st0.files[fid]
            },
    )
}

/// Mounting brings one file after the other into the tables.
proof fn lemma_mount_files(st: Store, st0: Store, k: int)
    requires
        sound(st),
        recorded(st),
        st0.flash == st.flash,
        st0.files.len() == FILE_COUNT,
        st0.meta_page == st.meta_page,
        st0.meta_seq == st.meta_seq,
        st0.used == all_free().update(st.meta_page as int, true),
        0 <= k <= FILE_COUNT,
    ensures
        ({
            let (st1, r) = mount_files(st0, stored_infos(st)->0, k);
            &&& r == Ok::<(), Error>(())
            &&& st1.flash == st.flash
            &&& st1.meta_page == st.meta_page
            &&& st1.meta_seq == st.meta_seq
            &&& st1.used == owned(st, k)
            &&& st1.files.len() == FILE_COUNT
            &&& forall|fid: int|
                0 <= fid < FILE_COUNT ==> #[trigger] st1.files[fid] == (if fid < k {
                    mounted_files(st, st0)[fid]
                } else {
                    st0.files[fid]
                })
        }),
    decreases k,
{
    let infos = stored_infos(st)->0;
    if k == 0 {
        assert(st0.used =~= owned(st, 0));
    } else {
        lemma_mount_files(st, st0, k - 1);
        let st1 = mount_files(st0, infos, k - 1).0;
        let fid = k - 1;
        let f = st.files[fid];
        let run = pages_of(st, fid);
        assert(file_ok(st.flash, f));
        assert(infos[fid] == info_of(f));
        assert forall|p: int|
            0 <= p < PAGE_COUNT implies (#[trigger] owned(st, k)[p] <==> owned(st, k - 1)[p]
            || run_has(run, p)) by {
            if owned(st, k - 1)[p] && p != st.meta_page {
                let b = choose|b: int| 0 <= b < k - 1 && #[trigger] run_has(pages_of(st, b), p);
                assert(0 <= b < k && run_has(pages_of(st, b), p));
            }
            if owned(st, k)[p] && p != st.meta_page {
                let b = choose|b: int| 0 <= b < k && #[trigger] run_has(pages_of(st, b), p);
                if b < k - 1 {
                    assert(0 <= b < k - 1 && run_has(pages_of(st, b), p));
                }
            }
        }
        if f.last is None {
            lemma_empty_file(st.flash, f);
            assert forall|p: int| !run_has(run, p) by {}
            assert(owned(st, k) =~= owned(st, k - 1));
            assert(st1.files[fid] == st0.files[fid]);
        } else {
            let n = run.len() as int;
            lemma_run_last(st.flash, f);
            lemma_run_start(st.flash, f);
            lemma_run_page(st.flash, f, n - 1);
            assert forall|i: int| 0 <= i <= n - 1 implies !st1.used[(
            #[trigger] run[i]).page as int] by {
                let p = run[i].page as int;
                assert(run_has(pages_of(st, fid), p));
                if owned(st, k - 1)[p] {
                    let b = choose|b: int| 0 <= b < k - 1 && #[trigger] run_has(pages_of(st, b), p);
                }
            }
            lemma_mark_run(st.flash, st1.used, run, f.first, f.end, n - 1);
            assert(run.subrange(0, n) =~= run);
            assert(owned(st, k) =~= marked(st1.used, run, n));
            let st2 = mount_files(st0, infos, k).0;
            assert(st2.files[fid] =~= f);
        }
    }
}

/// Whether mounting is about to find the files of a store: the device is that of the store, and
/// the tables have nothing to say of its empty files.
pub open spec fn mounts(st: Store, st0: Store) -> bool {
    &&& st0.flash == st.flash
    &&& st0.files.len() == FILE_COUNT
    &&& forall|fid: int|
        0 <= fid < FILE_COUNT && (#[trigger] st.files[fid]).last is None ==> st0.files[fid]
            == empty_file()
}

/// Mounting a device that holds a sound store succeeds, whatever the tables said before. It finds
/// every file that is not empty as the device says, and takes as used exactly the meta page and
/// the pages of these files. Files that the device says are empty are passed over.
pub proof fn law_mount_any(st: Store, st0: Store)
    requires
        sound(st),
        recorded(st),
        st0.flash == st.flash,
        st0.files.len() == FILE_COUNT,
    ensures
        ({
            let (st1, r) = mount(st0);
            &&& r == Ok::<(), Error>(())
            &&& st1.flash == st.flash
            &&& st1.meta_page == st.meta_page
            &&& st1.meta_seq == st.meta_seq
            &&& st1.files == mounted_files(st, st0)
            &&& st1.used.len() == PAGE_COUNT
            &&& forall|p: int|
                0 <= p < PAGE_COUNT ==> (#[trigger] st1.used[p] <==> p == st.meta_page || in_file(
                    st,
                    p,
                ))
            &&& forall|fid: int|
                0 <= fid < FILE_COUNT && st.files[fid].last is Some ==> #[trigger] file_bytes(
                    st1,
                    fid,
                ) == file_bytes(st, fid)
        }),
{
    lemma_find_meta(st, PAGE_COUNT as int);
    let st2 = Store {
        meta_page: st.meta_page,
        meta_seq: st.meta_seq,
        used: all_free().update(st.meta_page as int, true),
        ..st0
    };
    lemma_mount_files(st, st2, FILE_COUNT as int);
    let (st1, r) = mount(st0);
    assert(mounted_files(st, st2) =~= mounted_files(st, st0));
    assert(st1.files =~= mounted_files(st, st0));
    assert forall|p: int| 0 <= p < PAGE_COUNT implies (#[trigger] st1.used[p] <==> p == st.meta_page
        || in_file(st, p)) by {
        if in_file(st, p) {
            let b = choose|b: int| 0 <= b < FILE_COUNT && #[trigger] run_has(pages_of(st, b), p);
            assert(0 <= b < FILE_COUNT as int && run_has(pages_of(st, b), p));
        }
        if st1.used[p] && p != st.meta_page {
            let b = choose|b: int|
                0 <= b < FILE_COUNT as int && #[trigger] run_has(pages_of(st, b), p);
            assert(0 <= b < FILE_COUNT && run_has(pages_of(st, b), p));
        }
    }
}

/// Mounting finds every file as it was last made durable, whatever the tables said before of the
/// files that are not empty, and takes as used exactly the meta page and the pages of the files.
/// So a mount after a loss of power gives back what was committed, and the pages of what was not.
pub proof fn law_mount(st: Store, st0: Store)
    requires
        sound(st),
        durable(st),
        mounts(st, st0),
    ensures
        ({
            let (st1, r) = mount(st0);
            &&& r == Ok::<(), Error>(())
            &&& st1 == Store { used: st1.used, ..st }
            &&& sound(st1)
            &&& durable(st1)
            &&& tight(st1)
            &&& forall|fid: int|
                0 <= fid < FILE_COUNT ==> #[trigger] file_bytes(st1, fid) == file_bytes(st, fid)
        }),
{
    law_mount_any(st, st0);
    let (st1, r) = mount(st0);
    assert forall|fid: int| 0 <= fid < FILE_COUNT implies #[trigger] st1.files[fid]
        == st.files[fid] by {
        law_empty(st, fid);
    }
    assert(st1.files =~= st.files);
    assert forall|p: int| 0 <= p < PAGE_COUNT && in_file(st, p) implies #[trigger] st1.used[p] by {}
    if in_file(st, st1.meta_page as int) {
        lemma_in_file_used(st, st1.meta_page as int);
    }
    lemma_sound_frame(st, st1);
    assert forall|p: int| 0 <= p < PAGE_COUNT implies (#[trigger] st1.used[p] <==> p
        == st1.meta_page || in_file(st1, p)) by {
        assert(in_file(st1, p) <==> in_file(st, p));
    }
}

/// Mounting again finds the files as they are, if they are durable; so does mounting with tables
/// in which no file has been entered yet.
pub proof fn law_mounts(st: Store, fresh: Store)
    requires
        sound(st),
        fresh.flash == st.flash,
        fresh.files == Seq::new(FILE_COUNT as nat, |i: int| empty_file()),
    ensures
        mounts(st, st),
        mounts(st, fresh),
{
    assert forall|fid: int| 0 <= fid < FILE_COUNT && (#[trigger] st.files[fid]).last is None implies
        st.files[fid] == empty_file() by {
        law_empty(st, fid);
    }
}

/// The store that a formatted device holds: no file has a byte.
pub open spec fn blank(fl: Seq<Seq<u8>>) -> Store {
    Store {
        flash: formatted(fl),
        files: Seq::new(FILE_COUNT as nat, |i: int| empty_file()),
        meta_page: 0,
        meta_seq: 1,
        used: all_free().update(0, true),
    }
}

/// Formatting leaves a sound and durable store without files, in which every page but the meta
/// page is free.
pub proof fn law_format(fl: Seq<Seq<u8>>)
    requires
        flash_shape(fl),
    ensures
        sound(blank(fl)),
        durable(blank(fl)),
        tight(blank(fl)),
        forall|fid: int|
            0 <= fid < FILE_COUNT ==> #[trigger] file_bytes(blank(fl), fid) == Seq::<u8>::empty(),
{
    let st = blank(fl);
    let none = Seq::<u8>::empty();
    lemma_meta_image(1, none);
    assert(st.flash[0] == meta_image(1, none));
    assert(parse_meta(none) == Some(no_infos()));
    assert forall|fid: int| 0 <= fid < FILE_COUNT implies file_ok(st.flash, #[trigger] st.files[fid])
        && pages_of(st, fid) == Seq::<Ptr>::empty() && file_bytes(st, fid) == none by {
        lemma_empty_file(st.flash, st.files[fid]);
    }
    assert forall|fid: int, p: int| 0 <= fid < FILE_COUNT implies !#[trigger] run_has(
        pages_of(st, fid),
        p,
    ) by {
        assert(file_ok(st.flash, st.files[fid]));
    }
    assert forall|q: int|
        0 <= q < PAGE_COUNT && q != st.meta_page implies meta_header(#[trigger] st.flash[q])
        is None by {
        if meta_header(fl[q]) is Some {
            assert(st.flash[q] == erased_page());
            lemma_erased_no_meta();
        } else {
            assert(st.flash[q] == fl[q]);
        }
    }
    assert forall|p: int| 0 <= p < PAGE_COUNT implies (#[trigger] st.used[p] <==> p == st.meta_page
        || in_file(st, p)) by {}
    assert forall|fid: int|
        #![trigger st.files[fid]]
        0 <= fid < FILE_COUNT implies stored_infos(st)->0[fid] == info_of(st.files[fid]) by {}
}

/// Formatting a device and mounting it, with tables in which no file has been entered yet, gives
/// a store without files.
pub proof fn law_format_mount(st: Store)
    requires
        st.wf(),
        forall|fid: int| 0 <= fid < FILE_COUNT ==> #[trigger] st.files[fid] == empty_file(),
    ensures
        mount(Store { flash: formatted(st.flash), ..st }) == (
            blank(st.flash),
            Ok::<(), Error>(()),
        ),
{
    let st0 = Store { flash: formatted(st.flash), ..st };
    let goal = blank(st.flash);
    law_format(st.flash);
    law_mount(goal, st0);
    let st1 = mount(st0).0;
    assert forall|p: int| 0 <= p < PAGE_COUNT implies st1.used[p] == goal.used[p] by {
        assert(st1.used[p] <==> p == st1.meta_page || in_file(st1, p));
        assert(goal.used[p] <==> p == goal.meta_page || in_file(goal, p));
        if in_file(st1, p) {
            let b = choose|b: int| 0 <= b < FILE_COUNT && #[trigger] run_has(pages_of(st1, b), p);
            assert(run_has(pages_of(goal, b), p));
        }
    }
    assert(st1.used =~= goal.used);
}

/// A formatted device can be mounted by every manager, whatever its tables say: the mount
/// succeeds, and every page but the meta page is free.
pub proof fn law_format_mount_any(st: Store)
    requires
        st.wf(),
    ensures
        ({
            let (st1, r) = mount(Store { flash: formatted(st.flash), ..st });
            &&& r == Ok::<(), Error>(())
            &&& st1.meta_page == 0
            &&& st1.meta_seq == 1
            &&& st1.files == st.files
            &&& forall|p: int| 0 <= p < PAGE_COUNT ==> (#[trigger] st1.used[p] <==> p == 0)
        }),
{
    let st0 = Store { flash: formatted(st.flash), ..st };
    let goal = blank(st.flash);
    law_format(st.flash);
    law_mount_any(goal, st0);
    let st1 = mount(st0).0;
    assert(st1.files =~= st.files);
    assert forall|p: int| 0 <= p < PAGE_COUNT implies (#[trigger] st1.used[p] <==> p == 0) by {
        assert(goal.used[p] <==> p == goal.meta_page || in_file(goal, p));
    }
}

/// Formatting leaves every page alone that is not a meta page, apart from page 0.
pub proof fn law_format_keeps(fl: Seq<Seq<u8>>, p: int)
    requires
        flash_shape(fl),
        0 < p < PAGE_COUNT,
    ensures
        meta_header(fl[p]) is None ==> formatted(fl)[p] == fl[p],
        meta_header(fl[p]) is Some ==> formatted(fl)[p] == erased_page(),
{
}

/// An erased page is no meta page.
proof fn lemma_erased_no_meta()
    ensures
        meta_header(erased_page()) is None,
{
    reveal(meta_header);
    let p = erased_page();
    assert(p[0] == 0xff && p[1] == 0xff && p[2] == 0xff && p[3] == 0xff);
}

} // verus!
