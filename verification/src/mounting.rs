//! When a device can be mounted, and what a mount finds on it, whatever it holds.

use vstd::prelude::*;

use crate::chain::chain;
use crate::config::{FILE_COUNT, PAGE_COUNT};
use crate::flash::flash_shape;
use crate::headers::{data_header, data_payload, meta_header, meta_payload};
use crate::sound::run_has;
use crate::store::{
    all_free, find_meta, lemma_parse_meta_range, mark_chain, mount, mount_files, parse_meta,
    step_back, FileInfo, FileModel, Ptr, Store,
};
use crate::types::NO_PAGE;
use crate::Error;

verus! {

/// The last page that an entry names.
pub open spec fn entry_ptr(fl: Seq<Seq<u8>>, info: FileInfo) -> Ptr {
    Ptr { page: info.last, header: data_header(fl[info.last as int])->0 }
}

/// The sequence number behind the last byte of the file that an entry describes.
pub open spec fn entry_end(fl: Seq<Seq<u8>>, info: FileInfo) -> int {
    data_header(fl[info.last as int])->0.seq + data_payload(fl[info.last as int])->0.len()
}

/// The pages of the file that an entry describes: none if it describes an empty file. `None` if
/// the last page is no data page, or the file has no bytes, or one of its pages cannot be
/// reached.
pub open spec fn entry_run(fl: Seq<Seq<u8>>, info: FileInfo) -> Option<Seq<Ptr>> {
    if info.last == NO_PAGE {
        Some(Seq::empty())
    } else if data_header(fl[info.last as int]) is None || data_payload(
        fl[info.last as int],
    ) is None || entry_end(fl, info) > u32::MAX || info.first >= entry_end(fl, info) {
        None
    } else {
        chain(fl, Some(entry_ptr(fl, info)), info.first)
    }
}

/// Whether page `m` is the meta page that counts: the first one of those with the highest sequence
/// number, which is not 0.
pub open spec fn is_latest_meta(fl: Seq<Seq<u8>>, m: int) -> bool {
    &&& 0 <= m < PAGE_COUNT
    &&& meta_header(fl[m]) matches Some(s) && s > 0 && forall|q: int|
        0 <= q < PAGE_COUNT && q != m ==> (meta_header(#[trigger] fl[q]) matches Some(x) ==> x < s
            || (q > m && x == s))
}

/// Whether the entries describe files that can be walked through, on pages of their own.
pub open spec fn entries_hold(fl: Seq<Seq<u8>>, infos: Seq<FileInfo>, m: int, k: int) -> bool {
    &&& forall|a: int|
        #![trigger infos[a]]
        0 <= a < k ==> entry_run(fl, infos[a]) is Some && !run_has(entry_run(fl, infos[a])->0, m)
    &&& forall|a: int, b: int, p: int|
        0 <= a < b < k && #[trigger] run_has(entry_run(fl, infos[a])->0, p) ==> !#[trigger] run_has(
            entry_run(fl, infos[b])->0,
            p,
        )
}

/// The pages that the first `k` entries and the meta page take.
pub open spec fn entries_use(fl: Seq<Seq<u8>>, infos: Seq<FileInfo>, m: int, k: int, p: int) -> bool {
    p == m || exists|a: int| 0 <= a < k && #[trigger] run_has(entry_run(fl, infos[a])->0, p)
}

/// Whether none of the pages of a run is in use.
pub open spec fn all_free_in(used: Seq<bool>, run: Seq<Ptr>) -> bool {
    forall|p: int| #[trigger] run_has(run, p) ==> !used[p]
}

/// Walking back from a page marks the pages on the way, and succeeds exactly if there is a way and
/// none of them is in use.
proof fn lemma_mark_chain(fl: Seq<Seq<u8>>, used: Seq<bool>, pp: Ptr, limit: u32)
    requires
        used.len() == PAGE_COUNT,
        pp.page < PAGE_COUNT,
        data_header(fl[pp.page as int]) == Some(pp.header),
    ensures
        ({
            let run = chain(fl, Some(pp), limit);
            let (used1, r) = mark_chain(fl, used, pp, limit);
            &&& used1.len() == PAGE_COUNT
            &&& r is Ok <==> run is Some && all_free_in(used, run->0)
            &&& r is Ok ==> forall|p: int|
                0 <= p < PAGE_COUNT ==> (#[trigger] used1[p] <==> used[p] || run_has(run->0, p))
            &&& run is Some ==> forall|p: int| #[trigger]
                run_has(run->0, p) ==> 0 <= p < PAGE_COUNT && data_header(fl[p]) is Some
                    && data_header(fl[p])->0.seq <= pp.header.seq
        }),
    decreases pp.header.seq,
{
    let run = chain(fl, Some(pp), limit);
    let used2 = used.update(pp.page as int, true);
    match step_back(fl, pp, limit) {
        Err(_) => {},
        Ok(None) => {
            assert(chain(fl, None, limit) == Some(Seq::<Ptr>::empty()));
            let one = Seq::<Ptr>::empty().push(pp);
            assert(run == Some(one));
            assert(one[0] == pp);
            assert forall|p: int| #[trigger] run_has(one, p) <==> p == pp.page by {
                if p == pp.page {
                    assert(one[0].page == p);
                }
            }
            assert(run_has(one, pp.page as int));
        },
        Ok(Some(q)) => {
            lemma_mark_chain(fl, used2, q, limit);
            let before = chain(fl, Some(q), limit);
            if let Some(rest) = before {
                let all = rest.push(pp);
                assert(run == Some(all));
                assert forall|p: int| #[trigger] run_has(all, p) <==> p == pp.page || run_has(
                    rest,
                    p,
                ) by {
                    if run_has(rest, p) {
                        let k = choose|k: int| 0 <= k < rest.len() && (#[trigger] rest[k]).page == p;
                        assert(all[k].page == p);
                    }
                    if p == pp.page {
                        assert(all[rest.len() as int].page == p);
                    }
                    if run_has(all, p) && p != pp.page {
                        let k = choose|k: int| 0 <= k < all.len() && (#[trigger] all[k]).page == p;
                        assert(rest[k].page == p);
                    }
                }
                assert(!run_has(rest, pp.page as int));
                if mark_chain(fl, used, pp, limit).1 is Ok {
                    assert forall|p: int| #[trigger] run_has(all, p) implies !used[p] by {
                        if p != pp.page {
                            assert(!used2[p]);
                        }
                    }
                }
                assert(run_has(all, pp.page as int));
                if all_free_in(used, all) {
                    assert forall|p: int| #[trigger] run_has(rest, p) implies !used2[p] by {
                        assert(run_has(all, p));
                    }
                    assert(all_free_in(used2, rest));
                }
            }
        },
    }
}

/// Mounting one file after the other.
proof fn lemma_mount_entries(st: Store, infos: Seq<FileInfo>, m: int, k: int)
    requires
        st.wf(),
        infos.len() == FILE_COUNT,
        forall|i: int|
            0 <= i < FILE_COUNT ==> (#[trigger] infos[i]).last == NO_PAGE || infos[i].last
                < PAGE_COUNT,
        0 <= m < PAGE_COUNT,
        st.used == all_free().update(m, true),
        0 <= k <= FILE_COUNT,
    ensures
        ({
            let fl = st.flash;
            let (st1, r) = mount_files(st, infos, k);
            &&& r is Ok <==> entries_hold(fl, infos, m, k)
            &&& st1.flash == fl
            &&& st1.meta_page == st.meta_page
            &&& st1.meta_seq == st.meta_seq
            &&& st1.files.len() == FILE_COUNT
            &&& r is Ok ==> {
                &&& st1.used.len() == PAGE_COUNT
                &&& forall|p: int|
                    0 <= p < PAGE_COUNT ==> (#[trigger] st1.used[p] <==> entries_use(
                        fl,
                        infos,
                        m,
                        k,
                        p,
                    ))
                &&& forall|a: int|
                    0 <= a < FILE_COUNT ==> #[trigger] st1.files[a] == if a < k && infos[a].last
                        != NO_PAGE {
                        FileModel {
                            last: Some(entry_ptr(fl, infos[a])),
                            first: infos[a].first,
                            end: entry_end(fl, infos[a]) as u32,
                        }
                    } else {
                        st.files[a]
                    }
            }
        }),
    decreases k,
{
    let fl = st.flash;
    if k == 0 {
        assert(entries_hold(fl, infos, m, 0));
    } else {
        lemma_mount_entries(st, infos, m, k - 1);
        let (st1, r1) = mount_files(st, infos, k - 1);
        let (st2, r2) = mount_files(st, infos, k);
        let a = k - 1;
        let info = infos[a];
        if r1 is Ok {
            let run = entry_run(fl, info);
            if info.last != NO_PAGE && data_header(fl[info.last as int]) is Some && data_payload(
                fl[info.last as int],
            ) is Some && entry_end(fl, info) <= u32::MAX && info.first < entry_end(fl, info) {
                lemma_mark_chain(fl, st1.used, entry_ptr(fl, info), info.first);
            }
            if info.last == NO_PAGE {
                assert forall|p: int| !run_has(run->0, p) by {}
            }
            assert(r2 is Ok <==> run is Some && all_free_in(st1.used, run->0));
            if r2 is Ok {
                assert forall|i: int| #![trigger infos[i]] 0 <= i < k implies entry_run(
                    fl,
                    infos[i],
                ) is Some && !run_has(entry_run(fl, infos[i])->0, m) by {
                    if i == a && run_has(run->0, m) {
                        assert(entries_use(fl, infos, m, k - 1, m));
                    }
                }
                assert forall|i: int, j: int, p: int|
                    0 <= i < j < k && #[trigger] run_has(
                        entry_run(fl, infos[i])->0,
                        p,
                    ) implies !#[trigger] run_has(entry_run(fl, infos[j])->0, p) by {
                    if j == a && run_has(run->0, p) {
                        assert(0 <= p < PAGE_COUNT);
                        assert(entries_use(fl, infos, m, k - 1, p));
                    }
                }
                assert forall|p: int| 0 <= p < PAGE_COUNT implies (#[trigger] st2.used[p]
                    <==> entries_use(fl, infos, m, k, p)) by {
                    assert(st1.used[p] <==> entries_use(fl, infos, m, k - 1, p));
                    if run_has(run->0, p) {
                        assert(0 <= a < k && run_has(entry_run(fl, infos[a])->0, p));
                    }
                    if entries_use(fl, infos, m, k - 1, p) && p != m {
                        let i = choose|i: int|
                            0 <= i < k - 1 && #[trigger] run_has(entry_run(fl, infos[i])->0, p);
                        assert(0 <= i < k && run_has(entry_run(fl, infos[i])->0, p));
                    }
                    if entries_use(fl, infos, m, k, p) && p != m {
                        let i = choose|i: int|
                            0 <= i < k && #[trigger] run_has(entry_run(fl, infos[i])->0, p);
                        if i < k - 1 {
                            assert(0 <= i < k - 1 && run_has(entry_run(fl, infos[i])->0, p));
                        }
                    }
                }
            } else if entries_hold(fl, infos, m, k) {
                assert(infos[a] == info);
                let p = choose|p: int| #[trigger] run_has(run->0, p) && st1.used[p];
                assert(entries_use(fl, infos, m, k - 1, p));
                if p != m {
                    let i = choose|i: int|
                        0 <= i < k - 1 && #[trigger] run_has(entry_run(fl, infos[i])->0, p);
                    assert(!run_has(entry_run(fl, infos[a])->0, p));
                }
            }
        } else {
            if entries_hold(fl, infos, m, k) {
                assert(entries_hold(fl, infos, m, k - 1));
            }
        }
    }
}

/// The latest meta page is found, if there is one.
proof fn lemma_finds_latest(fl: Seq<Seq<u8>>, k: int)
    requires
        flash_shape(fl),
        0 <= k <= PAGE_COUNT,
    ensures
        ({
            let (page, seq) = find_meta(fl, k);
            &&& page is None ==> seq == 0
            &&& page matches Some(m) ==> 0 <= m < k && seq > 0 && meta_header(fl[m as int]) == Some(
                seq,
            )
            &&& forall|q: int|
                0 <= q < k ==> (meta_header(#[trigger] fl[q]) matches Some(x) ==> x <= seq && (
                page matches Some(m) ==> q < m ==> x < seq))
        }),
    decreases k,
{
    if k > 0 {
        lemma_finds_latest(fl, k - 1);
    }
}

/// Mounting succeeds exactly if there is a meta page, its entries make sense, and they describe
/// files that can be walked through, on pages of their own. The tables then say of these files
/// what the device says, and the pages in use are those of the files and the meta page. Nothing
/// is written.
pub proof fn law_mount_exactly(st: Store)
    requires
        st.wf(),
    ensures
        ({
            let fl = st.flash;
            let (st1, r) = mount(st);
            &&& st1.flash == fl
            &&& r is Ok <==> exists|m: int| #[trigger]
                is_latest_meta(fl, m) && meta_payload(fl[m]) is Some && parse_meta(
                    meta_payload(fl[m])->0,
                ) is Some && entries_hold(
                    fl,
                    parse_meta(meta_payload(fl[m])->0)->0,
                    m,
                    FILE_COUNT as int,
                )
            &&& r is Ok ==> {
                let m = st1.meta_page as int;
                let infos = parse_meta(meta_payload(fl[m])->0)->0;
                &&& is_latest_meta(fl, m)
                &&& meta_header(fl[m]) == Some(st1.meta_seq)
                &&& forall|p: int|
                    0 <= p < PAGE_COUNT ==> (#[trigger] st1.used[p] <==> entries_use(
                        fl,
                        infos,
                        m,
                        FILE_COUNT as int,
                        p,
                    ))
                &&& forall|a: int|
                    0 <= a < FILE_COUNT ==> #[trigger] st1.files[a] == if infos[a].last
                        != NO_PAGE {
                        FileModel {
                            last: Some(entry_ptr(fl, infos[a])),
                            first: infos[a].first,
                            end: entry_end(fl, infos[a]) as u32,
                        }
                    } else {
                        st.files[a]
                    }
            }
        }),
{
    let fl = st.flash;
    let (st1, r) = mount(st);
    let (page, seq) = find_meta(fl, PAGE_COUNT as int);
    lemma_finds_latest(fl, PAGE_COUNT as int);
    if let Some(m) = page {
        assert(is_latest_meta(fl, m as int));
        if meta_payload(fl[m as int]) is Some && parse_meta(meta_payload(fl[m as int])->0) is Some {
            let infos = parse_meta(meta_payload(fl[m as int])->0)->0;
            lemma_parse_meta_range(meta_payload(fl[m as int])->0);
            let st2 = Store {
                meta_page: m,
                meta_seq: seq,
                used: all_free().update(m as int, true),
                ..st
            };
            lemma_mount_entries(st2, infos, m as int, FILE_COUNT as int);
        }
        assert forall|q: int| #[trigger] is_latest_meta(fl, q) implies q == m by {
            if q != m {
                assert(meta_header(fl[q]) is Some);
                assert(meta_header(fl[m as int]) is Some);
            }
        }
    } else {
        assert forall|q: int| !#[trigger] is_latest_meta(fl, q) by {
            if is_latest_meta(fl, q) {
                assert(meta_header(fl[q]) is Some);
            }
        }
    }
}

/// Mounting a device without a meta page, or one whose meta page or entries are of no use, fails.
/// The tables then still say of the files what they said, and nothing has been written.
pub proof fn law_mount_refused(st: Store)
    requires
        st.wf(),
        forall|m: int| #[trigger]
            is_latest_meta(st.flash, m) ==> meta_payload(st.flash[m]) is None || parse_meta(
                meta_payload(st.flash[m])->0,
            ) is None,
    ensures
        mount(st).1 == Err::<(), Error>(Error::Corrupted),
        mount(st).0.files == st.files,
        mount(st).0.flash == st.flash,
        forall|p: int|
            0 <= p < PAGE_COUNT ==> (#[trigger] mount(st).0.used[p] ==> is_latest_meta(st.flash, p)),
{
    lemma_finds_latest(st.flash, PAGE_COUNT as int);
    if let Some(m) = find_meta(st.flash, PAGE_COUNT as int).0 {
        assert(is_latest_meta(st.flash, m as int));
    }
}

} // verus!
