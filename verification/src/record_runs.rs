//! What the headers of pages say of a file that is written record by record, with a new writer for
//! each commit.

use vstd::prelude::*;

use crate::chain::{
    file_ok, file_run, lemma_contents_len, lemma_empty_file, lemma_run_page, page_end, payload,
};
use crate::commit_laws::law_commit_writer;
use crate::config::{FileID, FILE_COUNT};
use crate::durability::{
    law_append_durable, law_commit_only, lemma_commit_pages, lemma_commit_went_well,
};
use crate::headers::{lemma_data_payload_len, NO_BOUNDARY};
use crate::mount_laws::durable;
use crate::record_laws::{
    law_append_records, law_commit_records, law_commit_searchable, law_new_writer_records,
    law_record_end, law_searchable, lemma_page_marked, marked, page_marked, records_ok, whole,
};
use crate::search_laws::searchable;
use crate::sound::{file_bytes, law_empty, pages_of, sound};
use crate::store::{truncate_some, Ptr, Store};
use crate::write_laws::{
    law_append, law_new_writer, law_position, target, writer_has, writer_ok, writer_open, written,
};
use crate::writer::{
    append, append_has_space, commit_all, commit_list, commit_ready, commit_writer, new_writer,
    record_ended, WriterModel,
};
use crate::Error;

verus! {

/// Bytes, one piece after the other.
pub open spec fn joined(pieces: Seq<Seq<u8>>) -> Seq<u8>
    decreases pieces.len(),
{
    if pieces.len() == 0 {
        Seq::empty()
    } else {
        joined(pieces.drop_last()) + pieces.last()
    }
}

/// The bytes of records, each of which is written in pieces.
pub open spec fn record_bytes(records: Seq<Seq<Seq<u8>>>) -> Seq<u8>
    decreases records.len(),
{
    if records.len() == 0 {
        Seq::empty()
    } else {
        record_bytes(records.drop_last()) + joined(records.last())
    }
}

/// Where record `i` starts, or the records end.
pub open spec fn record_start(records: Seq<Seq<Seq<u8>>>, i: int) -> int {
    record_bytes(records.take(i)).len() as int
}

/// Where the records start and end, from `base` on.
pub open spec fn starts_from(base: int, records: Seq<Seq<Seq<u8>>>) -> Set<int> {
    Set::new(
        |x: int|
            exists|i: int|
                0 <= i <= records.len() && x == base + #[trigger] record_start(records, i),
    )
}

/// Writes the pieces of a record.
pub open spec fn put_pieces(st: Store, w: WriterModel, pieces: Seq<Seq<u8>>) -> (
    Store,
    WriterModel,
    Result<(), Error>,
)
    decreases pieces.len(),
{
    if pieces.len() == 0 {
        (st, w, Ok(()))
    } else {
        let (st1, w1, r) = put_pieces(st, w, pieces.drop_last());
        if r is Ok {
            append(st1, w1, pieces.last())
        } else {
            (st1, w1, r)
        }
    }
}

/// Whether there is a free page each time that one is needed.
pub open spec fn pieces_have_space(st: Store, w: WriterModel, pieces: Seq<Seq<u8>>) -> bool
    decreases pieces.len(),
{
    pieces.len() > 0 ==> {
        let (st1, w1, r) = put_pieces(st, w, pieces.drop_last());
        &&& pieces_have_space(st, w, pieces.drop_last())
        &&& r is Ok ==> append_has_space(st1, w1, pieces.last())
    }
}

/// Writes records, and marks the end of each.
pub open spec fn put_records(st: Store, w: WriterModel, records: Seq<Seq<Seq<u8>>>) -> (
    Store,
    WriterModel,
    Result<(), Error>,
)
    decreases records.len(),
{
    if records.len() == 0 {
        (st, w, Ok(()))
    } else {
        let (st1, w1, r) = put_records(st, w, records.drop_last());
        if r is Ok {
            let (st2, w2, r2) = put_pieces(st1, w1, records.last());
            if r2 is Ok {
                (st2, record_ended(w2), r2)
            } else {
                (st2, w2, r2)
            }
        } else {
            (st1, w1, r)
        }
    }
}

/// Whether there is a free page each time that one is needed.
pub open spec fn records_have_space(st: Store, w: WriterModel, records: Seq<Seq<Seq<u8>>>) -> bool
    decreases records.len(),
{
    records.len() > 0 ==> {
        let (st1, w1, r) = put_records(st, w, records.drop_last());
        &&& records_have_space(st, w, records.drop_last())
        &&& r is Ok ==> pieces_have_space(st1, w1, records.last())
    }
}

/// Writes records with a new writer, and commits them.
pub open spec fn put_batch(st: Store, fid: FileID, records: Seq<Seq<Seq<u8>>>) -> (
    Store,
    Result<(), Error>,
) {
    let (st1, w1, r) = put_records(st, new_writer(st, fid), records);
    if r is Ok {
        let (st2, w2, r2) = commit_all(st1, Some(w1), Seq::empty());
        (st2, r2)
    } else {
        (st1, r)
    }
}

/// Whether there is a free page each time that one is needed.
pub open spec fn batch_has_space(st: Store, fid: FileID, records: Seq<Seq<Seq<u8>>>) -> bool {
    let (st1, w1, r) = put_records(st, new_writer(st, fid), records);
    &&& records_have_space(st, new_writer(st, fid), records)
    &&& r is Ok ==> commit_ready(st1, Some(w1), Seq::empty())
}

/// Does so for several batches of records.
pub open spec fn put_batches(st: Store, fid: FileID, batches: Seq<Seq<Seq<Seq<u8>>>>) -> (
    Store,
    Result<(), Error>,
)
    decreases batches.len(),
{
    if batches.len() == 0 {
        (st, Ok(()))
    } else {
        let (st1, r) = put_batches(st, fid, batches.drop_last());
        if r is Ok {
            put_batch(st1, fid, batches.last())
        } else {
            (st1, r)
        }
    }
}

/// Whether there is a free page each time that one is needed.
pub open spec fn batches_have_space(
    st: Store,
    fid: FileID,
    batches: Seq<Seq<Seq<Seq<u8>>>>,
) -> bool
    decreases batches.len(),
{
    batches.len() > 0 ==> {
        let (st1, r) = put_batches(st, fid, batches.drop_last());
        &&& batches_have_space(st, fid, batches.drop_last())
        &&& r is Ok ==> batch_has_space(st1, fid, batches.last())
    }
}

/// The records of all batches.
pub open spec fn all_records(batches: Seq<Seq<Seq<Seq<u8>>>>) -> Seq<Seq<Seq<u8>>>
    decreases batches.len(),
{
    if batches.len() == 0 {
        Seq::empty()
    } else {
        all_records(batches.drop_last()) + batches.last()
    }
}

/// The bytes of the records of two lists.
proof fn lemma_record_bytes(a: Seq<Seq<Seq<u8>>>, b: Seq<Seq<Seq<u8>>>)
    ensures
        record_bytes(a + b) == record_bytes(a) + record_bytes(b),
    decreases b.len(),
{
    if b.len() == 0 {
        assert(a + b =~= a);
        assert(record_bytes(a) + record_bytes(b) =~= record_bytes(a));
    } else {
        lemma_record_bytes(a, b.drop_last());
        assert((a + b).drop_last() =~= a + b.drop_last());
        assert((a + b).last() == b.last());
        assert(record_bytes(a + b) =~= record_bytes(a) + record_bytes(b));
    }
}

/// Where the records of two lists start.
proof fn lemma_record_start(a: Seq<Seq<Seq<u8>>>, b: Seq<Seq<Seq<u8>>>, i: int)
    requires
        0 <= i <= a.len() + b.len(),
    ensures
        record_start(a + b, i) == if i <= a.len() {
            record_start(a, i)
        } else {
            record_start(a, a.len() as int) + record_start(b, i - a.len())
        },
{
    if i <= a.len() {
        assert((a + b).take(i) =~= a.take(i));
    } else {
        assert((a + b).take(i) =~= a + b.take(i - a.len()));
        assert(a.take(a.len() as int) =~= a);
        lemma_record_bytes(a, b.take(i - a.len()));
    }
}

/// The starts of the records of two lists.
proof fn lemma_starts(base: int, a: Seq<Seq<Seq<u8>>>, b: Seq<Seq<Seq<u8>>>)
    ensures
        starts_from(base, a + b) == starts_from(base, a).union(
            starts_from(base + record_bytes(a).len(), b),
        ),
{
    let n = a.len() as int;
    let mid = base + record_bytes(a).len();
    assert(a.take(n) =~= a);
    let all = starts_from(base, a).union(starts_from(mid, b));
    assert forall|x: int| #[trigger] starts_from(base, a + b).contains(x) <==> all.contains(x) by {
        if starts_from(base, a + b).contains(x) {
            let i = choose|i: int|
                0 <= i <= (a + b).len() && x == base + #[trigger] record_start(a + b, i);
            lemma_record_start(a, b, i);
            if i <= n {
                assert(x == base + record_start(a, i));
            } else {
                assert(x == mid + record_start(b, i - n));
            }
        }
        if starts_from(base, a).contains(x) {
            let i = choose|i: int| 0 <= i <= a.len() && x == base + #[trigger] record_start(a, i);
            lemma_record_start(a, b, i);
            assert(x == base + record_start(a + b, i));
        }
        if starts_from(mid, b).contains(x) {
            let i = choose|i: int| 0 <= i <= b.len() && x == mid + #[trigger] record_start(b, i);
            if i == 0 {
                assert(b.take(0) =~= Seq::empty());
                lemma_record_start(a, b, n);
                assert(x == base + record_start(a + b, n));
            } else {
                lemma_record_start(a, b, n + i);
                assert(x == base + record_start(a + b, n + i));
            }
        }
    }
    assert(starts_from(base, a + b) =~= all);
}

/// What holds of a writer while records are written with it: `data` has been written since `st0`,
/// and the writer knows of the record boundaries in `b` and `bounds`.
spec fn writing(
    st0: Store,
    st: Store,
    w: WriterModel,
    b: Set<int>,
    bounds: Set<int>,
    data: Seq<u8>,
) -> bool {
    &&& sound(st)
    &&& durable(st)
    &&& writer_ok(st, w)
    &&& writer_open(st, w)
    &&& records_ok(st, w, b)
    &&& w.bounds == bounds
    &&& written(st, w) == data
    &&& st.files == st0.files
    &&& w.position() == st0.files[w.fid as int].end + data.len()
    &&& forall|fid: int|
        0 <= fid < FILE_COUNT ==> #[trigger] file_bytes(st, fid) == file_bytes(st0, fid)
    &&& whole(st0.flash, st0.files[w.fid as int]) ==> whole(st.flash, target(st, w))
    &&& forall|fid: int|
        0 <= fid < FILE_COUNT ==> #[trigger] pages_of(st, fid) == pages_of(st0, fid)
}

/// Writing the pieces of a record.
proof fn lemma_put_pieces(
    st0: Store,
    st: Store,
    w: WriterModel,
    pieces: Seq<Seq<u8>>,
    b: Set<int>,
    data: Seq<u8>,
)
    requires
        writing(st0, st, w, b, w.bounds, data),
        pieces_have_space(st, w, pieces),
        put_pieces(st, w, pieces).2 is Ok,
    ensures
        ({
            let (st1, w1, r) = put_pieces(st, w, pieces);
            &&& writing(st0, st1, w1, b, w.bounds, data + joined(pieces))
            &&& w1.fid == w.fid
        }),
    decreases pieces.len(),
{
    if pieces.len() == 0 {
        assert(data + joined(pieces) =~= data);
    } else {
        lemma_put_pieces(st0, st, w, pieces.drop_last(), b, data);
        let (st1, w1, r) = put_pieces(st, w, pieces.drop_last());
        let d1 = data + joined(pieces.drop_last());
        let piece = pieces.last();
        law_append(st1, w1, piece);
        law_append_durable(st1, w1, piece);
        law_append_records(st1, w1, piece, b);
        let (st2, w2, r2) = append(st1, w1, piece);
        law_position(st2, w2);
        assert(d1 + piece =~= data + joined(pieces));
        assert forall|fid: int| 0 <= fid < FILE_COUNT implies #[trigger] file_bytes(st2, fid)
            == file_bytes(st0, fid) by {
            assert(file_bytes(st1, fid) == file_bytes(st0, fid));
        }
        assert forall|fid: int| 0 <= fid < FILE_COUNT implies #[trigger] pages_of(st2, fid)
            == pages_of(st0, fid) by {
            assert(pages_of(st1, fid) == pages_of(st0, fid));
        }
    }
}

/// Writing records.
proof fn lemma_put_records(
    st0: Store,
    st: Store,
    w: WriterModel,
    records: Seq<Seq<Seq<u8>>>,
    b: Set<int>,
)
    requires
        writing(st0, st, w, b, w.bounds, Seq::empty()),
        records_have_space(st, w, records),
        put_records(st, w, records).2 is Ok,
        w.bounds == starts_from(w.position(), Seq::empty()),
    ensures
        ({
            let (st1, w1, r) = put_records(st, w, records);
            &&& writing(
                st0,
                st1,
                w1,
                b,
                starts_from(w.position(), records),
                record_bytes(records),
            )
            &&& w1.fid == w.fid
        }),
    decreases records.len(),
{
    if records.len() == 0 {
        assert(records =~= Seq::empty());
    } else {
        let head = records.drop_last();
        let one = seq![records.last()];
        lemma_put_records(st0, st, w, head, b);
        let (st1, w1, r) = put_records(st, w, head);
        lemma_put_pieces(st0, st1, w1, records.last(), b, record_bytes(head));
        let (st2, w2, r2) = put_pieces(st1, w1, records.last());
        let w3 = record_ended(w2);
        law_record_end(st2, w2, b);
        assert(target(st2, w3) == target(st2, w2));
        assert(head + one =~= records);
        lemma_starts(w.position(), head, one);
        let mid = w.position() + record_bytes(head).len();
        assert(starts_from(w.position(), head).contains(mid)) by {
            assert(head.take(head.len() as int) =~= head);
            assert(mid == w.position() + record_start(head, head.len() as int));
        }
        assert(one.take(0) =~= Seq::empty());
        assert(one.take(1) =~= one);
        assert(record_bytes(one.drop_last()) =~= Seq::empty());
        assert(record_bytes(one) =~= joined(records.last()));
        assert forall|x: int| #[trigger] starts_from(mid, one).contains(x) <==> x == mid || x
            == w2.position() by {
            assert(mid + record_start(one, 0) == mid);
            assert(mid + record_start(one, 1) == w2.position());
        }
        assert(w3.bounds =~= starts_from(w.position(), records));
        assert(writer_ok(st2, w3)) by {
            assert forall|p: int| #[trigger] writer_has(st2, w3, p) <==> writer_has(st2, w2, p) by {}
        }
    }
}

/// A batch of records: what is written with a new writer, with the end of each record marked, and
/// committed. If the headers of the pages have the offsets of the record boundaries in `b`, they
/// then have those of the new records as well, and the first page that the writer completes starts
/// with a record.
pub proof fn law_batch(st: Store, fid: FileID, records: Seq<Seq<Seq<u8>>>, b: Set<int>)
    requires
        sound(st),
        durable(st),
        fid < FILE_COUNT,
        marked(st.flash, st.files[fid as int], b),
        forall|x: int| #[trigger] b.contains(x) ==> x <= st.files[fid as int].end,
        batch_has_space(st, fid, records),
        put_batch(st, fid, records).1 is Ok,
    ensures
        ({
            let st1 = put_batch(st, fid, records).0;
            let f = st.files[fid as int];
            let f1 = st1.files[fid as int];
            let n = pages_of(st, fid as int).len() as int;
            &&& sound(st1)
            &&& durable(st1)
            &&& file_bytes(st1, fid as int) == file_bytes(st, fid as int) + record_bytes(records)
            &&& f1.first == f.first
            &&& f1.end == f.end + record_bytes(records).len()
            &&& marked(st1.flash, f1, b.union(starts_from(f.end as int, records)))
            &&& whole(st.flash, f) ==> whole(st1.flash, f1)
            &&& n < pages_of(st1, fid as int).len() ==> {
                &&& pages_of(st1, fid as int)[n].header.seq == f.end
                &&& pages_of(st1, fid as int)[n].header.record_boundary == 0
            }
        }),
{
    let i = fid as int;
    let f = st.files[i];
    let w = new_writer(st, fid);
    let none = Seq::<Seq<Seq<u8>>>::empty();
    law_new_writer(st, fid);
    law_new_writer_records(st, fid, b);
    assert(target(st, w) =~= f);
    assert(w.bounds =~= starts_from(f.end as int, none)) by {
        assert(none.take(0) =~= none);
        assert forall|x: int| #[trigger] starts_from(f.end as int, none).contains(x) <==> x
            == f.end by {
            assert(f.end + record_start(none, 0) == f.end);
        }
    }
    lemma_put_records(st, st, w, records, b);
    let (st1, w1, r) = put_records(st, w, records);
    let empty = Seq::<(FileID, usize)>::empty();
    lemma_commit_went_well(st1, Some(w1), empty);
    assert(commit_list(Some(w1), empty).len() == 1);
    law_commit_only(st1, w1);
    law_commit_searchable(st1, w1, b);
    law_commit_records(st1, w1, b);
    law_commit_writer(st1, w1);
    let st2 = commit_writer(st1, w1).0;
    let st3 = commit_all(st1, Some(w1), empty).0;
    assert(truncate_some(st2, empty, 0) == (st2, Ok::<(), Error>(())));
    lemma_commit_pages(st1, Some(w1), empty);
    assert(pages_of(st1, i) == pages_of(st, i));
    assert(file_bytes(st1, i) == file_bytes(st, i));
    assert(file_ok(st3.flash, st3.files[i]));
    assert(file_ok(st.flash, f));
    lemma_contents_len(st.flash, f);
    lemma_contents_len(st3.flash, st3.files[i]);
    assert(w1.bounds.contains(f.end as int)) by {
        assert(records.take(0) =~= none);
        assert(f.end + record_start(records, 0) == f.end);
    }
    assert(pages_of(st3, i) == pages_of(st2, i));
}

/// No record starts behind the end of all.
proof fn lemma_start_bound(records: Seq<Seq<Seq<u8>>>, i: int)
    requires
        0 <= i <= records.len(),
    ensures
        0 <= record_start(records, i) <= record_bytes(records).len(),
{
    let a = records.take(i);
    let b = records.skip(i);
    assert(a + b =~= records);
    lemma_record_bytes(a, b);
}

/// Any number of batches, one after the other.
pub proof fn law_batches(st: Store, fid: FileID, batches: Seq<Seq<Seq<Seq<u8>>>>, b: Set<int>)
    requires
        sound(st),
        durable(st),
        fid < FILE_COUNT,
        marked(st.flash, st.files[fid as int], b),
        forall|x: int| #[trigger] b.contains(x) ==> x <= st.files[fid as int].end,
        batches_have_space(st, fid, batches),
        put_batches(st, fid, batches).1 is Ok,
    ensures
        ({
            let st1 = put_batches(st, fid, batches).0;
            let all = all_records(batches);
            let f = st.files[fid as int];
            let f1 = st1.files[fid as int];
            &&& sound(st1)
            &&& durable(st1)
            &&& file_bytes(st1, fid as int) == file_bytes(st, fid as int) + record_bytes(all)
            &&& f1.first == f.first
            &&& f1.end == f.end + record_bytes(all).len()
            &&& marked(st1.flash, f1, b.union(starts_from(f.end as int, all)))
            &&& whole(st.flash, f) ==> whole(st1.flash, f1)
        }),
    decreases batches.len(),
{
    let i = fid as int;
    let f = st.files[i];
    let none = Seq::<Seq<Seq<u8>>>::empty();
    if batches.len() == 0 {
        let c = b.union(starts_from(f.end as int, none));
        assert forall|k: int| 0 <= k < file_run(st.flash, f).len() implies page_marked(
            st.flash,
            #[trigger] file_run(st.flash, f)[k],
            c,
        ) by {
            lemma_run_page(st.flash, f, k);
            assert forall|x: int|
                file_run(st.flash, f)[k].header.seq <= x < page_end(
                    st.flash,
                    file_run(st.flash, f)[k],
                ) implies (#[trigger] b.contains(x) <==> c.contains(x)) by {
                if starts_from(f.end as int, none).contains(x) {
                    assert(record_bytes(none.take(0)).len() == 0);
                }
            }
            lemma_page_marked(st.flash, file_run(st.flash, f)[k], b, c);
        }
        assert(file_bytes(st, i) + record_bytes(none) =~= file_bytes(st, i));
    } else {
        let head = batches.drop_last();
        let last = batches.last();
        let before = all_records(head);
        law_batches(st, fid, head, b);
        let st1 = put_batches(st, fid, head).0;
        let f1 = st1.files[i];
        let b1 = b.union(starts_from(f.end as int, before));
        assert forall|x: int| #[trigger] b1.contains(x) implies x <= f1.end by {
            if starts_from(f.end as int, before).contains(x) {
                let j = choose|j: int|
                    0 <= j <= before.len() && x == f.end + #[trigger] record_start(before, j);
                lemma_start_bound(before, j);
            }
        }
        law_batch(st1, fid, last, b1);
        lemma_starts(f.end as int, before, last);
        lemma_record_bytes(before, last);
        assert(b1.union(starts_from(f1.end as int, last)) =~= b.union(
            starts_from(f.end as int, all_records(batches)),
        ));
        assert(file_bytes(st, i) + record_bytes(before) + record_bytes(last) =~= file_bytes(st, i)
            + record_bytes(all_records(batches)));
    }
}

/// Whether the header of a page has the offset of the first record that starts on the page, or
/// says that there is none.
pub open spec fn names_record(fl: Seq<Seq<u8>>, pp: Ptr, records: Seq<Seq<Seq<u8>>>) -> bool {
    let seq = pp.header.seq as int;
    let offset = pp.header.record_boundary;
    let len = payload(fl, pp).len();
    if offset == NO_BOUNDARY {
        forall|j: int|
            0 <= j < records.len() ==> !(seq <= #[trigger] record_start(records, j) < seq + len)
    } else {
        &&& offset < len
        &&& exists|j: int|
            0 <= j < records.len() && #[trigger] record_start(records, j) == seq + offset
        &&& forall|j: int|
            0 <= j < records.len() ==> !(seq <= #[trigger] record_start(records, j) < seq + offset)
    }
}

/// A file that has been written record by record, with the end of each record marked, and with a
/// new writer for each commit. The header of every page either says that no record starts on it,
/// or has the offset of a byte of the page with which a record starts; no record starts on the
/// page before that byte. Such a file can be searched.
pub proof fn law_record_headers(st: Store, fid: FileID, batches: Seq<Seq<Seq<Seq<u8>>>>)
    requires
        sound(st),
        durable(st),
        fid < FILE_COUNT,
        st.files[fid as int].last is None,
        batches_have_space(st, fid, batches),
        put_batches(st, fid, batches).1 is Ok,
    ensures
        ({
            let st1 = put_batches(st, fid, batches).0;
            let all = all_records(batches);
            let f = st1.files[fid as int];
            let run = pages_of(st1, fid as int);
            &&& file_bytes(st1, fid as int) == record_bytes(all)
            &&& forall|i: int|
                0 <= i < run.len() ==> names_record(st1.flash, #[trigger] run[i], all)
            &&& f.last is Some ==> searchable(st1.flash, f) && whole(st1.flash, f)
        }),
{
    let k = fid as int;
    let f0 = st.files[k];
    let b = Set::<int>::empty();
    assert(file_ok(st.flash, f0));
    lemma_empty_file(st.flash, f0);
    law_batches(st, fid, batches, b);
    let st1 = put_batches(st, fid, batches).0;
    let all = all_records(batches);
    let f = st1.files[k];
    let run = pages_of(st1, k);
    let starts = b.union(starts_from(0, all));
    assert(file_bytes(st, k) + record_bytes(all) =~= record_bytes(all)) by {
        law_empty(st, k);
    }
    assert forall|j: int| 0 <= j <= all.len() implies starts.contains(
        #[trigger] record_start(all, j),
    ) by {
        assert(record_start(all, j) == 0 + record_start(all, j));
    }
    assert forall|i: int| 0 <= i < run.len() implies names_record(
        st1.flash,
        #[trigger] run[i],
        all,
    ) by {
        let pp = run[i];
        assert(page_marked(st1.flash, pp, starts));
        lemma_run_page(st1.flash, f, i);
        if pp.header.record_boundary == NO_BOUNDARY {
            lemma_data_payload_len(st1.flash[pp.page as int]);
            assert forall|j: int| 0 <= j < all.len() implies !(pp.header.seq
                <= #[trigger] record_start(all, j) < page_end(st1.flash, pp)) by {
                assert(starts.contains(record_start(all, j)));
            }
        } else {
            let x = pp.header.seq + pp.header.record_boundary;
            assert(starts_from(0, all).contains(x));
            let j = choose|j: int| 0 <= j <= all.len() && x == 0 + #[trigger] record_start(all, j);
            if j == all.len() {
                assert(all.take(j) =~= all);
            }
            assert(0 <= j < all.len() && record_start(all, j) == x);
        }
    }
    if f.last is Some {
        assert(starts.contains(0)) by {
            assert(record_bytes(all.take(0)).len() == 0);
            assert(0 == 0 + record_start(all, 0));
        }
        law_searchable(st1.flash, f, starts);
    }
}

} // verus!
