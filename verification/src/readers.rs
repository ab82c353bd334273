//! What readers get, wherever they are: on a page of the file, on a page that has since been
//! dropped from it, or outside of it.

use vstd::prelude::*;

use crate::chain::{
    contents, file_ok, file_run, lemma_contents_len, lemma_empty_file, lemma_run_last,
    lemma_run_page, lemma_run_sorted,
};
use crate::commit_laws::{law_truncate, lemma_truncate_run};
use crate::config::FILE_COUNT;
use crate::headers::{data_payload, PAGE_MAX_PAYLOAD_SIZE};
use crate::page::ReadError;
use crate::read_laws::{
    law_read, law_seek, law_skip, lemma_reader_at, lemma_seek_to, on_page, reader_at,
};
use crate::reader::{
    go_to, moved, read_bytes, read_ready, reader_seq, seek_to, settle, skip_bytes, skip_in_page,
    ReaderModel,
};
use crate::sound::{file_bytes, sound};
use crate::store::{empty_file, file_page, truncate_one, FileModel, Ptr, Store};
use crate::Error;

verus! {

/// Whether a reader has read all of the page that it is on.
pub open spec fn used_up(fl: Seq<Seq<u8>>, s: ReaderModel) -> bool {
    s matches ReaderModel::Reading { seq, page, pos } && data_payload(fl[page as int]) matches Some(
        b,
    ) && pos >= b.len()
}

/// Whether a reader is to go on `off` bytes into a file. It need not be on a page of the file, if
/// it has read all of the page that it is on.
pub open spec fn stands_at(fl: Seq<Seq<u8>>, f: FileModel, s: ReaderModel, off: int) -> bool {
    ||| reader_at(fl, f, s, off)
    ||| used_up(fl, s) && if f.last is None {
        off == 0
    } else {
        f.first <= s->Reading_seq <= f.end && off == s->Reading_seq - f.first
    }
}

/// A read first settles the reader on a page that has bytes left.
proof fn lemma_settled(fl: Seq<Seq<u8>>, f: FileModel, s: ReaderModel, t: ReaderModel, n: int)
    requires
        n > 0,
        settle(fl, f, s) == Ok::<ReaderModel, Error>(t),
        settle(fl, f, t) == Ok::<ReaderModel, Error>(t),
    ensures
        read_bytes(fl, f, s, n) == read_bytes(fl, f, t, n),
{
}

/// A read of `n` bytes gets the bytes of the file from where the reader is to go on, whether or
/// not the page that it has used up still belongs to the file. It succeeds exactly when the file
/// has that many bytes; otherwise it gets what there is, and reports the end of the file.
pub proof fn law_read_on(fl: Seq<Seq<u8>>, f: FileModel, s: ReaderModel, off: int, n: int)
    requires
        file_ok(fl, f),
        stands_at(fl, f, s, off),
        0 <= n,
    ensures
        ({
            let out = read_bytes(fl, f, s, n);
            let data = contents(fl, f);
            if off + n <= data.len() {
                &&& out.result == Ok::<(), ReadError>(())
                &&& out.bytes == data.subrange(off, off + n)
                &&& stands_at(fl, f, out.state, off + n)
                &&& n > 0 ==> reader_at(fl, f, out.state, off + n)
            } else {
                &&& out.result == Err::<(), ReadError>(ReadError::Eof)
                &&& out.bytes == data.subrange(off, data.len() as int)
                &&& out.state is Finished
            }
        }),
{
    let data = contents(fl, f);
    lemma_contents_len(fl, f);
    if reader_at(fl, f, s, off) {
        law_read(fl, f, s, off, n);
    } else if n == 0 {
        if f.last is None {
            lemma_empty_file(fl, f);
        }
        assert(data.subrange(off, off) =~= Seq::empty());
    } else {
        let seq = s->Reading_seq;
        if f.last is None {
            lemma_empty_file(fl, f);
            assert(file_page(fl, f, seq) == Ok::<Option<Ptr>, Error>(None));
            assert(data.subrange(0, 0) =~= Seq::empty());
        } else {
            lemma_seek_to(fl, f, seq);
            let t = seek_to(fl, f, seq)->Ok_0;
            lemma_settled(fl, f, s, t, n);
            law_read(fl, f, t, off, n);
        }
    }
}

/// Skipping from where a reader is to go on.
pub proof fn law_skip_on(fl: Seq<Seq<u8>>, f: FileModel, s: ReaderModel, off: int, n: int)
    requires
        file_ok(fl, f),
        stands_at(fl, f, s, off),
        0 <= n,
        s is Finished ==> n == 0,
        f.last is None ==> s !is Reading,
    ensures
        ({
            let (t, r) = skip_bytes(fl, f, s, n);
            if off + n <= contents(fl, f).len() {
                &&& r == Ok::<(), ReadError>(())
                &&& stands_at(fl, f, t, off + n)
                &&& n == 0 ==> t == s
            } else {
                &&& r == Err::<(), ReadError>(ReadError::Eof)
                &&& exists|off1: int|
                    off <= off1 <= contents(fl, f).len() && #[trigger] stands_at(fl, f, t, off1)
                &&& !reader_at(fl, f, s, off) ==> t == s
            }
        }),
{
    lemma_contents_len(fl, f);
    let (t, r) = skip_bytes(fl, f, s, n);
    if reader_at(fl, f, s, off) {
        law_skip(fl, f, s, off, n);
        if off + n <= contents(fl, f).len() {
            assert(stands_at(fl, f, t, off + n));
            if n == 0 {
                assert(skip_in_page(fl, s, 0) == 0);
                assert(moved(s, 0) == s);
            }
        } else {
            let off1 = choose|off1: int|
                off <= off1 <= contents(fl, f).len() && #[trigger] reader_at(fl, f, t, off1);
            assert(stands_at(fl, f, t, off1));
        }
    } else {
        assert(skip_in_page(fl, s, n) == 0);
        assert(moved(s, 0) == s);
        law_seek(fl, f, s, off + n);
        if n > 0 && off + n <= contents(fl, f).len() {
            assert(reader_at(fl, f, t, off + n));
        }
    }
}

/// A reader that has bytes left on its page gets those first, whatever has become of the file, and
/// then goes on as a reader that has used up the page.
pub proof fn law_read_page(fl: Seq<Seq<u8>>, f: FileModel, s: ReaderModel, n: int)
    requires
        s is Reading,
        data_payload(fl[s->Reading_page as int]) is Some,
        0 <= s->Reading_pos < data_payload(fl[s->Reading_page as int])->0.len(),
        s->Reading_seq + data_payload(fl[s->Reading_page as int])->0.len() - s->Reading_pos
            <= u32::MAX,
        0 < n,
    ensures
        ({
            let b = data_payload(fl[s->Reading_page as int])->0;
            let pos = s->Reading_pos;
            let left = b.len() - pos;
            let out = read_bytes(fl, f, s, n);
            if n <= left {
                &&& out.result == Ok::<(), ReadError>(())
                &&& out.bytes == b.subrange(pos, pos + n)
                &&& out.state == moved(s, n)
            } else {
                let rest = read_bytes(fl, f, moved(s, left), n - left);
                &&& used_up(fl, moved(s, left))
                &&& out.result == rest.result
                &&& out.bytes == b.skip(pos) + rest.bytes
                &&& out.state == rest.state
            }
        }),
{
    let b = data_payload(fl[s->Reading_page as int])->0;
    let pos = s->Reading_pos;
    let left = b.len() - pos;
    if n <= left {
        let none = Seq::<u8>::empty();
        assert(read_bytes(fl, f, moved(s, n), 0).bytes == none);
        assert(b.subrange(pos, pos + n) + none =~= b.subrange(pos, pos + n));
    } else {
        assert(b.subrange(pos, pos + left) =~= b.skip(pos));
    }
}

/// A reader that has used up its page and is outside of the file, because the bytes that it was to
/// read next have been dropped, or the file has been deleted, is at the end.
pub proof fn law_read_outside(fl: Seq<Seq<u8>>, f: FileModel, s: ReaderModel, n: int)
    requires
        used_up(fl, s),
        f.last is None || s->Reading_seq < f.first || s->Reading_seq >= f.end,
        0 < n,
    ensures
        ({
            let out = read_bytes(fl, f, s, n);
            &&& out.result == Err::<(), ReadError>(ReadError::Eof)
            &&& out.bytes == Seq::<u8>::empty()
            &&& out.state is Finished
        }),
{
}

/// A reader whose page can no longer be read gets nothing and stays where it is.
pub proof fn law_read_unreadable(fl: Seq<Seq<u8>>, f: FileModel, s: ReaderModel, n: int)
    requires
        s is Reading,
        data_payload(fl[s->Reading_page as int]) is None,
        0 < n,
    ensures
        read_bytes(fl, f, s, n).result == Err::<(), ReadError>(ReadError::Corrupted),
        read_bytes(fl, f, s, n).bytes == Seq::<u8>::empty(),
        read_bytes(fl, f, s, n).state == s,
{
}

/// A read that gets to bytes for which there are no sequence numbers gets the bytes and fails.
pub proof fn law_read_overflow(fl: Seq<Seq<u8>>, f: FileModel, s: ReaderModel, n: int)
    requires
        s is Reading,
        data_payload(fl[s->Reading_page as int]) is Some,
        0 <= s->Reading_pos < data_payload(fl[s->Reading_page as int])->0.len(),
        0 < n,
    ensures
        ({
            let b = data_payload(fl[s->Reading_page as int])->0;
            let pos = s->Reading_pos;
            let k = if n <= b.len() - pos {
                n
            } else {
                b.len() - pos
            };
            let out = read_bytes(fl, f, s, n);
            s->Reading_seq + k > u32::MAX ==> {
                &&& out.result == Err::<(), ReadError>(ReadError::Corrupted)
                &&& out.bytes == b.subrange(pos, pos + k)
                &&& out.state == ReaderModel::Reading {
                    seq: s->Reading_seq,
                    page: s->Reading_page,
                    pos: pos + k,
                }
            }
        }),
{
}

/// What holds of every read, whatever the device holds: a success comes with all the bytes, and
/// the reader is then that many bytes further on. The end of the file is reported only where the
/// file has no next byte, and finishes the reader.
pub proof fn law_read_outcome(fl: Seq<Seq<u8>>, f: FileModel, s: ReaderModel, n: int)
    requires
        0 <= n,
        s is Reading ==> s->Reading_pos >= 0,
        read_ready(fl, f, s, n),
    ensures
        ({
            let out = read_bytes(fl, f, s, n);
            let x = reader_seq(f, s) + out.bytes.len();
            &&& out.bytes.len() <= n
            &&& n == 0 ==> out.result is Ok && out.state == s
            &&& match out.result {
                Ok(_) => {
                    &&& out.bytes.len() == n
                    &&& n > 0 ==> out.state is Reading && out.state->Reading_seq == x
                },
                Err(ReadError::Eof) => {
                    &&& out.state is Finished
                    &&& s is Finished || f.last is None || x < f.first || x >= f.end
                },
                Err(ReadError::Corrupted) => n > 0 && s !is Finished,
            }
        }),
    decreases n,
{
    if n > 0 {
        if let Ok(ReaderModel::Reading { seq, page, pos }) = settle(fl, f, s) {
            let b = data_payload(fl[page as int])->0;
            let k = if n <= b.len() - pos {
                n
            } else {
                b.len() - pos
            };
            if k > 0 && seq + k <= u32::MAX {
                let t = ReaderModel::Reading { seq: (seq + k) as u32, page, pos: pos + k };
                law_read_outcome(fl, f, t, n - k);
            }
        }
    }
}

/// Dropping bytes that a reader has read already does not concern the reader: it goes on in the
/// truncated file where it was, even if the page that it has used up is given back.
pub proof fn law_truncate_reader(st: Store, fid: int, n: int, s: ReaderModel, off: int)
    requires
        sound(st),
        0 <= fid < FILE_COUNT,
        stands_at(st.flash, st.files[fid], s, off),
        0 <= n <= off,
    ensures
        ({
            let st1 = truncate_one(st, fid, n).0;
            &&& stands_at(st1.flash, st1.files[fid], s, off - n)
            &&& off <= file_bytes(st, fid).len()
            &&& file_bytes(st1, fid) == file_bytes(st, fid).skip(n)
        }),
{
    let fl = st.flash;
    let f = st.files[fid];
    let st1 = truncate_one(st, fid, n).0;
    let f1 = st1.files[fid];
    let run = file_run(fl, f);
    let run1 = file_run(fl, f1);
    assert(file_ok(fl, f));
    lemma_contents_len(fl, f);
    law_truncate(st, fid, n);
    lemma_truncate_run(st, fid, n);
    if f.last is None {
        lemma_empty_file(fl, f);
    }
    reveal(reader_at);
    assert(f1 == (if n == f.end - f.first {
        empty_file()
    } else {
        FileModel { first: (f.first + n) as u32, ..f }
    }));
    if reader_at(fl, f, s, off) && s is Reading {
        let k = choose|k: int| #[trigger] on_page(fl, f, s, k);
        lemma_run_page(fl, f, k);
        lemma_run_last(fl, f);
        let j = run.len() - run1.len();
        if f1.last is Some {
            assert(file_ok(fl, f1));
            lemma_run_last(fl, f1);
            if k >= j {
                assert(run1[k - j] == run[k]);
                assert(on_page(fl, f1, s, k - j));
            } else {
                lemma_run_sorted(fl, run, f.first, f.end, k, j);
                assert(run1[0] == run[j]);
            }
        }
    }
}

/// What is dropped from the front of a file, or damaged there, does not concern a reader that is
/// behind it: a read depends on where the file starts only in that the reader must not be before.
pub proof fn law_read_heeds_no_front(
    fl: Seq<Seq<u8>>,
    f: FileModel,
    g: FileModel,
    s: ReaderModel,
    n: int,
)
    requires
        g == (FileModel { first: g.first, ..f }),
        s is Reading,
        f.first <= s->Reading_seq,
        g.first <= s->Reading_seq,
    ensures
        read_bytes(fl, f, s, n) == read_bytes(fl, g, s, n),
    decreases n,
{
    if n > 0 {
        let seq = s->Reading_seq;
        assert(seek_to(fl, f, seq) == seek_to(fl, g, seq));
        if let Ok(ReaderModel::Reading { seq, page, pos }) = settle(fl, f, s) {
            let b = data_payload(fl[page as int])->0;
            let k = if n <= b.len() - pos {
                n
            } else {
                b.len() - pos
            };
            if k > 0 && seq + k <= u32::MAX {
                let t = ReaderModel::Reading { seq: (seq + k) as u32, page, pos: pos + k };
                law_read_heeds_no_front(fl, f, g, t, n - k);
            }
        }
    }
}

/// The same of moving a reader: it depends on where the file starts only in that the place must
/// not be before.
pub proof fn law_seek_heeds_no_front(
    fl: Seq<Seq<u8>>,
    f: FileModel,
    g: FileModel,
    s: ReaderModel,
    seq: int,
)
    requires
        g == (FileModel { first: g.first, ..f }),
        f.first <= seq,
        g.first <= seq,
    ensures
        go_to(fl, f, s, seq) == go_to(fl, g, s, seq),
{
}

/// The bytes that are left on the page of a reader.
pub open spec fn left_on_page(fl: Seq<Seq<u8>>, s: ReaderModel) -> int {
    match s {
        ReaderModel::Reading { seq, page, pos } => match data_payload(fl[page as int]) {
            Some(b) => if pos < b.len() {
                b.len() - pos
            } else {
                0
            },
            None => 0,
        },
        _ => 0,
    }
}

/// Skipping, wherever the reader is. Within its page the reader just moves on, whatever has
/// become of the file. Beyond that it gets to the byte that many bytes further on, if the file
/// reaches that far. If not, it stays on its page, and does not go back.
pub proof fn law_skip_any(fl: Seq<Seq<u8>>, f: FileModel, s: ReaderModel, n: int)
    requires
        file_ok(fl, f),
        s !is Finished,
        s is Reading ==> data_payload(fl[s->Reading_page as int]) is Some && s->Reading_pos >= 0,
        f.first <= reader_seq(f, s),
        reader_seq(f, s) + left_on_page(fl, s) <= u32::MAX,
        left_on_page(fl, s) < PAGE_MAX_PAYLOAD_SIZE || n < PAGE_MAX_PAYLOAD_SIZE,
        0 <= n,
    ensures
        ({
            let (t, r) = skip_bytes(fl, f, s, n);
            let x = reader_seq(f, s) + n;
            if s is Reading && n <= left_on_page(fl, s) {
                r == Ok::<(), ReadError>(()) && t == moved(s, n)
            } else if n == 0 {
                r == Ok::<(), ReadError>(()) && t == s
            } else if x <= f.end {
                r == Ok::<(), ReadError>(()) && reader_at(fl, f, t, x - f.first)
            } else {
                &&& r == Err::<(), ReadError>(ReadError::Eof)
                &&& t == moved(
                    s,
                    if n < PAGE_MAX_PAYLOAD_SIZE {
                        left_on_page(fl, s)
                    } else {
                        0
                    },
                )
            }
        }),
{
    let c = skip_in_page(fl, s, n);
    lemma_contents_len(fl, f);
    if s is Reading {
        assert(moved(s, 0) == s);
    }
    if c < n {
        law_seek(fl, f, moved(s, c), reader_seq(f, s) + n - f.first);
    }
}

/// Skipping on a page that can no longer be read: as far as the page has to be looked at, it
/// fails and leaves the reader where it is.
pub proof fn law_skip_unreadable(fl: Seq<Seq<u8>>, f: FileModel, s: ReaderModel, n: int)
    requires
        s is Reading,
        data_payload(fl[s->Reading_page as int]) is None,
        0 <= n < PAGE_MAX_PAYLOAD_SIZE,
    ensures
        skip_bytes(fl, f, s, n) == (s, Err::<(), ReadError>(ReadError::Corrupted)),
{
}

/// Reading after skipping gets what reading gets behind the bytes that were skipped.
pub proof fn law_skip_then_read(
    fl: Seq<Seq<u8>>,
    f: FileModel,
    s: ReaderModel,
    off: int,
    a: int,
    b: int,
)
    requires
        file_ok(fl, f),
        reader_at(fl, f, s, off),
        s !is Finished,
        0 <= a,
        0 <= b,
        off + a + b <= contents(fl, f).len(),
    ensures
        ({
            let t = skip_bytes(fl, f, s, a).0;
            read_bytes(fl, f, s, a + b).bytes == read_bytes(fl, f, s, a).bytes + read_bytes(
                fl,
                f,
                t,
                b,
            ).bytes
        }),
{
    lemma_reader_at(fl, f, s, off);
    law_skip(fl, f, s, off, a);
    let t = skip_bytes(fl, f, s, a).0;
    law_read(fl, f, s, off, a);
    law_read(fl, f, s, off, a + b);
    law_read(fl, f, t, off + a, b);
    let c = contents(fl, f);
    assert(c.subrange(off, off + a) + c.subrange(off + a, off + a + b) =~= c.subrange(
        off,
        off + a + b,
    ));
}

} // verus!
