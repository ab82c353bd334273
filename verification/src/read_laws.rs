//! What reading from a well-formed file gives.

use vstd::prelude::*;

use crate::chain::{
    contents, file_ok, file_run, lemma_contents_len, lemma_contents_slice, lemma_file_page_found,
    lemma_run_last, lemma_run_page, page_end,
};
use crate::headers::{data_payload, PAGE_MAX_PAYLOAD_SIZE};
use crate::page::ReadError;
use crate::reader::{
    go_ready, go_to, moved, read_bytes, read_ready, reader_seq, seek_ready, seek_to, settle,
    skip_bytes, skip_in_page, skip_ready, ReaderModel,
};
use crate::store::{file_page, lemma_file_page, FileModel, Ptr};
use crate::Error;

verus! {

/// Whether page `k` of a file is the one that a reader is on.
pub open spec fn on_page(fl: Seq<Seq<u8>>, f: FileModel, s: ReaderModel, k: int) -> bool {
    let pp = file_run(fl, f)[k];
    &&& 0 <= k < file_run(fl, f).len()
    &&& s->Reading_page == pp.page
    &&& pp.header.seq <= s->Reading_seq <= page_end(fl, pp)
    &&& s->Reading_pos == s->Reading_seq - pp.header.seq
}

/// Whether a reader of a file is `off` bytes into the file.
#[verifier::opaque]
pub open spec fn reader_at(fl: Seq<Seq<u8>>, f: FileModel, s: ReaderModel, off: int) -> bool {
    match s {
        ReaderModel::Created => off == 0,
        ReaderModel::Reading { seq, .. } => {
            &&& off == seq - f.first
            &&& f.last is Some
            &&& f.first <= seq <= f.end
            &&& exists|k: int| #[trigger] on_page(fl, f, s, k)
        },
        ReaderModel::Finished => off == f.end - f.first,
    }
}

/// In a well-formed file, no page starts behind a byte that is looked for on it.
proof fn lemma_seek_ready(fl: Seq<Seq<u8>>, f: FileModel, seq: u32)
    requires
        file_ok(fl, f),
    ensures
        seek_ready(fl, f, seq),
{
    lemma_file_page(fl, f, seq);
    if f.last is Some {
        lemma_run_last(fl, f);
        lemma_run_page(fl, f, file_run(fl, f).len() - 1);
    }
}

/// A well-formed file can be read from and skipped in, and a reader moved to any offset.
pub proof fn law_read_ready(fl: Seq<Seq<u8>>, f: FileModel, s: ReaderModel, n: int)
    requires
        file_ok(fl, f),
    ensures
        read_ready(fl, f, s, n),
        go_ready(fl, f, f.first + n),
    decreases n,
{
    lemma_seek_ready(fl, f, f.first);
    if 0 <= f.first + n <= u32::MAX {
        lemma_seek_ready(fl, f, (f.first + n) as u32);
    }
    if s is Reading {
        lemma_seek_ready(fl, f, s->Reading_seq);
    }
    if n > 0 {
        if let Ok(ReaderModel::Reading { seq, page, pos }) = settle(fl, f, s) {
            let b = data_payload(fl[page as int])->0;
            let k = if n <= b.len() - pos {
                n
            } else {
                b.len() - pos
            };
            if k > 0 && seq + k <= u32::MAX {
                law_read_ready(
                    fl,
                    f,
                    ReaderModel::Reading { seq: (seq + k) as u32, page, pos: pos + k },
                    n - k,
                );
            }
        }
    }
}

/// Moving to a byte of the file puts the reader on the page that holds it.
pub proof fn lemma_seek_to(fl: Seq<Seq<u8>>, f: FileModel, seq: u32)
    requires
        file_ok(fl, f),
        f.first <= seq <= f.end,
    ensures
        seek_to(fl, f, seq) matches Ok(s) && reader_at(fl, f, s, seq - f.first) && if seq < f.end {
            s is Reading && s->Reading_pos < data_payload(fl[s->Reading_page as int])->0.len()
                && data_payload(fl[s->Reading_page as int]) is Some
        } else {
            s is Finished
        },
{
    reveal(reader_at);
    if seq < f.end {
        let k = lemma_file_page_found(fl, f, seq);
        let pp = file_run(fl, f)[k];
        lemma_run_page(fl, f, k);
        let s = ReaderModel::Reading { seq, page: pp.page, pos: seq - pp.header.seq };
        assert(seek_to(fl, f, seq) == Ok::<ReaderModel, Error>(s));
        assert(on_page(fl, f, s, k));
    } else {
        assert(file_page(fl, f, seq) == Ok::<Option<Ptr>, Error>(None));
    }
}

/// The offset of a reader is an offset into the file.
pub proof fn lemma_reader_at(fl: Seq<Seq<u8>>, f: FileModel, s: ReaderModel, off: int)
    requires
        file_ok(fl, f),
        reader_at(fl, f, s, off),
    ensures
        0 <= off <= contents(fl, f).len(),
        contents(fl, f).len() == f.end - f.first,
        off == reader_seq(f, s) - f.first,
{
    reveal(reader_at);
    lemma_contents_len(fl, f);
}

/// Reads up to the end of a page get the bytes of the file.
proof fn lemma_read_page(fl: Seq<Seq<u8>>, f: FileModel, s: ReaderModel, off: int, c: int)
    requires
        file_ok(fl, f),
        s is Reading,
        reader_at(fl, f, s, off),
        0 <= c,
        c <= data_payload(fl[s->Reading_page as int])->0.len() - s->Reading_pos,
    ensures
        data_payload(fl[s->Reading_page as int]) is Some,
        0 <= s->Reading_pos,
        s->Reading_seq + c <= f.end,
        data_payload(fl[s->Reading_page as int])->0.subrange(
            s->Reading_pos,
            s->Reading_pos + c,
        ) == contents(fl, f).subrange(off, off + c),
        reader_at(fl, f, moved(s, c), off + c),
{
    reveal(reader_at);
    let k = choose|k: int| #[trigger] on_page(fl, f, s, k);
    lemma_run_page(fl, f, k);
    lemma_contents_slice(fl, f, k, s->Reading_seq as int, c);
    assert(on_page(fl, f, moved(s, c), k));
}

/// A read of `n` bytes from offset `off` gets the bytes of the file from there on. It succeeds
/// exactly when the file has that many; otherwise it gets what there is and reports the end of the
/// file.
pub proof fn law_read(fl: Seq<Seq<u8>>, f: FileModel, s: ReaderModel, off: int, n: int)
    requires
        file_ok(fl, f),
        reader_at(fl, f, s, off),
        0 <= n,
    ensures
        ({
            let out = read_bytes(fl, f, s, n);
            let data = contents(fl, f);
            if off + n <= data.len() {
                &&& out.result == Ok::<(), ReadError>(())
                &&& out.bytes == data.subrange(off, off + n)
                &&& reader_at(fl, f, out.state, off + n)
            } else {
                &&& out.result == Err::<(), ReadError>(ReadError::Eof)
                &&& out.bytes == data.subrange(off, data.len() as int)
                &&& out.state is Finished
            }
        }),
    decreases n,
{
    let out = read_bytes(fl, f, s, n);
    let data = contents(fl, f);
    lemma_reader_at(fl, f, s, off);
    if n == 0 {
        assert(data.subrange(off, off) =~= Seq::empty());
    } else {
        lemma_settle(fl, f, s, off);
        let t = settle(fl, f, s)->Ok_0;
        if t is Reading {
            let pos = t->Reading_pos;
            let b = data_payload(fl[t->Reading_page as int])->0;
            let c = if n <= b.len() - pos {
                n
            } else {
                b.len() - pos
            };
            let got = b.subrange(pos, pos + c);
            lemma_read_page(fl, f, t, off, c);
            let next = moved(t, c);
            law_read(fl, f, next, off + c, n - c);
            let rest = read_bytes(fl, f, next, n - c);
            assert(out.bytes == got + rest.bytes);
            if off + n <= data.len() {
                assert(out.bytes =~= data.subrange(off, off + n));
            } else {
                assert(out.bytes =~= data.subrange(off, data.len() as int));
            }
        } else {
            assert(out.bytes =~= data.subrange(off, data.len() as int));
        }
    }
}

/// What `law_read` says of a read, wherever the reader is.
pub open spec fn reads_contents(fl: Seq<Seq<u8>>, f: FileModel, s: ReaderModel, n: int) -> bool {
    forall|off: int| #[trigger]
        reader_at(fl, f, s, off) && file_ok(fl, f) ==> {
            let out = read_bytes(fl, f, s, n);
            let data = contents(fl, f);
            if off + n <= data.len() {
                &&& out.result == Ok::<(), ReadError>(())
                &&& out.bytes == data.subrange(off, off + n)
                &&& out.bytes.len() == n
                &&& reader_at(fl, f, out.state, off + n)
            } else {
                &&& out.result == Err::<(), ReadError>(ReadError::Eof)
                &&& out.bytes == data.subrange(off, data.len() as int)
                &&& out.bytes.len() == data.len() - off
                &&& out.bytes.len() < n
                &&& out.state is Finished
            }
        }
}

pub proof fn lemma_reads_contents(fl: Seq<Seq<u8>>, f: FileModel, s: ReaderModel, n: int)
    requires
        0 <= n,
    ensures
        reads_contents(fl, f, s, n),
{
    assert forall|off: int| #[trigger] reader_at(fl, f, s, off) && file_ok(fl, f) implies {
        let out = read_bytes(fl, f, s, n);
        let data = contents(fl, f);
        if off + n <= data.len() {
            &&& out.result == Ok::<(), ReadError>(())
            &&& out.bytes == data.subrange(off, off + n)
            &&& out.bytes.len() == n
            &&& reader_at(fl, f, out.state, off + n)
        } else {
            &&& out.result == Err::<(), ReadError>(ReadError::Eof)
            &&& out.bytes == data.subrange(off, data.len() as int)
            &&& out.bytes.len() == data.len() - off
            &&& out.bytes.len() < n
            &&& out.state is Finished
        }
    } by {
        lemma_reader_at(fl, f, s, off);
        law_read(fl, f, s, off, n);
    }
}

/// Moving on to the next page does not change where a reader is.
proof fn lemma_settle(fl: Seq<Seq<u8>>, f: FileModel, s: ReaderModel, off: int)
    requires
        file_ok(fl, f),
        reader_at(fl, f, s, off),
    ensures
        settle(fl, f, s) matches Ok(t) && reader_at(fl, f, t, off) && if off < f.end - f.first {
            t is Reading && t->Reading_pos < data_payload(fl[t->Reading_page as int])->0.len()
        } else {
            t is Finished
        },
{
    reveal(reader_at);
    lemma_contents_len(fl, f);
    match s {
        ReaderModel::Created => {
            lemma_seek_to(fl, f, f.first);
        },
        ReaderModel::Reading { seq, page, pos } => {
            let k = choose|k: int| #[trigger] on_page(fl, f, s, k);
            lemma_run_page(fl, f, k);
            lemma_seek_to(fl, f, seq);
        },
        ReaderModel::Finished => {},
    }
}

/// Going to an offset succeeds exactly when the file reaches that far, and puts the reader there.
pub proof fn law_seek(fl: Seq<Seq<u8>>, f: FileModel, s: ReaderModel, off: int)
    requires
        file_ok(fl, f),
        0 <= off,
    ensures
        ({
            let (t, r) = go_to(fl, f, s, f.first + off);
            if off <= contents(fl, f).len() {
                r == Ok::<(), ReadError>(()) && reader_at(fl, f, t, off)
            } else {
                r == Err::<(), ReadError>(ReadError::Eof) && t == s
            }
        }),
{
    lemma_contents_len(fl, f);
    if off <= contents(fl, f).len() {
        lemma_seek_to(fl, f, (f.first + off) as u32);
    }
}

/// Where a skip that runs into the end of the file leaves a reader that was at offset `off`: it
/// has not been moved back, nor past the end of the file. If it is on a page, it has been moved
/// to the end of the page, unless as much was to be skipped as a page can hold; else not at all.
pub open spec fn left_at_eof(
    fl: Seq<Seq<u8>>,
    f: FileModel,
    s: ReaderModel,
    off: int,
    n: int,
    t: ReaderModel,
) -> bool {
    &&& exists|off1: int|
        off <= off1 <= contents(fl, f).len() && #[trigger] reader_at(fl, f, t, off1)
    &&& s !is Reading || n >= PAGE_MAX_PAYLOAD_SIZE ==> t == s
    &&& s is Reading && n < PAGE_MAX_PAYLOAD_SIZE ==> forall|k: int| #[trigger]
        on_page(fl, f, s, k) ==> on_page(fl, f, t, k) && t->Reading_seq == page_end(
            fl,
            file_run(fl, f)[k],
        )
}

/// Skipping `n` bytes from offset `off` puts the reader at offset `off + n`, and succeeds exactly
/// when the file reaches that far. If it does not, the reader does not go back.
pub proof fn law_skip(fl: Seq<Seq<u8>>, f: FileModel, s: ReaderModel, off: int, n: int)
    requires
        file_ok(fl, f),
        reader_at(fl, f, s, off),
        0 <= n,
        s is Finished ==> n == 0,
    ensures
        skip_ready(fl, f, s, n),
        ({
            let (t, r) = skip_bytes(fl, f, s, n);
            if off + n <= contents(fl, f).len() {
                r == Ok::<(), ReadError>(()) && reader_at(fl, f, t, off + n)
            } else {
                r == Err::<(), ReadError>(ReadError::Eof) && left_at_eof(fl, f, s, off, n, t)
            }
        }),
{
    lemma_reader_at(fl, f, s, off);
    let c = skip_in_page(fl, s, n);
    let s1 = moved(s, c);
    if s is Reading {
        reveal(reader_at);
        let k = choose|k: int| #[trigger] on_page(fl, f, s, k);
        lemma_run_page(fl, f, k);
        lemma_read_page(fl, f, s, off, c);
        if off + n > contents(fl, f).len() {
            lemma_reader_at(fl, f, s1, off + c);
            assert forall|i: int| #[trigger] on_page(fl, f, s, i) implies on_page(fl, f, s1, i) && (
            n < PAGE_MAX_PAYLOAD_SIZE ==> s1->Reading_seq == page_end(fl, file_run(fl, f)[i])) by {
                lemma_run_page(fl, f, i);
            }
        }
    }
    if c < n {
        law_seek(fl, f, s1, off + n);
        law_read_ready(fl, f, s1, off + n);
    }
}

/// Reading `a` bytes and then `b` bytes gets the same as reading `a + b` bytes at once.
pub proof fn law_read_in_pieces(
    fl: Seq<Seq<u8>>,
    f: FileModel,
    s: ReaderModel,
    off: int,
    a: int,
    b: int,
)
    requires
        file_ok(fl, f),
        reader_at(fl, f, s, off),
        0 <= a,
        0 <= b,
        off + a + b <= contents(fl, f).len(),
    ensures
        ({
            let one = read_bytes(fl, f, s, a);
            let two = read_bytes(fl, f, one.state, b);
            one.bytes + two.bytes == read_bytes(fl, f, s, a + b).bytes
        }),
{
    lemma_reader_at(fl, f, s, off);
    law_read(fl, f, s, off, a);
    law_read(fl, f, read_bytes(fl, f, s, a).state, off + a, b);
    law_read(fl, f, s, off, a + b);
    let data = contents(fl, f);
    assert(data.subrange(off, off + a) + data.subrange(off + a, off + a + b) =~= data.subrange(
        off,
        off + a + b,
    ));
}

} // verus!
