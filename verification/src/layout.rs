//! What the bytes of a page mean, byte by byte.

use vstd::prelude::*;

use crate::bytes::{bytes16, bytes32, le16, le32, lemma_le16, lemma_le32};
use crate::config::{ERASE_VALUE, FILE_COUNT, PAGE_COUNT, PAGE_SIZE, SKIPLIST_LEN};
use crate::headers::{
    data_header, data_image, data_payload, decode_meta, encode_data, encode_meta, meta_header,
    meta_image, meta_payload, DataModel, FileMeta, DATA_MAGIC, DATA_START, FILE_META_SIZE,
    META_MAGIC, META_START, PAGE_MAX_PAYLOAD_SIZE,
};
use crate::page::{
    chunk_bytes, payload_end, payload_from, PageReader, PageWriter, CHUNK_HEADER_SIZE, CHUNK_MAGIC,
};
use crate::store::{no_infos, parse_entries, parse_meta, FileInfo};
use crate::types::NO_PAGE;

verus! {

/// Integers are stored with the low byte first.
pub proof fn law_integers(s: Seq<u8>, off: int, x: u16, y: u32)
    ensures
        le16(s, off) == s[off] + 256 * s[off + 1],
        le32(s, off) == s[off] + 256 * s[off + 1] + 65536 * s[off + 2] + 16777216 * s[off + 3],
        bytes16(x).len() == 2,
        bytes16(x)[0] + 256 * bytes16(x)[1] == x,
        bytes32(y).len() == 4,
        bytes32(y)[0] + 256 * bytes32(y)[1] + 65536 * bytes32(y)[2] + 16777216 * bytes32(y)[3] == y,
{
}

/// Whether a page carries a magic number.
pub open spec fn carries(p: Seq<u8>, magic: u32) -> bool {
    p[0] + 256 * p[1] + 65536 * p[2] + 16777216 * p[3] == magic
}

/// A page is a data page exactly if it carries the magic number of data pages. Its header says
/// where it starts, which pages it leads back to, and where the first record ends.
pub proof fn law_data_header(p: Seq<u8>, i: int)
    requires
        p.len() == PAGE_SIZE,
        0 <= i < SKIPLIST_LEN,
    ensures
        data_header(p) is Some <==> carries(p, DATA_MAGIC),
        data_header(p) matches Some(h) ==> {
            &&& h.seq == le32(p, 4)
            &&& h.skiplist.len() == SKIPLIST_LEN
            &&& h.skiplist[i] == le16(p, 8 + 2 * i)
            &&& h.record_boundary == le16(p, 18)
        },
{
    reveal(data_header);
    let b = p.subrange(4, 20);
    assert(b[4 + 2 * i] == p[8 + 2 * i] && b[5 + 2 * i] == p[9 + 2 * i]);
    assert(b[0] == p[4] && b[1] == p[5] && b[2] == p[6] && b[3] == p[7]);
    assert(b[14] == p[18] && b[15] == p[19]);
}

/// A page is a meta page exactly if it carries the magic number of meta pages. Its header is its
/// sequence number.
pub proof fn law_meta_header(p: Seq<u8>)
    requires
        p.len() == PAGE_SIZE,
    ensures
        meta_header(p) is Some <==> carries(p, META_MAGIC),
        meta_header(p) matches Some(s) ==> s == le32(p, 4),
{
    reveal(meta_header);
    let b = p.subrange(4, 8);
    assert(b[0] == p[4] && b[1] == p[5] && b[2] == p[6] && b[3] == p[7]);
}

/// Where the payload of a page starts: behind the header. The magic numbers of pages and chunks.
pub proof fn law_payload_start(p: Seq<u8>)
    ensures
        data_payload(p) == payload_from(p, 20),
        meta_payload(p) == payload_from(p, 8),
        DATA_START == 20,
        META_START == 8,
        PAGE_MAX_PAYLOAD_SIZE + 24 == PAGE_SIZE,
        DATA_MAGIC == 0xa934c056,
        META_MAGIC == 0x470b635c,
        CHUNK_MAGIC == 0x59c5,
{
    reveal(data_payload);
    reveal(meta_payload);
}

/// The payload is that of the chunks, one after the other. It ends where no chunk starts. A chunk
/// that is empty or reaches past the end of the page spoils it.
pub proof fn law_chunks(p: Seq<u8>, off: int)
    requires
        p.len() == PAGE_SIZE,
        0 <= off <= PAGE_SIZE,
    ensures
        ({
            let there = off + 4 <= PAGE_SIZE && p[off] + 256 * p[off + 1] == CHUNK_MAGIC;
            let len = p[off + 2] + 256 * p[off + 3];
            let next = off + 4 + len;
            if !there {
                &&& payload_from(p, off) == Some(Seq::<u8>::empty())
                &&& payload_end(p, off) == off
            } else if len == 0 || next > PAGE_SIZE {
                payload_from(p, off) is None
            } else {
                &&& payload_from(p, off) is Some <==> payload_from(p, next) is Some
                &&& payload_from(p, next) is Some ==> payload_from(p, off)->0 == p.subrange(
                    off + 4,
                    next,
                ) + payload_from(p, next)->0
                &&& payload_end(p, off) == payload_end(p, next)
            }
        }),
{
}

/// Whether a page holds a chunk at `off` and is erased behind it.
pub open spec fn ends_with_chunk(p: Seq<u8>, off: int, payload: Seq<u8>) -> bool {
    let end = off + CHUNK_HEADER_SIZE + payload.len();
    &&& le16(p, off) == CHUNK_MAGIC
    &&& le16(p, off + 2) == payload.len()
    &&& p.subrange(off + CHUNK_HEADER_SIZE, end) == payload
    &&& forall|i: int| end <= i < PAGE_SIZE ==> #[trigger] p[i] == ERASE_VALUE
}

proof fn lemma_chunk_bytes(p: Seq<u8>, off: int, payload: Seq<u8>)
    requires
        0 <= off,
        off + CHUNK_HEADER_SIZE + payload.len() <= p.len() == PAGE_SIZE,
        forall|i: int|
            0 <= i < CHUNK_HEADER_SIZE + payload.len() ==> p[off + i] == #[trigger] chunk_bytes(
                payload,
            )[i],
    ensures
        le16(p, off) == CHUNK_MAGIC,
        le16(p, off + 2) == payload.len(),
        p.subrange(off + CHUNK_HEADER_SIZE, off + CHUNK_HEADER_SIZE + payload.len()) == payload,
{
    let ch = chunk_bytes(payload);
    let n = payload.len() as u16;
    assert(ch[0] == bytes16(CHUNK_MAGIC)[0] && ch[1] == bytes16(CHUNK_MAGIC)[1]);
    assert(ch[2] == bytes16(n)[0] && ch[3] == bytes16(n)[1]);
    assert(p[off + 0] == ch[0] && p[off + 1] == ch[1] && p[off + 2] == ch[2] && p[off + 3]
        == ch[3]);
    lemma_le16(p, off, CHUNK_MAGIC);
    lemma_le16(p, off + 2, n);
    let got = p.subrange(off + CHUNK_HEADER_SIZE, off + CHUNK_HEADER_SIZE + payload.len());
    assert forall|i: int| 0 <= i < payload.len() implies #[trigger] got[i] == payload[i] by {
        assert(ch[CHUNK_HEADER_SIZE + i] == payload[i]);
        assert(p[off + (CHUNK_HEADER_SIZE + i)] == ch[CHUNK_HEADER_SIZE + i]);
    }
    assert(got =~= payload);
}

/// A data page as it is written: the magic number, the header, and one chunk with the payload.
pub proof fn law_data_page(h: DataModel, payload: Seq<u8>, i: int)
    requires
        h.skiplist.len() == SKIPLIST_LEN,
        0 < payload.len() <= PAGE_MAX_PAYLOAD_SIZE,
        0 <= i < SKIPLIST_LEN,
    ensures
        ({
            let p = data_image(h, payload);
            &&& p.len() == PAGE_SIZE
            &&& carries(p, DATA_MAGIC)
            &&& le32(p, 4) == h.seq
            &&& le16(p, 8 + 2 * i) == h.skiplist[i]
            &&& le16(p, 18) == h.record_boundary
            &&& ends_with_chunk(p, 20, payload)
        }),
{
    reveal(data_image);
    let p = data_image(h, payload);
    let e = encode_data(h);
    let top = bytes32(DATA_MAGIC) + e;
    assert forall|k: int| 0 <= k < 20 implies #[trigger] p[k] == top[k] by {}
    assert(top[0] == bytes32(DATA_MAGIC)[0] && top[1] == bytes32(DATA_MAGIC)[1] && top[2]
        == bytes32(DATA_MAGIC)[2] && top[3] == bytes32(DATA_MAGIC)[3]);
    lemma_le32(p, 0, DATA_MAGIC);
    assert(top[4] == e[0] && top[5] == e[1] && top[6] == e[2] && top[7] == e[3]);
    lemma_le32(p, 4, h.seq);
    assert(i == 0 || i == 1 || i == 2 || i == 3 || i == 4);
    assert(top[8 + 2 * i] == e[4 + 2 * i] && top[9 + 2 * i] == e[5 + 2 * i]);
    lemma_le16(p, 8 + 2 * i, h.skiplist[i]);
    assert(top[18] == e[14] && top[19] == e[15]);
    lemma_le16(p, 18, h.record_boundary);
    lemma_chunk_bytes(p, 20, payload);
}

/// A meta page as it is written: the magic number, the sequence number, and one chunk with the
/// entries, unless there are none.
pub proof fn law_meta_page(seq: u32, payload: Seq<u8>)
    requires
        META_START + CHUNK_HEADER_SIZE + payload.len() <= PAGE_SIZE,
    ensures
        ({
            let p = meta_image(seq, payload);
            &&& p.len() == PAGE_SIZE
            &&& carries(p, META_MAGIC)
            &&& le32(p, 4) == seq
            &&& payload.len() > 0 ==> ends_with_chunk(p, 8, payload)
            &&& payload.len() == 0 ==> forall|i: int|
                8 <= i < PAGE_SIZE ==> #[trigger] p[i] == ERASE_VALUE
        }),
{
    reveal(meta_image);
    let p = meta_image(seq, payload);
    let e = bytes32(seq);
    let top = bytes32(META_MAGIC) + e;
    assert forall|k: int| 0 <= k < 8 implies #[trigger] p[k] == top[k] by {}
    assert(top[0] == bytes32(META_MAGIC)[0] && top[1] == bytes32(META_MAGIC)[1] && top[2]
        == bytes32(META_MAGIC)[2] && top[3] == bytes32(META_MAGIC)[3]);
    lemma_le32(p, 0, META_MAGIC);
    assert(top[4] == e[0] && top[5] == e[1] && top[6] == e[2] && top[7] == e[3]);
    lemma_le32(p, 4, seq);
    if payload.len() > 0 {
        lemma_chunk_bytes(p, 8, payload);
    }
}

/// An entry of the meta page: the file, an unused byte, the last page, and where the file starts.
pub proof fn law_entry(m: FileMeta, b: Seq<u8>, off: int)
    ensures
        decode_meta(b, off).file_id == b[off],
        decode_meta(b, off).last_page_id.raw == le16(b, off + 2),
        decode_meta(b, off).first_seq.0 == le32(b, off + 4),
        encode_meta(m).len() == 8,
        encode_meta(m)[0] == m.file_id,
        encode_meta(m)[1] == 0,
        le16(encode_meta(m), 2) == m.last_page_id.raw,
        le32(encode_meta(m), 4) == m.first_seq.0,
{
    let e = encode_meta(m);
    lemma_le16(e, 2, m.last_page_id.raw);
    lemma_le32(e, 4, m.first_seq.0);
}

/// Entry `i` of a meta page.
pub open spec fn entry_at(b: Seq<u8>, i: int) -> FileMeta {
    decode_meta(b, i * FILE_META_SIZE)
}

/// Whether an entry makes sense: it is about a file, and names a page of the device, or no page
/// and no bytes that have been dropped.
pub open spec fn sensible(m: FileMeta) -> bool {
    &&& m.file_id < FILE_COUNT
    &&& m.last_page_id.raw < PAGE_COUNT || (m.last_page_id.raw == NO_PAGE && m.first_seq.0 == 0)
}

/// Whether entry `i` is the last one of the first `n` that is about a file.
pub open spec fn is_last_of(b: Seq<u8>, n: int, fid: int, i: int) -> bool {
    &&& 0 <= i < n
    &&& entry_at(b, i).file_id == fid
    &&& forall|j: int| i < j < n ==> (#[trigger] entry_at(b, j)).file_id != fid
}

/// What is read from the first `n` entries.
proof fn lemma_entries(b: Seq<u8>, n: int)
    requires
        0 <= n,
    ensures
        parse_entries(b, n) is Some <==> forall|i: int|
            0 <= i < n ==> sensible(#[trigger] entry_at(b, i)),
        parse_entries(b, n) matches Some(infos) ==> {
            &&& infos.len() == FILE_COUNT
            &&& forall|fid: int, i: int|
                0 <= fid < FILE_COUNT && #[trigger] is_last_of(b, n, fid, i) ==> infos[fid] == (
                FileInfo {
                    last: entry_at(b, i).last_page_id.raw,
                    first: entry_at(b, i).first_seq.0,
                })
            &&& forall|fid: int|
                0 <= fid < FILE_COUNT && (forall|i: int|
                    0 <= i < n ==> (#[trigger] entry_at(b, i)).file_id != fid)
                    ==> #[trigger] infos[fid] == (FileInfo { last: NO_PAGE, first: 0 })
        },
    decreases n,
{
    if n > 0 {
        lemma_entries(b, n - 1);
        let m = entry_at(b, n - 1);
        if parse_entries(b, n) is Some {
            assert(sensible(m));
            let infos = parse_entries(b, n)->0;
            assert forall|fid: int, i: int|
                0 <= fid < FILE_COUNT && #[trigger] is_last_of(b, n, fid, i) implies infos[fid] == (
            FileInfo {
                last: entry_at(b, i).last_page_id.raw,
                first: entry_at(b, i).first_seq.0,
            }) by {
                if i < n - 1 {
                    assert(entry_at(b, n - 1).file_id != fid);
                    assert(is_last_of(b, n - 1, fid, i));
                }
            }
            assert forall|fid: int|
                0 <= fid < FILE_COUNT && (forall|i: int|
                    0 <= i < n ==> (#[trigger] entry_at(b, i)).file_id != fid) implies #[trigger] infos[fid]
                == (FileInfo { last: NO_PAGE, first: 0 }) by {
                assert(m.file_id != fid);
                assert forall|i: int| 0 <= i < n - 1 implies (#[trigger] entry_at(b, i)).file_id
                    != fid by {}
                assert(parse_entries(b, n - 1)->0[fid] == (FileInfo { last: NO_PAGE, first: 0 }));
            }
        } else if parse_entries(b, n - 1) is Some {
            assert(!sensible(m));
        }
    } else {
        assert(no_infos().len() == FILE_COUNT);
    }
}

/// The entries of a meta page can be used exactly if they are whole and all of them make sense.
/// The last entry about a file is the one that counts. A file without an entry is empty.
pub proof fn law_entries(b: Seq<u8>)
    ensures
        ({
            let n = (b.len() / 8) as int;
            &&& parse_meta(b) is Some <==> b.len() % 8 == 0 && forall|i: int|
                0 <= i < n ==> sensible(#[trigger] entry_at(b, i))
            &&& parse_meta(b) matches Some(infos) ==> {
                &&& infos.len() == FILE_COUNT
                &&& forall|fid: int, i: int|
                    0 <= fid < FILE_COUNT && #[trigger] is_last_of(b, n, fid, i) ==> infos[fid] == (
                    FileInfo {
                        last: entry_at(b, i).last_page_id.raw,
                        first: entry_at(b, i).first_seq.0,
                    })
                &&& forall|fid: int|
                    0 <= fid < FILE_COUNT && (forall|i: int|
                        0 <= i < n ==> (#[trigger] entry_at(b, i)).file_id != fid)
                        ==> #[trigger] infos[fid] == (FileInfo { last: NO_PAGE, first: 0 })
            }
        }),
{
    lemma_entries(b, (b.len() / 8) as int);
}

/// Reading from a page gets the next bytes of its payload: as many as asked for, or those that
/// are left.
pub proof fn law_page_reader(r: PageReader, b: Seq<u8>, len: int)
    requires
        0 <= len,
        b.len() <= usize::MAX,
    ensures
        ({
            let n = r.available(b, len);
            &&& 0 <= n <= len
            &&& r.pos + len <= b.len() ==> n == len
            &&& r.pos + len > b.len() ==> n == if r.pos <= b.len() {
                b.len() - r.pos
            } else {
                0
            }
            &&& r.taken(b, n).len() == n
            &&& forall|i: int| 0 <= i < n ==> #[trigger] r.taken(b, n)[i] == b[r.pos + i]
            &&& r.advanced(n) == (PageReader { pos: r.advanced(n).pos, ..r })
            &&& r.advanced(n).pos == r.pos + n
        }),
{
}

/// A page takes bytes as long as there is room behind the header of the chunk.
pub proof fn law_page_writer(w: PageWriter)
    requires
        w.wf(),
    ensures
        w.room() == if w.offset + 4 + w.buf@.len() <= PAGE_SIZE {
            PAGE_SIZE - w.offset - 4 - w.buf@.len()
        } else {
            0
        },
{
}

} // verus!
