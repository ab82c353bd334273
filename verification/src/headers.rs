//! What is stored on the pages of the file layer: the headers of its two kinds of pages, and the
//! entries of the meta page.

use vstd::prelude::*;

use crate::bytes::{
    bytes16, bytes32, get16, get32, le16, le32, lemma_le16, lemma_le32, put16, put32, splice,
};
use crate::config::{FileID, PAGE_SIZE, SKIPLIST_LEN};
use crate::page::{
    chunk_bytes, erased_from, lemma_append_chunk, lemma_image_header, lemma_image_payload,
    lemma_payload_len, page_header, page_image, payload_end, payload_from, payload_start, Header,
    CHUNK_HEADER_SIZE, PAGE_HEADER_SIZE,
};
use crate::seqnum::SeqNum;
use crate::types::OptionPageID;

verus! {

/// Size of the header of a meta page.
pub const META_HEADER_SIZE: usize = 4;

/// Size of the header of a data page.
pub const DATA_HEADER_SIZE: usize = 16;

/// Where the payload of a meta page starts.
pub const META_START: usize = 8;

/// Where the payload of a data page starts.
pub const DATA_START: usize = 20;

/// Most bytes of payload that a data page can hold.
pub const PAGE_MAX_PAYLOAD_SIZE: usize = PAGE_SIZE - PAGE_HEADER_SIZE - DATA_HEADER_SIZE
    - CHUNK_HEADER_SIZE;

pub const META_MAGIC: u32 = 0x470b635c;

pub const DATA_MAGIC: u32 = 0xa934c056;

/// Record boundary of a page without a record boundary.
pub const NO_BOUNDARY: u16 = 0xffff;

/// Header of a meta page.
#[derive(Clone, Copy, PartialEq, Eq, Structural, Debug)]
pub struct MetaHeader {
    pub seq: SeqNum,
}

/// Header of a data page.
#[derive(Clone, Copy, PartialEq, Eq, Debug)]
pub struct DataHeader {
    /// Sequence number of the first byte of the page.
    pub seq: SeqNum,
    /// skiplist[0] = previous page, always.
    /// skiplist[i] = latest page that contains a byte with seq multiple of 2**(SKIPLIST_SHIFT+i)
    pub skiplist: [OptionPageID; SKIPLIST_LEN],
    /// Offset of the first record boundary within this page.
    /// u16::MAX if there's no boundary within the page. This can happen if a very big record
    /// starts at a previous page, and ends at a later page.
    pub record_boundary: u16,
}

/// The header of a data page as a mathematical value.
#[verifier::ext_equal]
pub struct DataModel {
    pub seq: u32,
    pub skiplist: Seq<u16>,
    pub record_boundary: u16,
}

pub open spec fn skip_model(skiplist: [OptionPageID; SKIPLIST_LEN]) -> Seq<u16> {
    Seq::new(SKIPLIST_LEN as nat, |i: int| skiplist@[i].raw)
}

impl View for DataHeader {
    type V = DataModel;

    open spec fn view(&self) -> DataModel {
        DataModel {
            seq: self.seq.0,
            skiplist: skip_model(self.skiplist),
            record_boundary: self.record_boundary,
        }
    }
}

pub open spec fn encode_data(h: DataModel) -> Seq<u8> {
    bytes32(h.seq) + bytes16(h.skiplist[0]) + bytes16(h.skiplist[1]) + bytes16(h.skiplist[2])
        + bytes16(h.skiplist[3]) + bytes16(h.skiplist[4]) + bytes16(h.record_boundary)
}

pub open spec fn decode_data(b: Seq<u8>) -> DataModel {
    DataModel {
        seq: le32(b, 0),
        skiplist: Seq::new(SKIPLIST_LEN as nat, |i: int| le16(b, 4 + 2 * i)),
        record_boundary: le16(b, 14),
    }
}

impl Header for MetaHeader {
    type Model = u32;

    open spec fn model(&self) -> u32 {
        self.seq.0
    }

    open spec fn spec_magic() -> u32 {
        META_MAGIC
    }

    open spec fn spec_size() -> int {
        META_HEADER_SIZE as int
    }

    open spec fn decode(b: Seq<u8>) -> u32 {
        le32(b, 0)
    }

    open spec fn encode(h: u32) -> Seq<u8> {
        bytes32(h)
    }

    fn magic() -> (r: u32) {
        META_MAGIC
    }

    fn size() -> (r: usize) {
        META_HEADER_SIZE
    }

    fn from_bytes(b: &[u8]) -> (r: Self) {
        MetaHeader { seq: SeqNum(get32(b, 0)) }
    }

    fn to_bytes(&self) -> (r: Vec<u8>) {
        let mut v: Vec<u8> = Vec::new();
        put32(&mut v, self.seq.0);
        assert(v@ =~= bytes32(self.seq.0));
        v
    }
}

impl Header for DataHeader {
    type Model = DataModel;

    open spec fn model(&self) -> DataModel {
        self@
    }

    open spec fn spec_magic() -> u32 {
        DATA_MAGIC
    }

    open spec fn spec_size() -> int {
        DATA_HEADER_SIZE as int
    }

    open spec fn decode(b: Seq<u8>) -> DataModel {
        decode_data(b)
    }

    open spec fn encode(h: DataModel) -> Seq<u8> {
        encode_data(h)
    }

    fn magic() -> (r: u32) {
        DATA_MAGIC
    }

    fn size() -> (r: usize) {
        DATA_HEADER_SIZE
    }

    fn from_bytes(b: &[u8]) -> (r: Self) {
        let mut skiplist: [OptionPageID; SKIPLIST_LEN] = [OptionPageID::none(); SKIPLIST_LEN];
        let mut i: usize = 0;
        while i < SKIPLIST_LEN
            invariant
                i <= SKIPLIST_LEN,
                b@.len() == DATA_HEADER_SIZE,
                forall|k: int| 0 <= k < i ==> (#[trigger] skiplist@[k]).raw == le16(b@, 4 + 2 * k),
            decreases SKIPLIST_LEN - i,
        {
            skiplist[i] = OptionPageID { raw: get16(b, 4 + 2 * i) };
            i += 1;
        }
        let r = DataHeader {
            seq: SeqNum(get32(b, 0)),
            skiplist,
            record_boundary: get16(b, 14),
        };
        assert(r@ =~= decode_data(b@));
        r
    }

    fn to_bytes(&self) -> (r: Vec<u8>) {
        let mut v: Vec<u8> = Vec::new();
        put32(&mut v, self.seq.0);
        put16(&mut v, self.skiplist[0].raw);
        put16(&mut v, self.skiplist[1].raw);
        put16(&mut v, self.skiplist[2].raw);
        put16(&mut v, self.skiplist[3].raw);
        put16(&mut v, self.skiplist[4].raw);
        put16(&mut v, self.record_boundary);
        assert(v@ =~= encode_data(self@));
        v
    }
}

/// Decoding an encoded data header gives the header.
pub proof fn lemma_data_round_trip(h: DataModel)
    requires
        h.skiplist.len() == SKIPLIST_LEN,
    ensures
        encode_data(h).len() == DATA_HEADER_SIZE,
        decode_data(encode_data(h)) == h,
{
    let b = encode_data(h);
    lemma_le32(b, 0, h.seq);
    lemma_le16(b, 4, h.skiplist[0]);
    lemma_le16(b, 6, h.skiplist[1]);
    lemma_le16(b, 8, h.skiplist[2]);
    lemma_le16(b, 10, h.skiplist[3]);
    lemma_le16(b, 12, h.skiplist[4]);
    lemma_le16(b, 14, h.record_boundary);
    assert(decode_data(b).skiplist =~= h.skiplist);
}

/// An entry of the meta page: where a file ends and where it starts.
#[derive(Clone, Copy, PartialEq, Eq, Structural, Debug)]
pub struct FileMeta {
    pub file_id: FileID,
    pub last_page_id: OptionPageID,
    pub first_seq: SeqNum,
}

/// Size of an entry of the meta page.
pub const FILE_META_SIZE: usize = 8;

pub open spec fn encode_meta(m: FileMeta) -> Seq<u8> {
    seq![m.file_id, 0u8] + bytes16(m.last_page_id.raw) + bytes32(m.first_seq.0)
}

pub open spec fn decode_meta(b: Seq<u8>, off: int) -> FileMeta {
    FileMeta {
        file_id: b[off],
        last_page_id: OptionPageID { raw: le16(b, off + 2) },
        first_seq: SeqNum(le32(b, off + 4)),
    }
}

impl FileMeta {
    /// Decodes an entry.
    pub fn from_bytes(b: &[u8]) -> (r: FileMeta)
        requires
            b@.len() == FILE_META_SIZE,
        ensures
            r == decode_meta(b@, 0),
    {
        FileMeta {
            file_id: b[0],
            last_page_id: OptionPageID { raw: get16(b, 2) },
            first_seq: SeqNum(get32(b, 4)),
        }
    }

    /// Encodes the entry.
    pub fn to_bytes(&self) -> (r: Vec<u8>)
        ensures
            r@ == encode_meta(*self),
            r@.len() == FILE_META_SIZE,
    {
        let mut v: Vec<u8> = Vec::new();
        v.push(self.file_id);
        v.push(0u8);
        put16(&mut v, self.last_page_id.raw);
        put32(&mut v, self.first_seq.0);
        assert(v@ =~= encode_meta(*self));
        v
    }
}

/// Decoding an encoded entry gives the entry.
pub proof fn lemma_meta_round_trip(m: FileMeta, b: Seq<u8>, off: int)
    requires
        0 <= off,
        off + FILE_META_SIZE <= b.len(),
        b.subrange(off, off + FILE_META_SIZE) == encode_meta(m),
    ensures
        decode_meta(b, off) == m,
{
    let e = encode_meta(m);
    let s = b.subrange(off, off + FILE_META_SIZE);
    assert(s[0] == b[off] && s[1] == b[off + 1] && s[2] == b[off + 2] && s[3] == b[off + 3] && s[4]
        == b[off + 4] && s[5] == b[off + 5] && s[6] == b[off + 6] && s[7] == b[off + 7]);
    assert(e[2] == bytes16(m.last_page_id.raw)[0] && e[3] == bytes16(m.last_page_id.raw)[1]);
    assert(e[4] == bytes32(m.first_seq.0)[0] && e[5] == bytes32(m.first_seq.0)[1] && e[6]
        == bytes32(m.first_seq.0)[2] && e[7] == bytes32(m.first_seq.0)[3]);
    lemma_le16(b, off + 2, m.last_page_id.raw);
    lemma_le32(b, off + 4, m.first_seq.0);
}

/// The header of a page, if it is a data page.
#[verifier::opaque]
pub open spec fn data_header(p: Seq<u8>) -> Option<DataModel> {
    page_header::<DataHeader>(p)
}

/// The payload of a data page, unless its chunks are corrupted.
#[verifier::opaque]
pub open spec fn data_payload(p: Seq<u8>) -> Option<Seq<u8>> {
    payload_from(p, payload_start::<DataHeader>())
}

/// The sequence number of a page, if it is a meta page.
#[verifier::opaque]
pub open spec fn meta_header(p: Seq<u8>) -> Option<u32> {
    page_header::<MetaHeader>(p)
}

/// The payload of a meta page, unless its chunks are corrupted.
#[verifier::opaque]
pub open spec fn meta_payload(p: Seq<u8>) -> Option<Seq<u8>> {
    payload_from(p, payload_start::<MetaHeader>())
}

/// The offset behind the last chunk of a meta page.
#[verifier::opaque]
pub open spec fn meta_end(p: Seq<u8>) -> int {
    payload_end(p, payload_start::<MetaHeader>())
}

/// A freshly written data page.
#[verifier::opaque]
pub open spec fn data_image(h: DataModel, payload: Seq<u8>) -> Seq<u8> {
    page_image(DATA_MAGIC, encode_data(h), payload)
}

/// A freshly written meta page.
#[verifier::opaque]
pub open spec fn meta_image(seq: u32, payload: Seq<u8>) -> Seq<u8> {
    page_image(META_MAGIC, bytes32(seq), payload)
}

/// A meta page with one more chunk.
#[verifier::opaque]
pub open spec fn meta_appended(p: Seq<u8>, payload: Seq<u8>) -> Seq<u8> {
    splice(p, meta_end(p), chunk_bytes(payload))
}

/// The payload of a data page fits into the page.
pub proof fn lemma_data_payload_len(p: Seq<u8>)
    requires
        p.len() == PAGE_SIZE,
        data_payload(p) is Some,
    ensures
        data_payload(p)->0.len() <= PAGE_SIZE,
{
    reveal(data_payload);
    lemma_payload_len(p, payload_start::<DataHeader>());
}

/// What a written data page reads as.
pub proof fn lemma_data_image(h: DataModel, payload: Seq<u8>)
    requires
        h.skiplist.len() == SKIPLIST_LEN,
        payload.len() <= PAGE_MAX_PAYLOAD_SIZE,
    ensures
        data_image(h, payload).len() == PAGE_SIZE,
        data_header(data_image(h, payload)) == Some(h),
        data_payload(data_image(h, payload)) == Some(payload),
        meta_header(data_image(h, payload)) is None,
{
    reveal(data_header);
    reveal(data_payload);
    reveal(meta_header);
    reveal(data_image);
    lemma_data_round_trip(h);
    lemma_image_header(DATA_MAGIC, encode_data(h), payload);
    lemma_image_payload(DATA_MAGIC, encode_data(h), payload);
}

/// What a written meta page reads as.
pub proof fn lemma_meta_image(seq: u32, payload: Seq<u8>)
    requires
        META_START + CHUNK_HEADER_SIZE + payload.len() <= PAGE_SIZE,
    ensures
        meta_image(seq, payload).len() == PAGE_SIZE,
        meta_header(meta_image(seq, payload)) == Some(seq),
        meta_payload(meta_image(seq, payload)) == Some(payload),
        erased_from(meta_image(seq, payload), meta_end(meta_image(seq, payload))),
        data_header(meta_image(seq, payload)) is None,
{
    reveal(data_header);
    reveal(meta_payload);
    reveal(meta_header);
    reveal(meta_image);
    reveal(meta_end);
    lemma_le32(bytes32(seq), 0, seq);
    lemma_image_header(META_MAGIC, bytes32(seq), payload);
    lemma_image_payload(META_MAGIC, bytes32(seq), payload);
}

/// What a meta page with one more chunk reads as.
pub proof fn lemma_meta_appended(p: Seq<u8>, payload: Seq<u8>)
    requires
        p.len() == PAGE_SIZE,
        meta_payload(p) is Some,
        erased_from(p, meta_end(p)),
        payload.len() > 0,
        meta_end(p) + CHUNK_HEADER_SIZE + payload.len() <= PAGE_SIZE,
    ensures
        meta_appended(p, payload).len() == PAGE_SIZE,
        meta_header(meta_appended(p, payload)) == meta_header(p),
        meta_payload(meta_appended(p, payload)) == Some(meta_payload(p)->0 + payload),
        erased_from(meta_appended(p, payload), meta_end(meta_appended(p, payload))),
{
    reveal(meta_payload);
    reveal(meta_header);
    reveal(meta_end);
    reveal(meta_appended);
    let q = meta_appended(p, payload);
    lemma_append_chunk(p, META_START as int, payload);
    assert(q[0] == p[0] && q[1] == p[1] && q[2] == p[2] && q[3] == p[3]);
    assert(q.subrange(4, 8) =~= p.subrange(4, 8));
}

} // verus!
