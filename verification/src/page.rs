//! Pages: a header, followed by chunks of payload.
//!
//! A page starts with a magic number and a header. After that come chunks, each with a chunk
//! header in front of its bytes. What the chunks hold, put together, is the payload of the page.

use vstd::prelude::*;

use crate::bytes::{
    bytes16, bytes32, get16, get32, le16, le32, lemma_le16, lemma_le32, put16, put32, splice,
};
use crate::config::{ERASE_VALUE, PAGE_SIZE};
use crate::flash::{erased_page, flash_shape, Flash};
use crate::types::PageID;
use crate::Error;

verus! {

/// Size of what precedes the header: the magic number.
pub const PAGE_HEADER_SIZE: usize = 4;

/// Size of the header of a chunk.
pub const CHUNK_HEADER_SIZE: usize = 4;

/// Marks the start of a chunk.
pub const CHUNK_MAGIC: u16 = 0x59c5;

/// Failure of a read.
#[derive(Clone, Copy, PartialEq, Eq, Structural, Debug)]
pub enum ReadError {
    Eof,
    Corrupted,
}

impl From<Error> for ReadError {
    fn from(e: Error) -> (r: ReadError) {
        match e {
            Error::Corrupted => ReadError::Corrupted,
        }
    }
}

impl vstd::std_specs::convert::FromSpecImpl<Error> for ReadError {
    open spec fn obeys_from_spec() -> bool {
        true
    }

    open spec fn from_spec(e: Error) -> ReadError {
        ReadError::Corrupted
    }
}

/// What is found at an offset where a chunk may start.
pub enum ChunkSlot {
    /// No chunk: the payload ends here.
    End,
    /// A chunk that is empty or reaches past the end of the page.
    Bad,
    /// A chunk with that many bytes.
    Chunk(int),
}

pub open spec fn chunk_slot(p: Seq<u8>, off: int) -> ChunkSlot {
    if off + CHUNK_HEADER_SIZE > p.len() || le16(p, off) != CHUNK_MAGIC {
        ChunkSlot::End
    } else if le16(p, off + 2) == 0 || off + CHUNK_HEADER_SIZE + le16(p, off + 2) > p.len() {
        ChunkSlot::Bad
    } else {
        ChunkSlot::Chunk(le16(p, off + 2) as int)
    }
}

/// The payload in the chunks from `off` on. `None` if a chunk is bad.
pub open spec fn payload_from(p: Seq<u8>, off: int) -> Option<Seq<u8>>
    decreases p.len() - off,
{
    match chunk_slot(p, off) {
        ChunkSlot::End => Some(Seq::empty()),
        ChunkSlot::Bad => None,
        ChunkSlot::Chunk(len) => if len <= 0 {
            None
        } else {
            match payload_from(p, off + CHUNK_HEADER_SIZE + len) {
                Some(rest) => Some(
                    p.subrange(off + CHUNK_HEADER_SIZE, off + CHUNK_HEADER_SIZE + len) + rest,
                ),
                None => None,
            }
        },
    }
}

/// The payload is no longer than the part of the page that it is in.
pub proof fn lemma_payload_len(p: Seq<u8>, off: int)
    requires
        0 <= off <= p.len(),
        payload_from(p, off) is Some,
    ensures
        payload_from(p, off)->0.len() <= p.len() - off,
    decreases p.len() - off,
{
    if let ChunkSlot::Chunk(len) = chunk_slot(p, off) {
        lemma_payload_len(p, off + CHUNK_HEADER_SIZE + len);
    }
}

/// The offset behind the last chunk.
pub open spec fn payload_end(p: Seq<u8>, off: int) -> int
    decreases p.len() - off,
{
    match chunk_slot(p, off) {
        ChunkSlot::Chunk(len) => if len <= 0 {
            off
        } else {
            payload_end(p, off + CHUNK_HEADER_SIZE + len)
        },
        _ => off,
    }
}

/// The bytes of the header, if the page carries the magic number.
pub open spec fn header_bytes(p: Seq<u8>, magic: u32, size: int) -> Option<Seq<u8>> {
    if le32(p, 0) == magic {
        Some(p.subrange(PAGE_HEADER_SIZE as int, PAGE_HEADER_SIZE + size))
    } else {
        None
    }
}

/// A chunk with its header.
pub open spec fn chunk_bytes(payload: Seq<u8>) -> Seq<u8> {
    bytes16(CHUNK_MAGIC) + bytes16(payload.len() as u16) + payload
}

/// A page fresh from erasing with a header and, unless the payload is empty, one chunk.
pub open spec fn page_image(magic: u32, header: Seq<u8>, payload: Seq<u8>) -> Seq<u8> {
    let top = splice(erased_page(), 0, bytes32(magic) + header);
    if payload.len() == 0 {
        top
    } else {
        splice(top, PAGE_HEADER_SIZE + header.len(), chunk_bytes(payload))
    }
}

/// The header of a kind of page.
pub trait Header: Sized + Copy {
    /// The header as a mathematical value.
    type Model;

    spec fn model(&self) -> Self::Model;

    /// Distinguishes this kind of page from the others.
    spec fn spec_magic() -> u32;

    spec fn spec_size() -> int;

    spec fn decode(b: Seq<u8>) -> Self::Model;

    spec fn encode(h: Self::Model) -> Seq<u8>;

    fn magic() -> (r: u32)
        ensures
            r == Self::spec_magic(),
    ;

    fn size() -> (r: usize)
        ensures
            r == Self::spec_size(),
            r <= 16,
    ;

    fn from_bytes(b: &[u8]) -> (r: Self)
        requires
            b@.len() == Self::spec_size(),
        ensures
            r.model() == Self::decode(b@),
    ;

    fn to_bytes(&self) -> (r: Vec<u8>)
        ensures
            r@ == Self::encode(self.model()),
            r@.len() == Self::spec_size(),
    ;
}

/// The header that a page holds, if it is a page of that kind.
pub open spec fn page_header<H: Header>(p: Seq<u8>) -> Option<H::Model> {
    match header_bytes(p, H::spec_magic(), H::spec_size()) {
        Some(b) => Some(H::decode(b)),
        None => None,
    }
}

/// Where the chunks of a page of that kind start.
pub open spec fn payload_start<H: Header>() -> int {
    PAGE_HEADER_SIZE + H::spec_size()
}

/// Looks for a chunk at `off`.
fn find_chunk<F: Flash>(flash: &mut F, page_id: PageID, off: usize) -> (r: Result<usize, Error>)
    requires
        page_id.in_range(),
        flash_shape((*old(flash))@),
        off <= PAGE_SIZE,
    ensures
        (*final(flash))@ == (*old(flash))@,
        match chunk_slot((*old(flash))@[page_id.raw as int], off as int) {
            ChunkSlot::End => r == Ok::<usize, Error>(0),
            ChunkSlot::Bad => r == Err::<usize, Error>(Error::Corrupted),
            ChunkSlot::Chunk(len) => r == Ok::<usize, Error>(len as usize) && 0 < len && off
                + CHUNK_HEADER_SIZE + len <= PAGE_SIZE,
        },
{
    if off + CHUNK_HEADER_SIZE > PAGE_SIZE {
        return Ok(0);
    }
    let mut h: [u8; 4] = [0u8; 4];
    flash.read(page_id, off, &mut h);
    let ghost p = (*flash)@[page_id.raw as int];
    assert(h@[0] == p[off as int] && h@[1] == p[off + 1] && h@[2] == p[off + 2] && h@[3] == p[off
        + 3]);
    if get16(h.as_slice(), 0) != CHUNK_MAGIC {
        return Ok(0);
    }
    let len: usize = get16(h.as_slice(), 2) as usize;
    if len == 0 || off + CHUNK_HEADER_SIZE + len > PAGE_SIZE {
        return Err(Error::Corrupted);
    }
    Ok(len)
}

/// Measures the payload of a page: its length, and the offset behind its last chunk.
fn measure<F: Flash>(flash: &mut F, page_id: PageID, start: usize) -> (r: Result<
    (usize, usize),
    Error,
>)
    requires
        page_id.in_range(),
        flash_shape((*old(flash))@),
        start <= PAGE_SIZE,
    ensures
        (*final(flash))@ == (*old(flash))@,
        match payload_from((*old(flash))@[page_id.raw as int], start as int) {
            Some(b) => r matches Ok(m) && m.0 == b.len() && m.1 == payload_end(
                (*old(flash))@[page_id.raw as int],
                start as int,
            ) && m.0 <= m.1 && start <= m.1 <= PAGE_SIZE,
            None => r == Err::<(usize, usize), Error>(Error::Corrupted),
        },
{
    let ghost p = (*flash)@[page_id.raw as int];
    let ghost whole = payload_from(p, start as int);
    let mut off: usize = start;
    let mut total: usize = 0;
    loop
        invariant
            page_id.in_range(),
            flash_shape((*flash)@),
            (*flash)@ == (*old(flash))@,
            p == (*flash)@[page_id.raw as int],
            p.len() == PAGE_SIZE,
            start <= off <= PAGE_SIZE,
            total <= off - start,
            whole is Some <==> payload_from(p, off as int) is Some,
            whole is Some ==> whole->0.len() == total + payload_from(p, off as int)->0.len(),
            whole == payload_from(p, start as int),
            payload_end(p, start as int) == payload_end(p, off as int),
        decreases PAGE_SIZE - off,
    {
        match find_chunk(flash, page_id, off) {
            Err(e) => {
                return Err(Error::Corrupted);
            },
            Ok(len) => {
                if len == 0 {
                    return Ok((total, off));
                }
                off = off + CHUNK_HEADER_SIZE + len;
                total = total + len;
            },
        }
    }
}

/// Reads the payload of a page, from front to back.
#[derive(Clone, Copy)]
pub struct PageReader {
    pub page_id: PageID,
    /// Where the chunks start.
    pub start: usize,
    /// How much of the payload has been read.
    pub pos: usize,
}

impl PageReader {
    pub open spec fn wf(self) -> bool {
        &&& self.page_id.in_range()
        &&& self.start <= PAGE_SIZE
    }

    /// The payload of the page, as the device has it now.
    pub open spec fn payload(self, fl: Seq<Seq<u8>>) -> Option<Seq<u8>> {
        payload_from(fl[self.page_id.raw as int], self.start as int)
    }

    /// How many bytes a request for `len` bytes gets.
    pub open spec fn available(self, b: Seq<u8>, len: int) -> int {
        if self.pos >= b.len() {
            0
        } else if len <= b.len() - self.pos {
            len
        } else {
            b.len() - self.pos
        }
    }

    /// The next `n` bytes.
    pub open spec fn taken(self, b: Seq<u8>, n: int) -> Seq<u8> {
        if n == 0 {
            Seq::empty()
        } else {
            b.subrange(self.pos as int, self.pos + n)
        }
    }

    pub open spec fn advanced(self, n: int) -> PageReader {
        PageReader { pos: (self.pos + n) as usize, ..self }
    }

    /// Moves over at most `len` bytes, and returns over how many.
    pub fn skip<F: Flash>(&mut self, flash: &mut F, len: usize) -> (r: Result<usize, Error>)
        requires
            old(self).wf(),
            flash_shape((*old(flash))@),
        ensures
            (*final(flash))@ == (*old(flash))@,
            match old(self).payload((*old(flash))@) {
                Some(b) => {
                    let n = old(self).available(b, len as int);
                    r == Ok::<usize, Error>(n as usize) && *final(self) == old(self).advanced(n)
                },
                None => r == Err::<usize, Error>(Error::Corrupted) && *final(self) == *old(self),
            },
    {
        match measure(flash, self.page_id, self.start) {
            Err(e) => Err(Error::Corrupted),
            Ok((total, end)) => {
                let n: usize = if self.pos >= total {
                    0
                } else if len <= total - self.pos {
                    len
                } else {
                    total - self.pos
                };
                self.pos = self.pos + n;
                Ok(n)
            },
        }
    }

    /// Whether the whole payload has been read.
    pub fn is_at_eof<F: Flash>(&mut self, flash: &mut F) -> (r: Result<bool, Error>)
        requires
            old(self).wf(),
            flash_shape((*old(flash))@),
        ensures
            (*final(flash))@ == (*old(flash))@,
            *final(self) == *old(self),
            match old(self).payload((*old(flash))@) {
                Some(b) => r == Ok::<bool, Error>(old(self).pos >= b.len()),
                None => r == Err::<bool, Error>(Error::Corrupted),
            },
    {
        match measure(flash, self.page_id, self.start) {
            Err(e) => Err(Error::Corrupted),
            Ok((total, end)) => Ok(self.pos >= total),
        }
    }

    /// Fills `data` from index `at` on with the next bytes, and returns how many there were.
    pub fn read<F: Flash>(&mut self, flash: &mut F, data: &mut [u8], at: usize) -> (r: Result<
        usize,
        Error,
    >)
        requires
            old(self).wf(),
            flash_shape((*old(flash))@),
            at <= old(data)@.len(),
        ensures
            (*final(flash))@ == (*old(flash))@,
            match old(self).payload((*old(flash))@) {
                Some(b) => {
                    let n = old(self).available(b, old(data)@.len() - at);
                    &&& r == Ok::<usize, Error>(n as usize)
                    &&& *final(self) == old(self).advanced(n)
                    &&& final(data)@ == splice(old(data)@, at as int, old(self).taken(b, n))
                },
                None => r == Err::<usize, Error>(Error::Corrupted) && *final(self) == *old(self)
                    && final(data)@ == old(data)@,
            },
    {
        let want: usize = data.len() - at;
        let ghost p = (*flash)@[self.page_id.raw as int];
        let (total, end) = match measure(flash, self.page_id, self.start) {
            Err(e) => {
                return Err(Error::Corrupted);
            },
            Ok(m) => m,
        };
        let ghost b = payload_from(p, self.start as int)->0;
        let n: usize = if self.pos >= total {
            0
        } else if want <= total - self.pos {
            want
        } else {
            total - self.pos
        };
        if n == 0 {
            assert(splice(old(data)@, at as int, Seq::empty()) =~= old(data)@);
            return Ok(0);
        }
        let size: usize = data.len();
        let mut off: usize = self.start;
        let mut base: usize = 0;
        let mut done: usize = 0;
        assert(b.subrange(0, b.len() as int) =~= b);
        assert(splice(old(data)@, at as int, b.subrange(self.pos as int, self.pos as int))
            =~= old(data)@);
        while done < n
            invariant
                self.wf(),
                *self == *old(self),
                flash_shape((*flash)@),
                (*flash)@ == (*old(flash))@,
                p == (*flash)@[self.page_id.raw as int],
                p.len() == PAGE_SIZE,
                off <= PAGE_SIZE,
                base <= off,
                done <= n,
                at + n <= size,
                size == old(data)@.len(),
                data@.len() == size,
                self.pos + n <= b.len(),
                b.len() <= PAGE_SIZE,
                base <= b.len(),
                done < n ==> base <= self.pos + done,
                payload_from(p, off as int) == Some(b.subrange(base as int, b.len() as int)),
                data@ == splice(
                    old(data)@,
                    at as int,
                    b.subrange(self.pos as int, self.pos + done),
                ),
            decreases PAGE_SIZE - off,
        {
            let len: usize = match find_chunk(flash, self.page_id, off) {
                Err(e) => 0,
                Ok(len) => len,
            };
            let ghost rest = payload_from(p, off + CHUNK_HEADER_SIZE + len);
            let ghost chunk = p.subrange(
                off + CHUNK_HEADER_SIZE,
                off + CHUNK_HEADER_SIZE + len,
            );
            assert(b.subrange(base as int, b.len() as int).len() > 0);
            assert(chunk_slot(p, off as int) is Chunk);
            assert(b.subrange(base as int, b.len() as int) == chunk + rest->0);
            assert(b.subrange(base + len, b.len() as int) =~= rest->0) by {
                assert forall|i: int| 0 <= i < rest->0.len() implies b[base + len + i]
                    == rest->0[i] by {
                    assert(b.subrange(base as int, b.len() as int)[len + i] == b[base + len + i]);
                }
            }
            let from: usize = self.pos + done - base;
            if from < len {
                let k: usize = if n - done <= len - from {
                    n - done
                } else {
                    len - from
                };
                let ghost before = data@;
                let (_, tail) = data.split_at_mut(at + done);
                let (mid, _) = tail.split_at_mut(k);
                flash.read(self.page_id, off + CHUNK_HEADER_SIZE + from, mid);
                let ghost read = p.subrange(
                    off + CHUNK_HEADER_SIZE + from,
                    off + CHUNK_HEADER_SIZE + from + k,
                );
                assert forall|i: int| 0 <= i < k implies #[trigger] read[i] == b[self.pos + done
                    + i] by {
                    assert(b.subrange(base as int, b.len() as int)[from + i] == b[self.pos + done
                        + i]);
                    assert(chunk[from + i] == p[off + CHUNK_HEADER_SIZE + from + i]);
                }
                assert(data@ =~= splice(
                    old(data)@,
                    at as int,
                    b.subrange(self.pos as int, self.pos + done + k),
                ));
                done = done + k;
            }
            off = off + CHUNK_HEADER_SIZE + len;
            base = base + len;
        }
        self.pos = self.pos + n;
        Ok(n)
    }
}

/// Collects the next chunk of a page. The chunk reaches the device when it is committed.
pub struct PageWriter {
    pub page_id: PageID,
    /// Whether the page has to be erased before it is written to.
    pub needs_erase: bool,
    /// Where the chunk will start.
    pub offset: usize,
    /// Length of the payload before the chunk.
    pub committed: usize,
    /// The bytes of the chunk.
    pub buf: Vec<u8>,
}

impl PageWriter {
    pub open spec fn wf(self) -> bool {
        &&& self.page_id.in_range()
        &&& self.offset <= PAGE_SIZE
        &&& self.committed <= self.offset
        &&& self.buf@.len() > 0 ==> self.offset + CHUNK_HEADER_SIZE + self.buf@.len() <= PAGE_SIZE
    }

    /// How many more bytes the chunk can take.
    pub open spec fn room(self) -> int {
        if self.offset + CHUNK_HEADER_SIZE + self.buf@.len() >= PAGE_SIZE {
            0
        } else {
            PAGE_SIZE - self.offset - CHUNK_HEADER_SIZE - self.buf@.len()
        }
    }

    /// The page as it is before the chunk is written.
    pub open spec fn ground(self, fl: Seq<Seq<u8>>) -> Seq<u8> {
        if self.needs_erase {
            erased_page()
        } else {
            fl[self.page_id.raw as int]
        }
    }

    /// Length of the payload, the bytes of the chunk among them.
    pub fn len(&self) -> (r: usize)
        requires
            self.wf(),
        ensures
            r == self.committed + self.buf@.len(),
    {
        self.committed + self.buf.len()
    }

    /// The page that is written to.
    pub fn page_id(&self) -> (r: PageID)
        ensures
            r == self.page_id,
    {
        self.page_id
    }

    /// Adds as many of the bytes as fit, and returns how many.
    pub fn write(&mut self, data: &[u8]) -> (r: usize)
        requires
            old(self).wf(),
        ensures
            final(self).wf(),
            r == if data@.len() <= old(self).room() {
                data@.len() as int
            } else {
                old(self).room()
            },
            *final(self) == (PageWriter { buf: final(self).buf, ..*old(self) }),
            final(self).buf@ == old(self).buf@ + data@.subrange(0, r as int),
    {
        let taken: usize = self.offset + CHUNK_HEADER_SIZE + self.buf.len();
        if taken >= PAGE_SIZE {
            assert(self.buf@ =~= old(self).buf@ + data@.subrange(0, 0));
            return 0;
        }
        let room: usize = PAGE_SIZE - taken;
        let n: usize = if data.len() <= room {
            data.len()
        } else {
            room
        };
        self.buf.extend_from_slice(&data[0..n]);
        assert(self.buf@ =~= old(self).buf@ + data@.subrange(0, n as int));
        n
    }

    fn erase_if_needed<F: Flash>(&mut self, flash: &mut F)
        requires
            old(self).wf(),
            flash_shape((*old(flash))@),
        ensures
            *final(self) == (PageWriter { needs_erase: false, ..*old(self) }),
            (*final(flash))@ == (*old(flash))@.update(
                old(self).page_id.raw as int,
                old(self).ground((*old(flash))@),
            ),
            flash_shape((*final(flash))@),
    {
        if self.needs_erase {
            flash.erase(self.page_id);
            self.needs_erase = false;
        }
        assert((*flash)@ =~= (*old(flash))@.update(
            self.page_id.raw as int,
            old(self).ground((*old(flash))@),
        ));
    }

    /// Writes the header of the page.
    pub fn write_header<F: Flash, H: Header>(&mut self, flash: &mut F, header: H)
        requires
            old(self).wf(),
            flash_shape((*old(flash))@),
        ensures
            *final(self) == (PageWriter { needs_erase: false, ..*old(self) }),
            (*final(flash))@ == (*old(flash))@.update(
                old(self).page_id.raw as int,
                splice(
                    old(self).ground((*old(flash))@),
                    0,
                    bytes32(H::spec_magic()) + H::encode(header.model()),
                ),
            ),
            flash_shape((*final(flash))@),
    {
        self.erase_if_needed(flash);
        let size: usize = H::size();
        let mut data: Vec<u8> = Vec::new();
        put32(&mut data, H::magic());
        let mut rest: Vec<u8> = header.to_bytes();
        data.append(&mut rest);
        assert(data@ =~= bytes32(H::spec_magic()) + H::encode(header.model()));
        flash.write(self.page_id, 0, data.as_slice());
        assert((*flash)@ =~= (*old(flash))@.update(
            self.page_id.raw as int,
            splice(old(self).ground((*old(flash))@), 0, data@),
        ));
    }

    /// Writes the chunk, if it has any bytes, and starts the next one.
    pub fn commit<F: Flash>(&mut self, flash: &mut F)
        requires
            old(self).wf(),
            flash_shape((*old(flash))@),
        ensures
            old(self).buf@.len() == 0 ==> *final(self) == *old(self) && (*final(flash))@
                == (*old(flash))@,
            old(self).buf@.len() > 0 ==> (*final(flash))@ == (*old(flash))@.update(
                old(self).page_id.raw as int,
                splice(
                    old(self).ground((*old(flash))@),
                    old(self).offset as int,
                    chunk_bytes(old(self).buf@),
                ),
            ),
            flash_shape((*final(flash))@),
            final(self).wf(),
            final(self).page_id == old(self).page_id,
            old(self).buf@.len() > 0 ==> !final(self).needs_erase && final(self).buf@.len() == 0
                && final(self).offset == old(self).offset + CHUNK_HEADER_SIZE + old(self).buf@.len()
                && final(self).committed == old(self).committed + old(self).buf@.len(),
    {
        let n: usize = self.buf.len();
        if n == 0 {
            return;
        }
        self.erase_if_needed(flash);
        let mut data: Vec<u8> = Vec::new();
        put16(&mut data, CHUNK_MAGIC);
        put16(&mut data, n as u16);
        data.append(&mut self.buf);
        assert(data@ =~= chunk_bytes(old(self).buf@));
        flash.write(self.page_id, self.offset, data.as_slice());
        assert((*flash)@ =~= (*old(flash))@.update(
            self.page_id.raw as int,
            splice(
                old(self).ground((*old(flash))@),
                self.offset as int,
                chunk_bytes(old(self).buf@),
            ),
        ));
        self.offset = self.offset + CHUNK_HEADER_SIZE + n;
        self.committed = self.committed + n;
    }
}

/// Opens pages for reading and writing.
pub struct PageManager {}

impl PageManager {
    /// Reads the header of a page.
    pub fn read_header<F: Flash, H: Header>(&self, flash: &mut F, page_id: PageID) -> (r: Result<
        H,
        Error,
    >)
        requires
            page_id.in_range(),
            flash_shape((*old(flash))@),
        ensures
            (*final(flash))@ == (*old(flash))@,
            match page_header::<H>((*old(flash))@[page_id.raw as int]) {
                Some(h) => r matches Ok(x) && x.model() == h,
                None => r == Err::<H, Error>(Error::Corrupted),
            },
    {
        let mut m: [u8; 4] = [0u8; 4];
        flash.read(page_id, 0, &mut m);
        let ghost p = (*flash)@[page_id.raw as int];
        assert(m@[0] == p[0] && m@[1] == p[1] && m@[2] == p[2] && m@[3] == p[3]);
        if get32(m.as_slice(), 0) != H::magic() {
            return Err(Error::Corrupted);
        }
        let size: usize = H::size();
        let mut b: Vec<u8> = vec![0u8; size];
        flash.read(page_id, PAGE_HEADER_SIZE, b.as_mut_slice());
        Ok(H::from_bytes(b.as_slice()))
    }

    /// Opens a page for reading its payload.
    pub fn read<F: Flash, H: Header>(&self, flash: &mut F, page_id: PageID) -> (r: Result<
        (H, PageReader),
        Error,
    >)
        requires
            page_id.in_range(),
            flash_shape((*old(flash))@),
        ensures
            (*final(flash))@ == (*old(flash))@,
            ({
                let p = (*old(flash))@[page_id.raw as int];
                match (page_header::<H>(p), payload_from(p, payload_start::<H>())) {
                    (Some(h), Some(b)) => r matches Ok(x) && x.0.model() == h && x.1 == (
                    PageReader { page_id, start: payload_start::<H>() as usize, pos: 0 })
                        && x.1.wf(),
                    _ => r == Err::<(H, PageReader), Error>(Error::Corrupted),
                }
            }),
    {
        let h: H = match self.read_header(flash, page_id) {
            Ok(h) => h,
            Err(e) => {
                return Err(Error::Corrupted);
            },
        };
        let start: usize = PAGE_HEADER_SIZE + H::size();
        match measure(flash, page_id, start) {
            Ok(m) => Ok((h, PageReader { page_id, start, pos: 0 })),
            Err(e) => Err(Error::Corrupted),
        }
    }

    /// Opens a page for writing it anew.
    pub fn write<H: Header>(&self, page_id: PageID) -> (r: PageWriter)
        requires
            page_id.in_range(),
        ensures
            r.wf(),
            r.page_id == page_id,
            r.needs_erase,
            r.offset == payload_start::<H>(),
            r.committed == 0,
            r.buf@ == Seq::<u8>::empty(),
    {
        let start: usize = PAGE_HEADER_SIZE + H::size();
        PageWriter { page_id, needs_erase: true, offset: start, committed: 0, buf: Vec::new() }
    }

    /// Opens a page for adding a chunk to it.
    pub fn write_append<F: Flash, H: Header>(&self, flash: &mut F, page_id: PageID) -> (r: Result<
        (H, PageWriter),
        Error,
    >)
        requires
            page_id.in_range(),
            flash_shape((*old(flash))@),
        ensures
            (*final(flash))@ == (*old(flash))@,
            ({
                let p = (*old(flash))@[page_id.raw as int];
                match (page_header::<H>(p), payload_from(p, payload_start::<H>())) {
                    (Some(h), Some(b)) => r matches Ok(x) && x.0.model() == h && x.1.wf()
                        && x.1.page_id == page_id && !x.1.needs_erase && x.1.offset
                        == payload_end(p, payload_start::<H>()) && x.1.committed == b.len()
                        && x.1.buf@ == Seq::<u8>::empty(),
                    _ => r == Err::<(H, PageWriter), Error>(Error::Corrupted),
                }
            }),
    {
        let h: H = match self.read_header(flash, page_id) {
            Ok(h) => h,
            Err(e) => {
                return Err(Error::Corrupted);
            },
        };
        let start: usize = PAGE_HEADER_SIZE + H::size();
        match measure(flash, page_id, start) {
            Ok((total, end)) => Ok(
                (
                    h,
                    PageWriter {
                        page_id,
                        needs_erase: false,
                        offset: end,
                        committed: total,
                        buf: Vec::new(),
                    },
                ),
            ),
            Err(e) => Err(Error::Corrupted),
        }
    }
}

/// Whether everything from `end` on is erased.
pub open spec fn erased_from(p: Seq<u8>, end: int) -> bool {
    forall|i: int| end <= i < p.len() ==> p[i] == ERASE_VALUE
}

/// No chunk starts where a page is erased.
proof fn lemma_erased_slot(p: Seq<u8>, off: int)
    requires
        0 <= off,
        erased_from(p, off),
    ensures
        chunk_slot(p, off) == ChunkSlot::End,
{
}

/// A written page holds its header, and no other kind of header.
pub proof fn lemma_image_header(magic: u32, header: Seq<u8>, payload: Seq<u8>)
    requires
        header.len() <= 16,
        PAGE_HEADER_SIZE + header.len() + CHUNK_HEADER_SIZE + payload.len() <= PAGE_SIZE,
    ensures
        page_image(magic, header, payload).len() == PAGE_SIZE,
        header_bytes(page_image(magic, header, payload), magic, header.len() as int) == Some(
            header,
        ),
        forall|other: u32, size: int|
            other != magic ==> (#[trigger] header_bytes(
                page_image(magic, header, payload),
                other,
                size,
            )) is None,
{
    let p = page_image(magic, header, payload);
    let top = bytes32(magic) + header;
    assert(top[0] == bytes32(magic)[0] && top[1] == bytes32(magic)[1] && top[2] == bytes32(
        magic,
    )[2] && top[3] == bytes32(magic)[3]);
    lemma_le32(p, 0, magic);
    assert(p.subrange(PAGE_HEADER_SIZE as int, PAGE_HEADER_SIZE + header.len()) =~= header);
}

/// A written page holds its payload, and is erased behind it.
pub proof fn lemma_image_payload(magic: u32, header: Seq<u8>, payload: Seq<u8>)
    requires
        header.len() <= 16,
        PAGE_HEADER_SIZE + header.len() + CHUNK_HEADER_SIZE + payload.len() <= PAGE_SIZE,
    ensures
        ({
            let p = page_image(magic, header, payload);
            let start = PAGE_HEADER_SIZE + header.len();
            &&& payload_from(p, start) == Some(payload)
            &&& erased_from(p, payload_end(p, start))
        }),
{
    let p = page_image(magic, header, payload);
    let start = PAGE_HEADER_SIZE + header.len();
    if payload.len() == 0 {
        lemma_erased_slot(p, start);
        assert(payload =~= Seq::empty());
    } else {
        let top = splice(erased_page(), 0, bytes32(magic) + header);
        lemma_erased_slot(top, start);
        assert(payload_from(top, start) == Some(Seq::<u8>::empty()));
        lemma_append_chunk(top, start, payload);
        assert(Seq::<u8>::empty() + payload =~= payload);
    }
}

/// Adding a chunk behind the last one adds its bytes to the payload.
pub proof fn lemma_append_chunk(p: Seq<u8>, start: int, payload: Seq<u8>)
    requires
        p.len() == PAGE_SIZE,
        0 <= start <= PAGE_SIZE,
        payload_from(p, start) is Some,
        erased_from(p, payload_end(p, start)),
        payload.len() > 0,
        payload_end(p, start) + CHUNK_HEADER_SIZE + payload.len() <= PAGE_SIZE,
    ensures
        ({
            let end = payload_end(p, start);
            let q = splice(p, end, chunk_bytes(payload));
            &&& start <= end
            &&& payload_from(q, start) == Some(payload_from(p, start)->0 + payload)
            &&& payload_end(q, start) == end + CHUNK_HEADER_SIZE + payload.len()
            &&& erased_from(q, payload_end(q, start))
        }),
    decreases PAGE_SIZE - start,
{
    let end = payload_end(p, start);
    let ch = chunk_bytes(payload);
    let q = splice(p, end, ch);
    match chunk_slot(p, start) {
        ChunkSlot::Chunk(len) => {
            let next = start + CHUNK_HEADER_SIZE + len;
            lemma_append_chunk(p, next, payload);
            assert(next <= end);
            assert(q[start] == p[start] && q[start + 1] == p[start + 1] && q[start + 2] == p[start
                + 2] && q[start + 3] == p[start + 3]);
            assert(chunk_slot(q, start) == ChunkSlot::Chunk(len));
            let a = p.subrange(start + CHUNK_HEADER_SIZE, next);
            assert(q.subrange(start + CHUNK_HEADER_SIZE, next) =~= a);
            assert((a + payload_from(p, next)->0) + payload =~= a + (payload_from(p, next)->0
                + payload));
        },
        _ => {
            lemma_first_chunk(p, start, payload);
            assert(Seq::<u8>::empty() + payload =~= payload);
        },
    }
}

/// A chunk written where a page is erased is the whole payload from there on.
proof fn lemma_first_chunk(p: Seq<u8>, start: int, payload: Seq<u8>)
    requires
        p.len() == PAGE_SIZE,
        0 <= start,
        erased_from(p, start),
        payload.len() > 0,
        start + CHUNK_HEADER_SIZE + payload.len() <= PAGE_SIZE,
    ensures
        ({
            let q = splice(p, start, chunk_bytes(payload));
            &&& payload_from(q, start) == Some(payload)
            &&& payload_end(q, start) == start + CHUNK_HEADER_SIZE + payload.len()
            &&& erased_from(q, payload_end(q, start))
        }),
{
    let ch = chunk_bytes(payload);
    let q = splice(p, start, ch);
    let next = start + CHUNK_HEADER_SIZE + payload.len();
    let n = payload.len() as u16;
    assert(ch[0] == bytes16(CHUNK_MAGIC)[0] && ch[1] == bytes16(CHUNK_MAGIC)[1]);
    assert(ch[2] == bytes16(n)[0] && ch[3] == bytes16(n)[1]);
    assert(q[start] == ch[0] && q[start + 1] == ch[1] && q[start + 2] == ch[2] && q[start + 3]
        == ch[3]);
    lemma_le16(q, start, CHUNK_MAGIC);
    lemma_le16(q, start + 2, n);
    assert(chunk_slot(q, start) == ChunkSlot::Chunk(n as int));
    assert(q.subrange(start + CHUNK_HEADER_SIZE, next) =~= payload);
    lemma_erased_slot(q, next);
    assert(payload_from(q, next) == Some(Seq::<u8>::empty()));
    assert(payload + Seq::<u8>::empty() =~= payload);
    reveal_with_fuel(payload_end, 2);
}

} // verus!
