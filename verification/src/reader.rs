//! Reading from files.

use vstd::prelude::*;

use crate::bytes::splice;
use crate::chain::{contents, file_ok};
use crate::config::{FileID, FILE_COUNT};
use crate::file::{FileManager, FileState};
use crate::flash::Flash;
use crate::headers::{
    data_header, data_payload, lemma_data_payload_len, DataHeader, DATA_START,
    PAGE_MAX_PAYLOAD_SIZE,
};
use crate::page::{PageReader, ReadError};
use crate::read_laws::{law_seek, law_skip, left_at_eof, lemma_reads_contents, reader_at};
use crate::seqnum::SeqNum;
use crate::store::{file_page, lemma_file_page, FileModel, Store};
use crate::Error;

verus! {

/// Where a reader is.
pub enum ReaderModel {
    /// At the start of the file.
    Created,
    /// At `seq`, which is `pos` bytes into the payload of a page.
    Reading { seq: u32, page: u16, pos: int },
    /// At the end of the file.
    Finished,
}

/// Positions a reader at `seq`.
pub open spec fn seek_to(fl: Seq<Seq<u8>>, f: FileModel, seq: u32) -> Result<ReaderModel, Error> {
    match file_page(fl, f, seq) {
        Err(e) => Err(e),
        Ok(None) => Ok(ReaderModel::Finished),
        Ok(Some(pp)) => {
            let p = fl[pp.page as int];
            match (data_header(p), data_payload(p)) {
                (Some(h), Some(b)) => if seq - h.seq >= b.len() {
                    Err(Error::Corrupted)
                } else {
                    Ok(ReaderModel::Reading { seq, page: pp.page, pos: seq - h.seq })
                },
                _ => Err(Error::Corrupted),
            }
        },
    }
}

/// Whether the page where a reader of `seq` ends up does not start behind `seq`. The device and
/// the tables have to disagree for it to do so.
pub open spec fn seek_ready(fl: Seq<Seq<u8>>, f: FileModel, seq: u32) -> bool {
    file_page(fl, f, seq) matches Ok(Some(pp)) ==> {
        let p = fl[pp.page as int];
        data_header(p) is Some && data_payload(p) is Some ==> data_header(p)->0.seq <= seq
    }
}

/// Moves a reader on to the next page if it has used up its page.
pub open spec fn settle(fl: Seq<Seq<u8>>, f: FileModel, s: ReaderModel) -> Result<
    ReaderModel,
    Error,
> {
    match s {
        ReaderModel::Created => seek_to(fl, f, f.first),
        ReaderModel::Reading { seq, page, pos } => match data_payload(fl[page as int]) {
            None => Err(Error::Corrupted),
            Some(b) => if pos < b.len() {
                Ok(s)
            } else {
                seek_to(fl, f, seq)
            },
        },
        ReaderModel::Finished => Ok(s),
    }
}

/// Whether this can be done.
pub open spec fn settle_ready(fl: Seq<Seq<u8>>, f: FileModel, s: ReaderModel) -> bool {
    match s {
        ReaderModel::Created => seek_ready(fl, f, f.first),
        ReaderModel::Reading { seq, page, pos } => (data_payload(fl[page as int]) matches Some(b)
            && pos >= b.len()) ==> seek_ready(fl, f, seq),
        ReaderModel::Finished => true,
    }
}

/// What a read leaves behind: the reader, the bytes that it got, and whether it got all of them.
pub struct ReadOutcome {
    pub state: ReaderModel,
    pub bytes: Seq<u8>,
    pub result: Result<(), ReadError>,
}

/// Reads `n` bytes, page by page.
pub open spec fn read_bytes(fl: Seq<Seq<u8>>, f: FileModel, s: ReaderModel, n: int) -> ReadOutcome
    decreases n,
{
    if n <= 0 {
        ReadOutcome { state: s, bytes: Seq::empty(), result: Ok(()) }
    } else {
        match settle(fl, f, s) {
            Err(_) => ReadOutcome {
                state: s,
                bytes: Seq::empty(),
                result: Err(ReadError::Corrupted),
            },
            Ok(ReaderModel::Reading { seq, page, pos }) => {
                let b = data_payload(fl[page as int])->0;
                let k = if n <= b.len() - pos {
                    n
                } else {
                    b.len() - pos
                };
                let got = b.subrange(pos, pos + k);
                if k <= 0 || seq + k > u32::MAX {
                    ReadOutcome {
                        state: ReaderModel::Reading { seq, page, pos: pos + k },
                        bytes: got,
                        result: Err(ReadError::Corrupted),
                    }
                } else {
                    let rest = read_bytes(
                        fl,
                        f,
                        ReaderModel::Reading { seq: (seq + k) as u32, page, pos: pos + k },
                        n - k,
                    );
                    ReadOutcome { bytes: got + rest.bytes, ..rest }
                }
            },
            Ok(_) => ReadOutcome {
                state: ReaderModel::Finished,
                bytes: Seq::empty(),
                result: Err(ReadError::Eof),
            },
        }
    }
}

/// One go at a read of `n` bytes: it gets bytes from the current page, or moves on to the next
/// page.
pub open spec fn read_once(fl: Seq<Seq<u8>>, f: FileModel, s: ReaderModel, n: int) -> ReadOutcome {
    let none = Seq::<u8>::empty();
    match s {
        ReaderModel::Finished => ReadOutcome {
            state: s,
            bytes: none,
            result: Err(ReadError::Eof),
        },
        ReaderModel::Reading { seq, page, pos } if data_payload(fl[page as int]) is Some && pos
            < data_payload(fl[page as int])->0.len() => {
            let b = data_payload(fl[page as int])->0;
            let k = if n <= b.len() - pos {
                n
            } else {
                b.len() - pos
            };
            let got = b.subrange(pos, pos + k);
            if seq + k > u32::MAX {
                ReadOutcome {
                    state: ReaderModel::Reading { seq, page, pos: pos + k },
                    bytes: got,
                    result: Err(ReadError::Corrupted),
                }
            } else {
                ReadOutcome {
                    state: ReaderModel::Reading { seq: (seq + k) as u32, page, pos: pos + k },
                    bytes: got,
                    result: Ok(()),
                }
            }
        },
        _ => match settle(fl, f, s) {
            Ok(t) => ReadOutcome { state: t, bytes: none, result: Ok(()) },
            Err(_) => ReadOutcome { state: s, bytes: none, result: Err(ReadError::Corrupted) },
        },
    }
}

/// A read is one go at it, followed by a read of what is left to read.
proof fn lemma_read_once(fl: Seq<Seq<u8>>, f: FileModel, s: ReaderModel, n: int)
    requires
        n > 0,
        s matches ReaderModel::Reading { seq, page, pos } ==> pos >= 0,
        read_ready(fl, f, s, n),
    ensures
        ({
            let once = read_once(fl, f, s, n);
            let left = n - once.bytes.len();
            let rest = read_bytes(fl, f, once.state, left);
            &&& 0 <= left
            &&& match once.result {
                Err(_) => read_bytes(fl, f, s, n) == once,
                Ok(_) => read_bytes(fl, f, s, n) == (ReadOutcome {
                    bytes: once.bytes + rest.bytes,
                    ..rest
                }) && read_ready(fl, f, once.state, left),
            }
            &&& once.result is Ok && once.bytes.len() == 0 ==> {
                &&& settle(fl, f, once.state) == Ok::<ReaderModel, Error>(once.state)
                &&& settle(fl, f, s) != Ok::<ReaderModel, Error>(s)
            }
        }),
{
    let once = read_once(fl, f, s, n);
    let left = n - once.bytes.len();
    let rest = read_bytes(fl, f, once.state, left);
    if once.result is Ok && once.bytes.len() == 0 {
        assert(Seq::<u8>::empty() + rest.bytes =~= rest.bytes);
    }
}

/// Whether a read of `n` bytes can move on each time that it has used up a page.
pub open spec fn read_ready(fl: Seq<Seq<u8>>, f: FileModel, s: ReaderModel, n: int) -> bool
    decreases n,
{
    n > 0 ==> {
        &&& settle_ready(fl, f, s)
        &&& settle(fl, f, s) matches Ok(ReaderModel::Reading { seq, page, pos }) ==> {
            let b = data_payload(fl[page as int])->0;
            let k = if n <= b.len() - pos {
                n
            } else {
                b.len() - pos
            };
            k > 0 && seq + k <= u32::MAX ==> read_ready(
                fl,
                f,
                ReaderModel::Reading { seq: (seq + k) as u32, page, pos: pos + k },
                n - k,
            )
        }
    }
}

/// How far a skip of `len` bytes gets within the current page.
pub open spec fn skip_in_page(fl: Seq<Seq<u8>>, s: ReaderModel, len: int) -> int {
    match s {
        ReaderModel::Reading { seq, page, pos } => match data_payload(fl[page as int]) {
            None => 0,
            Some(b) => if len >= PAGE_MAX_PAYLOAD_SIZE || pos >= b.len() {
                0
            } else if len <= b.len() - pos {
                len
            } else {
                b.len() - pos
            },
        },
        _ => 0,
    }
}

/// The sequence number that a reader is at.
pub open spec fn reader_seq(f: FileModel, s: ReaderModel) -> int {
    match s {
        ReaderModel::Created => f.first as int,
        ReaderModel::Reading { seq, .. } => seq as int,
        ReaderModel::Finished => f.end as int,
    }
}

/// A reader `n` bytes further on in its page.
pub open spec fn moved(s: ReaderModel, n: int) -> ReaderModel {
    match s {
        ReaderModel::Reading { seq, page, pos } => ReaderModel::Reading {
            seq: (seq + n) as u32,
            page,
            pos: pos + n,
        },
        _ => s,
    }
}

/// Moves a reader to a sequence number of the file.
pub open spec fn go_to(fl: Seq<Seq<u8>>, f: FileModel, s: ReaderModel, seq: int) -> (
    ReaderModel,
    Result<(), ReadError>,
) {
    if seq > u32::MAX || seq > f.end {
        (s, Err(ReadError::Eof))
    } else {
        match seek_to(fl, f, seq as u32) {
            Err(_) => (s, Err(ReadError::Corrupted)),
            Ok(s2) => (s2, Ok(())),
        }
    }
}

/// Whether a reader can be moved there.
pub open spec fn go_ready(fl: Seq<Seq<u8>>, f: FileModel, seq: int) -> bool {
    0 <= seq <= u32::MAX && seq <= f.end ==> seek_ready(fl, f, seq as u32)
}

/// Skips `len` bytes.
pub open spec fn skip_bytes(fl: Seq<Seq<u8>>, f: FileModel, s: ReaderModel, len: int) -> (
    ReaderModel,
    Result<(), ReadError>,
) {
    if s is Reading && len < PAGE_MAX_PAYLOAD_SIZE && data_payload(
        fl[s->Reading_page as int],
    ) is None {
        (s, Err(ReadError::Corrupted))
    } else {
        let n = skip_in_page(fl, s, len);
        let s1 = moved(s, n);
        if len == n {
            (s1, Ok(()))
        } else {
            go_to(fl, f, s1, reader_seq(f, s1) + (len - n))
        }
    }
}

/// Whether `len` bytes can be skipped: there is a sequence number for where the skip gets within
/// the current page, and the reader can be moved on from there.
pub open spec fn skip_ready(fl: Seq<Seq<u8>>, f: FileModel, s: ReaderModel, len: int) -> bool {
    let n = skip_in_page(fl, s, len);
    &&& s is Finished ==> len == 0
    &&& reader_seq(f, s) + n <= u32::MAX
    &&& len != n && !(s is Reading && len < PAGE_MAX_PAYLOAD_SIZE && data_payload(
        fl[s->Reading_page as int],
    ) is None) ==> go_ready(fl, f, reader_seq(f, moved(s, n)) + (len - n))
}

/// Reads the bytes of a file, from front to back.
pub struct FileReader {
    pub file_id: FileID,
    pub state: ReaderState,
}

pub enum ReaderState {
    Created,
    Reading(ReaderStateReading),
    Finished,
}

pub struct ReaderStateReading {
    pub seq: SeqNum,
    pub reader: PageReader,
}

impl View for FileReader {
    type V = ReaderModel;

    open spec fn view(&self) -> ReaderModel {
        match self.state {
            ReaderState::Created => ReaderModel::Created,
            ReaderState::Reading(s) => ReaderModel::Reading {
                seq: s.seq.0,
                page: s.reader.page_id.raw,
                pos: s.reader.pos as int,
            },
            ReaderState::Finished => ReaderModel::Finished,
        }
    }
}

impl FileReader {
    pub open spec fn wf(self) -> bool {
        &&& self.file_id < FILE_COUNT
        &&& self.state matches ReaderState::Reading(s) ==> s.reader.wf() && s.reader.start
            == DATA_START
    }

    /// The file that is read.
    pub open spec fn file(self, st: Store) -> FileModel {
        st.files[self.file_id as int]
    }

    /// A reader at the start of a file.
    pub fn new(file_id: FileID) -> (r: FileReader)
        requires
            file_id < FILE_COUNT,
        ensures
            r.wf(),
            r.file_id == file_id,
            r@ == ReaderModel::Created,
    {
        FileReader { file_id, state: ReaderState::Created }
    }

    /// The sequence number of the next byte.
    pub fn curr_seq<F: Flash>(&mut self, m: &mut FileManager<F>) -> (r: SeqNum)
        requires
            old(self).wf(),
            old(self)@ !is Finished,
        ensures
            *final(self) == *old(self),
            *final(m) == *old(m),
            r.0 == reader_seq(old(self).file(old(m)@), old(self)@),
    {
        match &self.state {
            ReaderState::Created => m.files[self.file_id as usize].first_seq,
            ReaderState::Reading(s) => s.seq,
            ReaderState::Finished => SeqNum(0),
        }
    }

    /// Moves to a sequence number.
    fn seek_seq<F: Flash>(&mut self, m: &mut FileManager<F>, seq: SeqNum) -> (r: Result<(), Error>)
        requires
            old(self).wf(),
            old(m)@.wf(),
            seek_ready(old(m)@.flash, old(self).file(old(m)@), seq.0),
        ensures
            final(m)@ == old(m)@,
            final(self).wf(),
            final(self).file_id == old(self).file_id,
            match seek_to(old(m)@.flash, old(self).file(old(m)@), seq.0) {
                Ok(s) => r == Ok::<(), Error>(()) && final(self)@ == s,
                Err(e) => r == Err::<(), Error>(e) && *final(self) == *old(self),
            },
    {
        match m.get_file_page(self.file_id, seq) {
            Err(e) => Err(e),
            Ok(None) => {
                self.state = ReaderState::Finished;
                Ok(())
            },
            Ok(Some(pp)) => {
                proof {
                    lemma_file_page(m@.flash, self.file(m@), seq.0);
                }
                let ghost p = m@.flash[pp.page_id.raw as int];
                let (h, mut r): (DataHeader, PageReader) = match m.read_data_page(pp.page_id) {
                    Ok(x) => x,
                    Err(e) => {
                        return Err(Error::Corrupted);
                    },
                };
                let n: usize = seq.sub(h.seq);
                let got_n: usize = match r.skip(&mut m.flash, n) {
                    Ok(n) => n,
                    Err(e) => {
                        return Err(Error::Corrupted);
                    },
                };
                let eof: bool = match r.is_at_eof(&mut m.flash) {
                    Ok(b) => b,
                    Err(e) => {
                        return Err(Error::Corrupted);
                    },
                };
                assert(m@ =~= old(m)@);
                if n != got_n || eof {
                    return Err(Error::Corrupted);
                }
                self.state = ReaderState::Reading(ReaderStateReading { seq, reader: r });
                Ok(())
            },
        }
    }

    /// Moves to the page that holds the next byte.
    fn next_page<F: Flash>(&mut self, m: &mut FileManager<F>) -> (r: Result<(), Error>)
        requires
            old(self).wf(),
            old(self)@ !is Finished,
            old(m)@.wf(),
            seek_ready(
                old(m)@.flash,
                old(self).file(old(m)@),
                reader_seq(old(self).file(old(m)@), old(self)@) as u32,
            ),
        ensures
            final(m)@ == old(m)@,
            final(self).wf(),
            final(self).file_id == old(self).file_id,
            match seek_to(
                old(m)@.flash,
                old(self).file(old(m)@),
                reader_seq(old(self).file(old(m)@), old(self)@) as u32,
            ) {
                Ok(s) => r == Ok::<(), Error>(()) && final(self)@ == s,
                Err(e) => r == Err::<(), Error>(e) && *final(self) == *old(self),
            },
    {
        let seq: SeqNum = self.curr_seq(m);
        self.seek_seq(m, seq)
    }

    /// Gets bytes from the current page, or moves on to the next page.
    fn read_once<F: Flash>(&mut self, m: &mut FileManager<F>, data: &mut [u8], at: usize) -> (r:
        Result<usize, ReadError>)
        requires
            old(self).wf(),
            old(m)@.wf(),
            at < old(data)@.len(),
            settle_ready(old(m)@.flash, old(self).file(old(m)@), old(self)@),
        ensures
            final(m)@ == old(m)@,
            final(self).wf(),
            final(self).file_id == old(self).file_id,
            ({
                let once = read_once(
                    old(m)@.flash,
                    old(self).file(old(m)@),
                    old(self)@,
                    old(data)@.len() - at,
                );
                &&& final(self)@ == once.state
                &&& final(data)@ == splice(old(data)@, at as int, once.bytes)
                &&& match once.result {
                    Ok(_) => r == Ok::<usize, ReadError>(once.bytes.len() as usize),
                    Err(e) => r == Err::<usize, ReadError>(e),
                }
                &&& once.bytes.len() <= old(data)@.len() - at
            }),
    {
        let ghost fl = m@.flash;
        assert(splice(data@, at as int, Seq::empty()) =~= data@);
        match &mut self.state {
            ReaderState::Finished => Err(ReadError::Eof),
            ReaderState::Created => match self.next_page(m) {
                Ok(_) => Ok(0),
                Err(e) => Err(ReadError::Corrupted),
            },
            ReaderState::Reading(s) => {
                proof {
                    reveal(data_payload);
                    let p = fl[s.reader.page_id.raw as int];
                    if data_payload(p) is Some {
                        lemma_data_payload_len(p);
                    }
                }
                let n: usize = match s.reader.read(&mut m.flash, data, at) {
                    Ok(n) => n,
                    Err(e) => {
                        assert(m@ =~= old(m)@);
                        return Err(ReadError::Corrupted);
                    },
                };
                assert(m@ =~= old(m)@);
                if n == 0 {
                    match self.next_page(m) {
                        Ok(_) => Ok(0),
                        Err(e) => Err(ReadError::Corrupted),
                    }
                } else {
                    match s.seq.add(n) {
                        Ok(seq) => {
                            s.seq = seq;
                            Ok(n)
                        },
                        Err(e) => Err(ReadError::Corrupted),
                    }
                }
            },
        }
    }

    /// Fills `data` with the next bytes, page by page.
    fn read_pages<F: Flash>(&mut self, m: &mut FileManager<F>, data: &mut [u8]) -> (r: Result<
        (),
        ReadError,
    >)
        requires
            old(self).wf(),
            old(m)@.wf(),
            read_ready(
                old(m)@.flash,
                old(self).file(old(m)@),
                old(self)@,
                old(data)@.len() as int,
            ),
        ensures
            final(m)@ == old(m)@,
            final(self).wf(),
            final(self).file_id == old(self).file_id,
            ({
                let out = read_bytes(
                    old(m)@.flash,
                    old(self).file(old(m)@),
                    old(self)@,
                    old(data)@.len() as int,
                );
                &&& final(self)@ == out.state
                &&& final(data)@ == splice(old(data)@, 0, out.bytes)
                &&& r == out.result
            }),
    {
        let size: usize = data.len();
        let ghost fl = m@.flash;
        let ghost f = self.file(m@);
        let ghost goal = read_bytes(fl, f, self@, size as int);
        let ghost mut done: Seq<u8> = Seq::empty();
        let mut at: usize = 0;
        assert(splice(data@, 0, done) =~= data@);
        assert(done + goal.bytes =~= goal.bytes);
        while at < size
            invariant
                at <= size,
                size == data@.len(),
                size == old(data)@.len(),
                m@ == old(m)@,
                m@.wf(),
                self.wf(),
                self.file_id == old(self).file_id,
                fl == m@.flash,
                f == self.file(m@),
                read_ready(fl, f, self@, size - at),
                goal == read_bytes(fl, f, old(self)@, size as int),
                ({
                    let rest = read_bytes(fl, f, self@, size - at);
                    goal == (ReadOutcome { bytes: done + rest.bytes, ..rest })
                }),
                done.len() == at,
                data@ == splice(old(data)@, 0, done),
            decreases
                    size - at,
                    if settle(fl, f, self@) == Ok::<ReaderModel, Error>(self@) {
                        0int
                    } else {
                        1int
                    },
        {
            let ghost once = read_once(fl, f, self@, size - at);
            proof {
                lemma_read_once(fl, f, self@, size - at);
            }
            let r: Result<usize, ReadError> = self.read_once(m, data, at);
            assert(data@ =~= splice(old(data)@, 0, done + once.bytes));
            match r {
                Ok(n) => {
                    at = at + n;
                    proof {
                        let rest = read_bytes(fl, f, self@, size - at);
                        assert(done + (once.bytes + rest.bytes) =~= (done + once.bytes)
                            + rest.bytes);
                        done = done + once.bytes;
                    }
                },
                Err(e) => {
                    return Err(e);
                },
            }
        }
        assert(done + Seq::<u8>::empty() =~= done);
        Ok(())
    }

    /// Fills `data` with the next bytes.
    pub fn read<F: Flash>(&mut self, m: &mut FileManager<F>, data: &mut [u8]) -> (r: Result<
        (),
        ReadError,
    >)
        requires
            old(self).wf(),
            old(m)@.wf(),
            read_ready(
                old(m)@.flash,
                old(self).file(old(m)@),
                old(self)@,
                old(data)@.len() as int,
            ),
        ensures
            final(m)@ == old(m)@,
            final(self).wf(),
            final(self).file_id == old(self).file_id,
            ({
                let out = read_bytes(
                    old(m)@.flash,
                    old(self).file(old(m)@),
                    old(self)@,
                    old(data)@.len() as int,
                );
                &&& final(self)@ == out.state
                &&& final(data)@ == splice(old(data)@, 0, out.bytes)
                &&& r == out.result
            }),
            forall|off: int| #[trigger]
                reader_at(old(m)@.flash, old(self).file(old(m)@), old(self)@, off) && file_ok(
                    old(m)@.flash,
                    old(self).file(old(m)@),
                ) ==> {
                    let c = contents(old(m)@.flash, old(self).file(old(m)@));
                    let end = off + old(data)@.len();
                    if end <= c.len() {
                        &&& r == Ok::<(), ReadError>(())
                        &&& final(data)@ == c.subrange(off, end)
                        &&& reader_at(
                            old(m)@.flash,
                            old(self).file(old(m)@),
                            final(self)@,
                            end,
                        )
                    } else {
                        &&& r == Err::<(), ReadError>(ReadError::Eof)
                        &&& final(data)@.subrange(0, c.len() - off) == c.subrange(
                            off,
                            c.len() as int,
                        )
                        &&& forall|i: int|
                            c.len() - off <= i < old(data)@.len() ==> #[trigger] final(data)@[i]
                                == old(data)@[i]
                        &&& final(self)@ is Finished
                    }
                },
    {
        proof {
            lemma_reads_contents(m@.flash, self.file(m@), self@, data@.len() as int);
        }
        let r = self.read_pages(m, data);
        proof {
            let out = read_bytes(
                old(m)@.flash,
                old(self).file(old(m)@),
                old(self)@,
                old(data)@.len() as int,
            );
            if out.bytes.len() == data@.len() {
                assert(splice(old(data)@, 0, out.bytes) =~= out.bytes);
            }
            if out.bytes.len() < data@.len() {
                assert(data@.subrange(0, out.bytes.len() as int) =~= out.bytes);
            }
        }
        r
    }

    /// Skips bytes.
    pub fn skip<F: Flash>(&mut self, m: &mut FileManager<F>, len: usize) -> (r: Result<
        (),
        ReadError,
    >)
        requires
            old(self).wf(),
            old(m)@.wf(),
            skip_ready(old(m)@.flash, old(self).file(old(m)@), old(self)@, len as int),
        ensures
            final(m)@ == old(m)@,
            final(self).wf(),
            final(self).file_id == old(self).file_id,
            (final(self)@, r) == skip_bytes(
                old(m)@.flash,
                old(self).file(old(m)@),
                old(self)@,
                len as int,
            ),
            forall|off: int| #[trigger]
                reader_at(old(m)@.flash, old(self).file(old(m)@), old(self)@, off) && file_ok(
                    old(m)@.flash,
                    old(self).file(old(m)@),
                ) ==> if off + len <= contents(old(m)@.flash, old(self).file(old(m)@)).len() {
                    r == Ok::<(), ReadError>(()) && reader_at(
                        old(m)@.flash,
                        old(self).file(old(m)@),
                        final(self)@,
                        off + len,
                    )
                } else {
                    r == Err::<(), ReadError>(ReadError::Eof) && left_at_eof(
                        old(m)@.flash,
                        old(self).file(old(m)@),
                        old(self)@,
                        off,
                        len as int,
                        final(self)@,
                    )
                },
    {
        let ghost fl = m@.flash;
        let ghost f = self.file(m@);
        proof {
            assert forall|off: int| #[trigger] reader_at(fl, f, self@, off) && file_ok(fl, f) implies {
                let (t, r) = skip_bytes(fl, f, self@, len as int);
                if off + len <= contents(fl, f).len() {
                    r == Ok::<(), ReadError>(()) && reader_at(fl, f, t, off + len)
                } else {
                    r == Err::<(), ReadError>(ReadError::Eof) && left_at_eof(
                        fl,
                        f,
                        self@,
                        off,
                        len as int,
                        t,
                    )
                }
            } by {
                law_skip(fl, f, self@, off, len as int);
            }
        }
        let ghost skipped = skip_in_page(fl, self@, len as int);
        let ghost whole = len;
        let mut len: usize = len;
        // advance within the current page.
        if let ReaderState::Reading(s) = &mut self.state {
            // Only worth trying if the skip might not exhaust the current page
            if len < PAGE_MAX_PAYLOAD_SIZE {
                proof {
                    reveal(data_payload);
                    let p = fl[s.reader.page_id.raw as int];
                    if data_payload(p) is Some {
                        lemma_data_payload_len(p);
                    }
                }
                let n: usize = match s.reader.skip(&mut m.flash, len) {
                    Ok(n) => n,
                    Err(e) => {
                        assert(m@ =~= old(m)@);
                        return Err(ReadError::Corrupted);
                    },
                };
                assert(m@ =~= old(m)@);
                len = len - n;
                s.seq = SeqNum(s.seq.0 + n as u32);
            }
        }
        assert(self@ == moved(old(self)@, skipped));
        assert(len == whole - skipped);
        // If we got more to skip
        if len != 0 {
            assert(f == m.files@[self.file_id as int]@);
            let seq: SeqNum = self.curr_seq(m);
            match seq.add(len) {
                Ok(new_seq) => {
                    if new_seq.0 > m.files[self.file_id as usize].last_seq.0 {
                        return Err(ReadError::Eof);
                    }
                    match self.seek_seq(m, new_seq) {
                        Ok(_) => {},
                        Err(e) => {
                            return Err(ReadError::Corrupted);
                        },
                    }
                },
                Err(e) => {
                    return Err(ReadError::Eof);
                },
            }
        }
        Ok(())
    }

    /// How far into the file the next byte is.
    pub fn offset<F: Flash>(&mut self, m: &mut FileManager<F>) -> (r: usize)
        requires
            old(self).wf(),
            old(self)@ !is Finished,
            old(self).file(old(m)@).first <= reader_seq(old(self).file(old(m)@), old(self)@),
        ensures
            *final(self) == *old(self),
            *final(m) == *old(m),
            r == reader_seq(old(self).file(old(m)@), old(self)@) - old(self).file(old(m)@).first,
            forall|off: int| #[trigger]
                reader_at(old(m)@.flash, old(self).file(old(m)@), old(self)@, off) ==> r == off,
    {
        proof {
            reveal(reader_at);
        }
        let first_seq: SeqNum = m.files[self.file_id as usize].first_seq;
        self.curr_seq(m).sub(first_seq)
    }

    /// Moves to an offset into the file.
    pub fn seek<F: Flash>(&mut self, m: &mut FileManager<F>, offs: usize) -> (r: Result<
        (),
        ReadError,
    >)
        requires
            old(self).wf(),
            old(m)@.wf(),
            go_ready(
                old(m)@.flash,
                old(self).file(old(m)@),
                old(self).file(old(m)@).first + offs,
            ),
        ensures
            final(m)@ == old(m)@,
            final(self).wf(),
            final(self).file_id == old(self).file_id,
            (final(self)@, r) == go_to(
                old(m)@.flash,
                old(self).file(old(m)@),
                old(self)@,
                old(self).file(old(m)@).first + offs,
            ),
            file_ok(old(m)@.flash, old(self).file(old(m)@)) ==> if offs <= contents(
                old(m)@.flash,
                old(self).file(old(m)@),
            ).len() {
                r == Ok::<(), ReadError>(()) && reader_at(
                    old(m)@.flash,
                    old(self).file(old(m)@),
                    final(self)@,
                    offs as int,
                )
            } else {
                r == Err::<(), ReadError>(ReadError::Eof) && final(self)@ == old(self)@
            },
    {
        proof {
            if file_ok(m@.flash, self.file(m@)) {
                law_seek(m@.flash, self.file(m@), self@, offs as int);
            }
        }
        let f: FileState = m.files[self.file_id as usize];
        assert(m@.files[self.file_id as int] == f@);
        let new_seq: SeqNum = match f.first_seq.add(offs) {
            Ok(s) => s,
            Err(e) => {
                return Err(ReadError::Eof);
            },
        };
        if new_seq.0 > f.last_seq.0 {
            return Err(ReadError::Eof);
        }
        match self.seek_seq(m, new_seq) {
            Ok(_) => Ok(()),
            Err(e) => Err(ReadError::Corrupted),
        }
    }
}

} // verus!
