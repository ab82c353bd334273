//! Searching through the records of a file.
//!
//! A search narrows down a range of sequence numbers. Each step goes to a page in the range that
//! has a record boundary and puts the reader at that boundary. The caller looks at the record
//! there and says on which side of it the search is to go on.

use vstd::prelude::*;

use crate::chain::file_run;
use crate::config::{PAGE_COUNT, SKIPLIST_LEN};
use crate::file::{FileManager, FileState};
use crate::flash::Flash;
use crate::headers::{
    data_header, data_payload, lemma_data_payload_len, skip_model, DataHeader, DataModel,
    NO_BOUNDARY,
};
use crate::page::PageReader;
use crate::reader::{FileReader, ReaderModel, ReaderState, ReaderStateReading};
use crate::search_again::{law_search_start_any, unset};
use crate::search_laws::{
    bound_page_in, brackets, found, law_search_start, law_search_step, more_on_left, on_side,
    resting, searchable, searched, toward,
};
use crate::seqnum::{
    lemma_skip_index, lemma_skip_target, skip_index, skip_target, skiplist_index, skiplist_seq,
    SeqNum,
};
use crate::store::FileModel;
use crate::types::{OptionPageID, PageID, NO_PAGE};
use crate::writer::next_skiplist;
use crate::Error;

verus! {

/// Where to go on from the current record.
#[derive(Clone, Copy, PartialEq, Eq, Structural, Debug)]
pub enum SeekDirection {
    Left,
    Right,
}

/// Failure of one attempt to find a record boundary.
#[derive(Clone, Copy, PartialEq, Eq, Structural, Debug)]
pub enum SearchSeekError {
    TooMuchLeft,
    Corrupted,
}

impl From<Error> for SearchSeekError {
    fn from(e: Error) -> (r: SearchSeekError) {
        match e {
            Error::Corrupted => SearchSeekError::Corrupted,
        }
    }
}

impl vstd::std_specs::convert::FromSpecImpl<Error> for SearchSeekError {
    open spec fn obeys_from_spec() -> bool {
        true
    }

    open spec fn from_spec(e: Error) -> SearchSeekError {
        SearchSeekError::Corrupted
    }
}

/// A search as a mathematical value.
#[verifier::ext_equal]
pub struct SearchModel {
    pub reader: ReaderModel,
    /// The range that is left: pages that start in `left..right`.
    pub left: u32,
    pub left_page: u16,
    pub right: u32,
    pub right_skiplist: Seq<u16>,
    /// The page that the reader is on, and the sequence number that it was found by.
    pub curr_low: u32,
    pub curr_high: u32,
    pub curr_page: u16,
    pub curr_skiplist: Seq<u16>,
}

/// How the walk back to a record boundary ends.
pub enum WalkEnd {
    Found { page: u16, header: DataModel },
    TooMuchLeft,
    Corrupted,
}

/// More pages than a walk can visit without going in circles.
pub const WALK_LIMIT: usize = PAGE_COUNT + 1;

/// Walks back from a page to the first page that has a record boundary. Gives up at a page that
/// starts before `limit`. Also says which page is the first page of the file, if it was visited.
/// `None` if the walk does not end within `fuel` pages.
pub open spec fn walk_back(
    fl: Seq<Seq<u8>>,
    left_page: u16,
    page: u16,
    limit: Option<u32>,
    fuel: int,
) -> Option<(u16, WalkEnd)>
    decreases fuel,
{
    if fuel <= 0 {
        None
    } else if page >= PAGE_COUNT {
        Some((left_page, WalkEnd::Corrupted))
    } else {
        match (data_header(fl[page as int]), data_payload(fl[page as int])) {
            (Some(h), Some(b)) => {
                let first = h.skiplist[0] == NO_PAGE;
                let left_page = if first {
                    page
                } else {
                    left_page
                };
                if limit is Some && h.seq < limit->0 {
                    Some((left_page, WalkEnd::TooMuchLeft))
                } else if h.record_boundary != NO_BOUNDARY {
                    Some((left_page, WalkEnd::Found { page, header: h }))
                } else if first {
                    Some((left_page, WalkEnd::Corrupted))
                } else {
                    walk_back(fl, left_page, h.skiplist[0], limit, fuel - 1)
                }
            },
            _ => Some((left_page, WalkEnd::Corrupted)),
        }
    }
}

/// Puts the reader at the record boundary that a walk back from a page finds.
pub open spec fn seek_page(fl: Seq<Seq<u8>>, s: SearchModel, page: u16, limit: Option<u32>) -> (
    SearchModel,
    Result<(), SearchSeekError>,
) {
    match walk_back(fl, s.left_page, page, limit, WALK_LIMIT as int) {
        None => (s, Err(SearchSeekError::Corrupted)),
        Some((left_page, end)) => {
            let s1 = SearchModel { left_page, ..s };
            match end {
                WalkEnd::TooMuchLeft => (s1, Err(SearchSeekError::TooMuchLeft)),
                WalkEnd::Corrupted => (s1, Err(SearchSeekError::Corrupted)),
                WalkEnd::Found { page, header } => {
                    let b = header.record_boundary;
                    if b > data_payload(fl[page as int])->0.len() {
                        (s1, Err(SearchSeekError::Corrupted))
                    } else {
                        (
                            SearchModel {
                                reader: ReaderModel::Reading {
                                    seq: (header.seq + b) as u32,
                                    page,
                                    pos: b as int,
                                },
                                curr_low: header.seq,
                                curr_page: page,
                                curr_skiplist: header.skiplist,
                                ..s1
                            },
                            Ok(()),
                        )
                    }
                },
            }
        },
    }
}

/// Whether `seek_page` comes to an end, and the record boundary it finds has a sequence number.
pub open spec fn seek_page_ready(
    fl: Seq<Seq<u8>>,
    left_page: u16,
    page: u16,
    limit: Option<u32>,
) -> bool {
    match walk_back(fl, left_page, page, limit, WALK_LIMIT as int) {
        None => false,
        Some((_, WalkEnd::Found { page, header })) => header.record_boundary
            <= data_payload(fl[page as int])->0.len() ==> header.seq + header.record_boundary
            <= u32::MAX,
        _ => true,
    }
}

/// Whether back pointer `i` from the right end leads into the range.
pub open spec fn worth_trying(s: SearchModel, i: int) -> bool {
    s.right > s.left && s.right_skiplist[i] != NO_PAGE && skip_target(s.right, i) >= s.left
}

/// Tries back pointer `i`: the search after it, and the outcome if that settles the matter.
pub open spec fn try_pointer(fl: Seq<Seq<u8>>, s: SearchModel, i: int) -> (
    SearchModel,
    Option<Result<bool, Error>>,
) {
    if worth_trying(s, i) {
        let seq = skip_target(s.right, i) as u32;
        let (s1, r) = seek_page(
            fl,
            SearchModel { curr_high: seq, ..s },
            s.right_skiplist[i],
            Some(s.left),
        );
        match r {
            Ok(_) => (s1, Some(Ok(true))),
            Err(SearchSeekError::Corrupted) => (s1, Some(Err(Error::Corrupted))),
            Err(SearchSeekError::TooMuchLeft) => (
                SearchModel { left: (seq + 1) as u32, ..s1 },
                None,
            ),
        }
    } else {
        (s, None)
    }
}

/// Goes to a page in the range that has a record boundary, trying back pointer `i` first, and
/// then lower ones. If there is no such page, goes back to the left end.
pub open spec fn search_from(fl: Seq<Seq<u8>>, s: SearchModel, i: int) -> (
    SearchModel,
    Result<bool, Error>,
)
    decreases i,
{
    let (s1, r) = try_pointer(fl, s, i);
    match r {
        Some(r) => (s1, r),
        None => if i <= 0 {
            let (s2, r2) = seek_page(fl, s1, s1.left_page, None);
            (
                s2,
                match r2 {
                    Ok(_) => Ok(false),
                    Err(_) => Err(Error::Corrupted),
                },
            )
        } else {
            search_from(fl, s1, i - 1)
        },
    }
}

/// Whether `search_from` can go through with every step, and has a left end to go back to.
pub open spec fn search_ready(fl: Seq<Seq<u8>>, s: SearchModel, i: int) -> bool
    decreases i,
{
    let (s1, r) = try_pointer(fl, s, i);
    &&& worth_trying(s, i) ==> seek_page_ready(
        fl,
        s.left_page,
        s.right_skiplist[i],
        Some(s.left),
    )
    &&& r is None ==> if i <= 0 {
        s1.left_page != NO_PAGE && seek_page_ready(fl, s1.left_page, s1.left_page, None)
    } else {
        search_ready(fl, s1, i - 1)
    }
}

/// The back pointer to try first.
pub open spec fn first_pointer(s: SearchModel) -> int {
    if s.left + 1 >= s.right {
        0
    } else {
        skip_index((s.left + 1) as u32, s.right)
    }
}

pub open spec fn search(fl: Seq<Seq<u8>>, s: SearchModel) -> (SearchModel, Result<bool, Error>) {
    search_from(fl, s, first_pointer(s))
}

pub open spec fn ready_to_search(fl: Seq<Seq<u8>>, s: SearchModel) -> bool {
    s.left < u32::MAX && search_ready(fl, s, first_pointer(s))
}

/// A search over a whole file.
pub open spec fn whole_range(s: SearchModel, f: FileModel) -> SearchModel {
    SearchModel { left: f.first, right: f.end, ..s }
}

/// A search over a whole file, with the back pointers from its end.
pub open spec fn from_end(s: SearchModel, f: FileModel) -> SearchModel {
    SearchModel { right_skiplist: next_skiplist(f.last, f.end), ..whole_range(s, f) }
}

/// Begins a search.
pub open spec fn start_search(fl: Seq<Seq<u8>>, s: SearchModel, f: FileModel) -> (
    SearchModel,
    Result<bool, Error>,
) {
    match f.last {
        None => (whole_range(s, f), Ok(false)),
        Some(pp) => if f.end <= pp.header.seq {
            (whole_range(s, f), Err(Error::Corrupted))
        } else {
            search(fl, from_end(s, f))
        },
    }
}

/// Whether a search can begin.
pub open spec fn start_ready(fl: Seq<Seq<u8>>, s: SearchModel, f: FileModel) -> bool {
    f.last matches Some(pp) ==> f.end > pp.header.seq ==> ready_to_search(fl, from_end(s, f))
}

/// Narrows the range down to what is on one side of the current page.
pub open spec fn narrowed(s: SearchModel, dir: SeekDirection) -> SearchModel {
    match dir {
        SeekDirection::Left => SearchModel {
            right: s.curr_low,
            right_skiplist: s.curr_skiplist,
            ..s
        },
        SeekDirection::Right => SearchModel {
            left: (s.curr_high + 1) as u32,
            left_page: s.curr_page,
            ..s
        },
    }
}

/// Searches a file.
pub struct FileSearcher {
    pub r: FileReader,
    pub left: SeqNum,
    pub left_page: OptionPageID,
    pub right: SeqNum,
    pub right_skiplist: [OptionPageID; SKIPLIST_LEN],
    pub curr_low: SeqNum,
    pub curr_high: SeqNum,
    pub curr_page: OptionPageID,
    pub curr_skiplist: [OptionPageID; SKIPLIST_LEN],
}

impl View for FileSearcher {
    type V = SearchModel;

    open spec fn view(&self) -> SearchModel {
        SearchModel {
            reader: self.r@,
            left: self.left.0,
            left_page: self.left_page.raw,
            right: self.right.0,
            right_skiplist: skip_model(self.right_skiplist),
            curr_low: self.curr_low.0,
            curr_high: self.curr_high.0,
            curr_page: self.curr_page.raw,
            curr_skiplist: skip_model(self.curr_skiplist),
        }
    }
}

/// A search that has not begun.
pub open spec fn new_search(r: ReaderModel) -> SearchModel {
    SearchModel {
        reader: r,
        left: u32::MAX,
        left_page: NO_PAGE,
        right: u32::MAX,
        right_skiplist: Seq::new(SKIPLIST_LEN as nat, |i: int| NO_PAGE),
        curr_low: u32::MAX,
        curr_high: u32::MAX,
        curr_page: NO_PAGE,
        curr_skiplist: Seq::new(SKIPLIST_LEN as nat, |i: int| NO_PAGE),
    }
}

impl FileSearcher {
    pub open spec fn wf(self) -> bool {
        self.r.wf()
    }

    /// A search with the given reader.
    pub fn new(r: FileReader) -> (s: FileSearcher)
        ensures
            s.r == r,
            s@ == new_search(r@),
    {
        let s = FileSearcher {
            r,
            left: SeqNum(0xffff_ffff),
            left_page: OptionPageID::none(),
            right: SeqNum(0xffff_ffff),
            right_skiplist: [OptionPageID::none(); SKIPLIST_LEN],
            curr_low: SeqNum(0xffff_ffff),
            curr_high: SeqNum(0xffff_ffff),
            curr_page: OptionPageID::none(),
            curr_skiplist: [OptionPageID::none(); SKIPLIST_LEN],
        };
        assert(s@ =~= new_search(r@));
        s
    }

    /// The reader. It is at the start of a record after each step of the search.
    pub fn reader(&mut self) -> (r: &mut FileReader)
        ensures
            *r == old(self).r,
            *final(self) == (FileSearcher { r: *final(r), ..*old(self) }),
    {
        &mut self.r
    }

    /// Puts the reader at the record boundary that a walk back from a page finds.
    fn seek_to_page<F: Flash>(
        &mut self,
        m: &mut FileManager<F>,
        page_id: PageID,
        left_limit: Option<SeqNum>,
    ) -> (r: Result<(), SearchSeekError>)
        requires
            old(self).wf(),
            old(m)@.wf(),
            seek_page_ready(
                old(m)@.flash,
                old(self)@.left_page,
                page_id.raw,
                match left_limit {
                    Some(l) => Some(l.0),
                    None => None,
                },
            ),
        ensures
            final(m)@ == old(m)@,
            final(self).wf(),
            final(self).r.file_id == old(self).r.file_id,
            (final(self)@, r) == seek_page(
                old(m)@.flash,
                old(self)@,
                page_id.raw,
                match left_limit {
                    Some(l) => Some(l.0),
                    None => None,
                },
            ),
    {
        let ghost fl = m@.flash;
        let ghost limit: Option<u32> = match left_limit {
            Some(l) => Some(l.0),
            None => None,
        };
        let ghost goal = walk_back(fl, self@.left_page, page_id.raw, limit, WALK_LIMIT as int);
        let ghost mut fuel: int = WALK_LIMIT as int;
        let mut cur: PageID = page_id;
        loop
            invariant
                m@ == old(m)@,
                m@.wf(),
                fl == m@.flash,
                self@ == (SearchModel { left_page: self@.left_page, ..old(self)@ }),
                self.r == old(self).r,
                goal is Some,
                goal == walk_back(fl, self@.left_page, cur.raw, limit, fuel),
                self.r.wf(),
                goal matches Some((_, WalkEnd::Found { page, header })) ==> header.record_boundary
                    <= data_payload(fl[page as int])->0.len() ==> header.seq
                    + header.record_boundary <= u32::MAX,
                goal == walk_back(
                    fl,
                    old(self)@.left_page,
                    page_id.raw,
                    limit,
                    WALK_LIMIT as int,
                ),
                limit == (match left_limit {
                    Some(l) => Some(l.0),
                    None => None,
                }),
            decreases fuel,
        {
            if cur.index() >= PAGE_COUNT {
                return Err(SearchSeekError::Corrupted);
            }
            let (h, r): (DataHeader, PageReader) = match m.read_data_page(cur) {
                Ok(x) => x,
                Err(e) => {
                    return Err(SearchSeekError::Corrupted);
                },
            };
            if h.skiplist[0].is_none() {
                self.left_page = OptionPageID::some(cur);
            }
            if let Some(left_limit) = left_limit {
                if h.seq.0 < left_limit.0 {
                    return Err(SearchSeekError::TooMuchLeft);
                }
            }
            if h.record_boundary != NO_BOUNDARY {
                // seek to record start.
                let b: usize = h.record_boundary as usize;
                proof {
                    lemma_data_payload_len(fl[cur.raw as int]);
                }
                let mut r: PageReader = r;
                let n: usize = match r.skip(&mut m.flash, b) {
                    Ok(n) => n,
                    Err(e) => {
                        return Err(SearchSeekError::Corrupted);
                    },
                };
                assert(m@ =~= old(m)@);
                if n != b {
                    return Err(SearchSeekError::Corrupted);
                }
                self.r.state = ReaderState::Reading(
                    ReaderStateReading { seq: SeqNum(h.seq.0 + b as u32), reader: r },
                );
                self.curr_low = h.seq;
                self.curr_skiplist = h.skiplist;
                self.curr_page = OptionPageID::some(cur);
                return Ok(());
            }
            // No record boundary within this page. Try the previous one.
            match h.skiplist[0].into_option() {
                Some(prev) => {
                    cur = prev;
                    proof {
                        fuel = fuel - 1;
                    }
                },
                None => {
                    return Err(SearchSeekError::Corrupted);
                },
            }
        }
    }

    /// Goes to a page in the range that has a record boundary. If there is none, goes back to the
    /// left end and returns false.
    fn really_seek<F: Flash>(&mut self, m: &mut FileManager<F>) -> (r: Result<bool, Error>)
        requires
            old(self).wf(),
            old(m)@.wf(),
            ready_to_search(old(m)@.flash, old(self)@),
        ensures
            final(m)@ == old(m)@,
            final(self).wf(),
            final(self).r.file_id == old(self).r.file_id,
            (final(self)@, r) == search(old(m)@.flash, old(self)@),
    {
        let ghost fl = m@.flash;
        let ghost goal = search(fl, self@);
        let left: u32 = self.left.0 + 1;
        let mut i: usize = if left >= self.right.0 {
            0
        } else {
            skiplist_index(SeqNum(left), self.right)
        };
        loop
            invariant
                m@ == old(m)@,
                m@.wf(),
                fl == m@.flash,
                self.wf(),
                self.r.file_id == old(self).r.file_id,
                i < SKIPLIST_LEN,
                goal == search(fl, old(self)@),
                goal == search_from(fl, self@, i as int),
                search_ready(fl, self@, i as int),
            decreases i,
        {
            let ghost before = self@;
            if self.right.0 > self.left.0 {
                if let Some(page_id) = self.right_skiplist[i].into_option() {
                    let seq: SeqNum = skiplist_seq(self.right, i);
                    proof {
                        lemma_skip_target(self.right.0, i as int);
                    }
                    if seq.0 >= self.left.0 {
                        assert(worth_trying(before, i as int));
                        self.curr_high = seq;
                        assert(self@ =~= (SearchModel { curr_high: seq.0, ..before }));
                        let limit: SeqNum = self.left;
                        match self.seek_to_page(m, page_id, Some(limit)) {
                            Ok(_) => {
                                return Ok(true);
                            },
                            Err(SearchSeekError::Corrupted) => {
                                return Err(Error::Corrupted);
                            },
                            Err(SearchSeekError::TooMuchLeft) => {
                                self.left = SeqNum(seq.0 + 1);
                            },
                        }
                    }
                }
            }
            assert((self@, None::<Result<bool, Error>>) == try_pointer(fl, before, i as int));
            if i == 0 {
                let page_id = PageID { raw: self.left_page.raw };
                return match self.seek_to_page(m, page_id, None) {
                    Ok(_) => Ok(false),
                    Err(_) => Err(Error::Corrupted),
                };
            }
            // Seek failed. Try again less hard.
            i -= 1;
        }
    }

    /// Starts the search: goes to the last page of the file that the skiplist suggests and that
    /// has a record boundary. Returns false if the file is empty.
    pub fn start<F: Flash>(&mut self, m: &mut FileManager<F>) -> (r: Result<bool, Error>)
        requires
            old(self).wf(),
            old(m)@.wf(),
            start_ready(old(m)@.flash, old(self)@, old(self).r.file(old(m)@)),
        ensures
            final(m)@ == old(m)@,
            final(self).wf(),
            final(self).r.file_id == old(self).r.file_id,
            (final(self)@, r) == start_search(
                old(m)@.flash,
                old(self)@,
                old(self).r.file(old(m)@),
            ),
            ({
                let f = old(self).r.file(old(m)@);
                searchable(old(m)@.flash, f) && f.end < u32::MAX && old(self)@.left_page
                    == NO_PAGE ==> {
                    &&& r == Ok::<bool, Error>(true)
                    &&& found(old(m)@.flash, f, final(self)@)
                    &&& forall|goal: int| #[trigger]
                        brackets(old(m)@.flash, f, final(self)@, goal)
                }
            }),
            ({
                let f = old(self).r.file(old(m)@);
                searchable(old(m)@.flash, f) && f.end < u32::MAX ==> {
                    &&& r == Ok::<bool, Error>(true)
                    &&& final(self)@.right == f.end
                    &&& final(self)@.left >= f.first
                    &&& file_run(old(m)@.flash, f)[0].header.seq == f.first
                        ==> final(self)@.left == f.first
                    &&& found(old(m)@.flash, f, final(self)@) || (final(self)@.left_page
                        == old(self)@.left_page && found(old(m)@.flash, f, unset(final(self)@)))
                }
            }),
    {
        proof {
            let f = self.r.file(m@);
            if searchable(m@.flash, f) && f.end < u32::MAX && self@.left_page == NO_PAGE {
                law_search_start(m@.flash, f, self@);
            }
            if searchable(m@.flash, f) && f.end < u32::MAX {
                law_search_start_any(m@.flash, f, self@);
            }
        }
        let f: FileState = m.files[self.r.file_id as usize];
        assert(m@.files[self.r.file_id as int] == f@);
        self.left = f.first_seq;
        self.right = f.last_seq;
        assert(self@ =~= whole_range(old(self)@, f@));
        match f.last_page {
            Some(pp) => {
                if f.last_seq.0 <= pp.header.seq.0 {
                    return Err(Error::Corrupted);
                }
                // Create skiplist.
                let top: usize = skiplist_index(pp.header.seq, f.last_seq);
                proof {
                    lemma_skip_index(pp.header.seq.0, f.last_seq.0);
                }
                self.right_skiplist = pp.header.skiplist;
                let mut j: usize = 0;
                while j <= top
                    invariant
                        j <= top + 1,
                        top < SKIPLIST_LEN,
                        *self == (FileSearcher {
                            left: f.first_seq,
                            right: f.last_seq,
                            right_skiplist: self.right_skiplist,
                            ..*old(self)
                        }),
                        forall|k: int|
                            0 <= k < SKIPLIST_LEN ==> (#[trigger] self.right_skiplist@[k]).raw == (
                            if k < j {
                                pp.page_id.raw
                            } else {
                                pp.header.skiplist@[k].raw
                            }),
                    decreases top + 1 - j,
                {
                    self.right_skiplist[j] = OptionPageID::some(pp.page_id);
                    j += 1;
                }
                assert(skip_model(self.right_skiplist) =~= next_skiplist(f@.last, f@.end));
                assert(self@ =~= from_end(old(self)@, f@));
                self.really_seek(m)
            },
            None => Ok(false),
        }
    }

    /// Goes on with the search on one side of the current record. Returns false if there is
    /// nothing left there.
    pub fn seek<F: Flash>(&mut self, m: &mut FileManager<F>, dir: SeekDirection) -> (r: Result<
        bool,
        Error,
    >)
        requires
            old(self).wf(),
            old(m)@.wf(),
            dir == SeekDirection::Right ==> old(self)@.curr_high < u32::MAX,
            ready_to_search(old(m)@.flash, narrowed(old(self)@, dir)),
        ensures
            final(m)@ == old(m)@,
            final(self).wf(),
            final(self).r.file_id == old(self).r.file_id,
            (final(self)@, r) == search(old(m)@.flash, narrowed(old(self)@, dir)),
            ({
                let f = old(self).r.file(old(m)@);
                searchable(old(m)@.flash, f) && f.end < u32::MAX && resting(
                    old(m)@.flash,
                    f,
                    old(self)@,
                ) && (dir == SeekDirection::Left ==> more_on_left(
                    old(m)@.flash,
                    f,
                    old(self)@,
                )) ==> {
                    &&& searched(old(m)@.flash, f, final(self)@, r)
                    &&& r == Ok::<bool, Error>(
                        bound_page_in(
                            file_run(old(m)@.flash, f),
                            narrowed(old(self)@, dir).left as int,
                            narrowed(old(self)@, dir).right as int,
                        ),
                    )
                    &&& final(self)@.right - final(self)@.left < old(self)@.right - old(self)@.left
                    &&& r == Ok::<bool, Error>(true) ==> on_side(
                        old(m)@.flash,
                        old(self)@,
                        final(self)@,
                        dir,
                    )
                    &&& forall|goal: int|
                        #![trigger brackets(old(m)@.flash, f, old(self)@, goal)]
                        brackets(old(m)@.flash, f, old(self)@, goal) && dir == toward(
                            old(self)@,
                            goal,
                        ) ==> brackets(old(m)@.flash, f, final(self)@, goal)
                }
            }),
    {
        proof {
            let f = self.r.file(m@);
            if searchable(m@.flash, f) && f.end < u32::MAX && resting(m@.flash, f, self@) && (dir
                == SeekDirection::Left ==> more_on_left(m@.flash, f, self@)) {
                law_search_step(m@.flash, f, self@, dir);
            }
        }
        match dir {
            SeekDirection::Left => {
                self.right = self.curr_low;
                self.right_skiplist = self.curr_skiplist;
            },
            SeekDirection::Right => {
                self.left = SeqNum(self.curr_high.0 + 1);
                self.left_page = self.curr_page;
            },
        }
        assert(self@ =~= narrowed(old(self)@, dir));
        self.really_seek(m)
    }
}

} // verus!
