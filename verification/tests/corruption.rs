use ekv::file::{FileManager, WriteError};
use ekv::flash::MemFlash;
use ekv::headers::{
    DataHeader, FileMeta, MetaHeader, NO_BOUNDARY, PAGE_MAX_PAYLOAD_SIZE,
};
use ekv::page::{PageManager, ReadError};
use ekv::searcher::{FileSearcher, SearchSeekError, SeekDirection};
use ekv::seqnum::SeqNum;
use ekv::types::{OptionPageID, PageID};
use ekv::{Error, ReadKeyError};

fn page(p: u16) -> PageID {
    PageID::from_raw(p).unwrap()
}

fn entry(file_id: u8, last: u16, first: u32) -> Vec<u8> {
    FileMeta {
        file_id,
        last_page_id: OptionPageID { raw: last },
        first_seq: SeqNum(first),
    }
    .to_bytes()
}

fn write_meta(f: &mut MemFlash, p: u16, seq: u32, entries: &[u8]) {
    let mut w = PageManager {}.write::<MetaHeader>(page(p));
    assert_eq!(w.write(entries), entries.len());
    w.write_header(f, MetaHeader { seq: SeqNum(seq) });
    w.commit(f);
}

fn write_data(f: &mut MemFlash, p: u16, seq: u32, prev: u16, data: &[u8]) {
    let mut w = PageManager {}.write::<DataHeader>(page(p));
    assert_eq!(w.write(data), data.len());
    let header = DataHeader {
        seq: SeqNum(seq),
        skiplist: [OptionPageID { raw: prev }; 5],
        record_boundary: 0,
    };
    w.write_header(f, header);
    w.commit(f);
}

fn mount(f: &mut MemFlash) -> Result<(), Error> {
    FileManager::new(f).mount()
}

#[test]
fn a_device_without_meta_page_is_corrupted() {
    let mut f = MemFlash::new();
    assert_eq!(mount(&mut f), Err(Error::Corrupted));
    // Sequence number 0 does not count.
    write_meta(&mut f, 3, 0, &[]);
    assert_eq!(mount(&mut f), Err(Error::Corrupted));
    write_meta(&mut f, 3, 1, &[]);
    assert_eq!(mount(&mut f), Ok(()));
}

#[test]
fn the_latest_meta_page_counts() {
    let mut f = MemFlash::new();
    write_data(&mut f, 10, 0, 0xffff, &[1]);
    write_data(&mut f, 11, 0, 0xffff, &[2]);
    write_meta(&mut f, 3, 5, &entry(0, 10, 0));
    write_meta(&mut f, 4, 7, &entry(0, 11, 0));
    write_meta(&mut f, 5, 6, &[]);
    let mut m = FileManager::new(&mut f);
    m.mount().unwrap();
    assert_eq!(m.meta_page_id, page(4));
    assert_eq!(m.meta_seq.0, 7);
    let mut buf = [0];
    m.read(0).read(&mut m, &mut buf).unwrap();
    assert_eq!(buf, [2]);
}

#[test]
fn later_entries_override_earlier_ones() {
    let mut f = MemFlash::new();
    write_data(&mut f, 10, 0, 0xffff, &[1, 2, 3]);
    write_meta(&mut f, 0, 1, &[entry(0, 10, 0), entry(0, 10, 2)].concat());
    let mut m = FileManager::new(&mut f);
    m.mount().unwrap();
    let mut buf = [0];
    m.read(0).read(&mut m, &mut buf).unwrap();
    assert_eq!(buf, [3]);
}

#[test]
fn entries_that_make_no_sense_are_corruption() {
    for bad in [
        // No such file.
        entry(7, 0xffff, 0),
        entry(255, 0xffff, 0),
        // No such page.
        entry(0, 256, 0),
        entry(0, 0xfffe, 0),
        // An empty file starts at 0.
        entry(0, 0xffff, 1),
        // Not a data page.
        entry(0, 9, 0),
        // No byte is left.
        entry(0, 10, 3),
        entry(0, 10, 4),
        // An incomplete entry.
        entry(0, 10, 0)[..7].to_vec(),
    ] {
        let mut f = MemFlash::new();
        write_data(&mut f, 10, 0, 0xffff, &[1, 2, 3]);
        write_meta(&mut f, 0, 1, &bad);
        assert_eq!(mount(&mut f), Err(Error::Corrupted), "{:?}", bad);
    }
}

#[test]
fn a_page_cannot_belong_to_two_files() {
    let mut f = MemFlash::new();
    write_data(&mut f, 10, 0, 0xffff, &[1; 100]);
    write_data(&mut f, 11, 100, 10, &[2; 100]);
    write_data(&mut f, 12, 100, 10, &[3; 100]);
    write_meta(&mut f, 0, 1, &[entry(0, 11, 0), entry(1, 12, 0)].concat());
    assert_eq!(mount(&mut f), Err(Error::Corrupted));
    // The second file does not reach back that far.
    write_meta(&mut f, 0, 1, &[entry(0, 11, 0), entry(1, 12, 100)].concat());
    assert_eq!(mount(&mut f), Ok(()));
}

#[test]
fn back_pointers_have_to_lead_back() {
    // To a page that starts no earlier, to a page that does not exist, and to no data page.
    for prev in [11, 12, 300, 13] {
        let mut f = MemFlash::new();
        write_data(&mut f, 11, 100, prev, &[2; 100]);
        write_data(&mut f, 12, 100, 0xffff, &[2; 100]);
        write_meta(&mut f, 0, 1, &entry(0, 11, 0));
        assert_eq!(mount(&mut f), Err(Error::Corrupted));
    }
}

#[test]
fn sequence_numbers_of_a_page_have_to_exist() {
    let mut f = MemFlash::new();
    write_data(&mut f, 11, u32::MAX - 99, 0xffff, &[2; 100]);
    write_meta(&mut f, 0, 1, &entry(0, 11, u32::MAX - 1));
    assert_eq!(mount(&mut f), Err(Error::Corrupted));
    write_data(&mut f, 11, u32::MAX - 100, 0xffff, &[2; 100]);
    assert_eq!(mount(&mut f), Ok(()));
    let mut m = FileManager::new(&mut f);
    m.mount().unwrap();
    // There is no sequence number for one more byte.
    let mut w = m.write(0);
    w.write(&mut m, &[1]).unwrap();
    assert_eq!(m.commit(&mut w), Err(Error::Corrupted));
}

#[test]
fn a_hole_in_a_file_is_corruption() {
    let mut f = MemFlash::new();
    write_data(&mut f, 10, 0, 0xffff, &[1; 99]);
    write_data(&mut f, 11, 100, 10, &[2; 100]);
    write_meta(&mut f, 0, 1, &entry(0, 11, 0));
    let mut m = FileManager::new(&mut f);
    m.mount().unwrap();
    let mut r = m.read(0);
    let mut buf = [0; 100];
    assert_eq!(r.read(&mut m, &mut buf), Err(ReadError::Corrupted));
    assert_eq!(buf[..99], [1; 99]);
    let mut r = m.read(0);
    assert_eq!(r.seek(&mut m, 99), Err(ReadError::Corrupted));
    assert_eq!(r.seek(&mut m, 98), Ok(()));
}

#[test]
fn a_damaged_chunk_is_corruption() {
    let mut f = MemFlash::new();
    let mut m = FileManager::new(&mut f);
    m.format();
    m.mount().unwrap();
    let mut w = m.write(0);
    w.write(&mut m, &[1; 1000]).unwrap();
    m.commit(&mut w).unwrap();
    m.flash.pages[2][20] ^= 1;
    let mut r = m.read(0);
    let mut buf = [0; 1000];
    assert_eq!(r.read(&mut m, &mut buf), Err(ReadError::Corrupted));
    assert_eq!(buf[..PAGE_MAX_PAYLOAD_SIZE], [1; PAGE_MAX_PAYLOAD_SIZE]);
    assert_eq!(buf[PAGE_MAX_PAYLOAD_SIZE], 0);
}

#[test]
fn a_truncation_that_fails_ends_the_commit() {
    let mut f = MemFlash::new();
    let mut m = FileManager::new(&mut f);
    m.format();
    m.mount().unwrap();
    for file_id in 0..2 {
        let mut w = m.write(file_id);
        w.write(&mut m, &[file_id; 3 * PAGE_MAX_PAYLOAD_SIZE]).unwrap();
        m.commit(&mut w).unwrap();
    }
    m.flash.pages[2][0] ^= 1;
    let before = (m.files[1].first_seq, m.files[1].last_seq);
    let r = m.commit_and_truncate(None, &[(0, 2 * PAGE_MAX_PAYLOAD_SIZE), (1, 10)]);
    assert_eq!(r, Err(Error::Corrupted));
    assert_eq!((m.files[1].first_seq, m.files[1].last_seq), before);
}

#[test]
fn a_damaged_meta_page_makes_commits_fail() {
    let mut f = MemFlash::new();
    let mut m = FileManager::new(&mut f);
    m.format();
    m.mount().unwrap();
    m.flash.pages[0][0] ^= 1;
    let mut w = m.write(0);
    w.write(&mut m, &[1]).unwrap();
    assert_eq!(m.commit(&mut w), Err(Error::Corrupted));
    assert_eq!(m.rename(0, 1), Err(Error::Corrupted));
}

#[test]
fn a_search_reports_corruption() {
    let mut f = MemFlash::new();
    let mut m = FileManager::new(&mut f);
    m.format();
    m.mount().unwrap();
    let mut w = m.write(0);
    for _ in 0..10 {
        w.write(&mut m, &[1; 100]).unwrap();
        w.record_end();
    }
    m.commit(&mut w).unwrap();
    let mut s = FileSearcher::new(m.read(0));
    assert_eq!(s.start(&mut m), Ok(true));
    m.flash.pages[1][0] ^= 1;
    m.flash.pages[2][0] ^= 1;
    m.flash.pages[3][0] ^= 1;
    assert_eq!(s.seek(&mut m, SeekDirection::Left), Err(Error::Corrupted));
}

#[test]
fn errors_turn_into_errors() {
    assert_eq!(ReadError::from(Error::Corrupted), ReadError::Corrupted);
    assert_eq!(WriteError::from(Error::Corrupted), WriteError::Corrupted);
    assert_eq!(SearchSeekError::from(Error::Corrupted), SearchSeekError::Corrupted);
    assert_eq!(ReadKeyError::from(Error::Corrupted), ReadKeyError::Corrupted);
    assert_eq!(ReadKeyError::from(ReadError::Corrupted), ReadKeyError::Corrupted);
    assert_eq!(ReadKeyError::from(ReadError::Eof), ReadKeyError::Corrupted);
    assert_ne!(WriteError::Full, WriteError::Corrupted);
    assert_ne!(SearchSeekError::TooMuchLeft, SearchSeekError::Corrupted);
    assert_ne!(ReadKeyError::BufferTooSmall, ReadKeyError::Corrupted);
}

#[test]
fn a_page_without_boundary_says_so() {
    assert_eq!(NO_BOUNDARY, u16::MAX);
}
