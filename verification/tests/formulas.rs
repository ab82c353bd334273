use ekv::allocator::Allocator;
use ekv::bytes::{get16, get32, put16, put32};
use ekv::file::FileManager;
use ekv::flash::{Flash, MemFlash};
use ekv::headers::{
    DataHeader, FileMeta, MetaHeader, DATA_MAGIC, DATA_START, META_MAGIC, META_START,
    PAGE_MAX_PAYLOAD_SIZE,
};
use ekv::page::{Header, PageManager};
use ekv::searcher::{FileSearcher, SeekDirection};
use ekv::seqnum::{max_trailing_zeros_between, skiplist_index, skiplist_seq, SeqNum};
use ekv::types::{OptionPageID, PageID};
use ekv::Error;

fn page(p: u16) -> PageID {
    PageID::from_raw(p).unwrap()
}

#[test]
fn sequence_numbers_add_and_subtract() {
    assert_eq!(SeqNum(3).add(4), Ok(SeqNum(7)));
    assert_eq!(SeqNum(u32::MAX - 1).add(1), Ok(SeqNum(u32::MAX)));
    assert_eq!(SeqNum(u32::MAX).add(1), Err(Error::Corrupted));
    assert_eq!(SeqNum(0).add(u32::MAX as usize + 1), Err(Error::Corrupted));
    assert_eq!(SeqNum(7).sub(SeqNum(3)), 4);
    assert!(SeqNum(3) < SeqNum(4));
}

#[test]
fn trailing_zeros() {
    assert_eq!(max_trailing_zeros_between(0, 1), 32);
    assert_eq!(max_trailing_zeros_between(1, 2), 0);
    assert_eq!(max_trailing_zeros_between(1, 3), 1);
    assert_eq!(max_trailing_zeros_between(100, 200), 7);
    assert_eq!(max_trailing_zeros_between(512, 513), 9);
}

#[test]
fn skiplist_formulas() {
    assert_eq!(skiplist_index(SeqNum(0), SeqNum(1)), 4);
    assert_eq!(skiplist_index(SeqNum(1), SeqNum(512)), 0);
    assert_eq!(skiplist_index(SeqNum(1), SeqNum(513)), 1);
    assert_eq!(skiplist_index(SeqNum(1), SeqNum(1025)), 2);
    assert_eq!(skiplist_index(SeqNum(1), SeqNum(2049)), 3);
    assert_eq!(skiplist_index(SeqNum(1), SeqNum(4097)), 4);
    assert_eq!(skiplist_index(SeqNum(4096), SeqNum(100000)), 4);

    assert_eq!(skiplist_seq(SeqNum(1000), 0), SeqNum(999));
    assert_eq!(skiplist_seq(SeqNum(1000), 1), SeqNum(512));
    assert_eq!(skiplist_seq(SeqNum(1024), 1), SeqNum(512));
    assert_eq!(skiplist_seq(SeqNum(1025), 1), SeqNum(1024));
    assert_eq!(skiplist_seq(SeqNum(5000), 2), SeqNum(4096));
    assert_eq!(skiplist_seq(SeqNum(5000), 3), SeqNum(4096));
    assert_eq!(skiplist_seq(SeqNum(4096), 4), SeqNum(0));
    assert_eq!(skiplist_seq(SeqNum(u32::MAX), 23), SeqNum(1 << 31));
}

#[test]
fn the_skiplist_formulas_agree() {
    for left in (0..3000).step_by(37) {
        for right in (left + 1..left + 6000).step_by(53) {
            let top = skiplist_index(SeqNum(left), SeqNum(right));
            for i in 0..5 {
                let overshoots = skiplist_seq(SeqNum(right), i) < SeqNum(left);
                assert_eq!(i > top, overshoots, "{} {} {}", left, right, i);
            }
        }
    }
}

#[test]
fn numbers_are_stored_lowest_byte_first() {
    let mut v = vec![];
    put16(&mut v, 0x1234);
    put32(&mut v, 0x89abcdef);
    assert_eq!(v, [0x34, 0x12, 0xef, 0xcd, 0xab, 0x89]);
    assert_eq!(get16(&v, 0), 0x1234);
    assert_eq!(get32(&v, 2), 0x89abcdef);
}

#[test]
fn headers_read_back_as_written() {
    let h = DataHeader {
        seq: SeqNum(0x01020304),
        skiplist: [
            OptionPageID::some(page(1)),
            OptionPageID::none(),
            OptionPageID::some(page(255)),
            OptionPageID::none(),
            OptionPageID::some(page(7)),
        ],
        record_boundary: 77,
    };
    let b = h.to_bytes();
    assert_eq!(
        b,
        [4, 3, 2, 1, 1, 0, 255, 255, 255, 0, 255, 255, 7, 0, 77, 0]
    );
    assert_eq!(DataHeader::from_bytes(&b), h);

    let h = MetaHeader { seq: SeqNum(9) };
    assert_eq!(h.to_bytes(), [9, 0, 0, 0]);
    assert_eq!(MetaHeader::from_bytes(&h.to_bytes()), h);

    let m = FileMeta {
        file_id: 5,
        last_page_id: OptionPageID::some(page(3)),
        first_seq: SeqNum(0x0a0b0c0d),
    };
    assert_eq!(m.to_bytes().len(), 8);
    assert_eq!(FileMeta::from_bytes(&m.to_bytes()), m);
}

#[test]
fn a_data_page_on_the_device() {
    let mut f = MemFlash::new();
    let mut m = FileManager::new(&mut f);
    m.format();
    m.mount().unwrap();
    let mut w = m.write(0);
    w.write(&mut m, &[10, 20, 30]).unwrap();
    m.commit(&mut w).unwrap();
    let p = &m.flash.pages[1];
    assert_eq!(get32(p, 0), DATA_MAGIC);
    assert_eq!(get32(p, 4), 0);
    assert_eq!(get16(p, 18), 0);
    assert_eq!(p[DATA_START + 4..DATA_START + 7], [10, 20, 30]);
    assert_eq!(p[DATA_START + 7], 0xff);
    let p = &m.flash.pages[0];
    assert_eq!(get32(p, 0), META_MAGIC);
    assert_eq!(get32(p, 4), 1);
    assert_eq!(META_START, 8);
    assert_eq!(PAGE_MAX_PAYLOAD_SIZE, 232);
}

#[test]
fn chunks_of_a_page_follow_each_other() {
    let mut f = MemFlash::new();
    let pages = PageManager {};
    let mut w = pages.write::<MetaHeader>(page(5));
    assert_eq!(w.write(&[1, 2, 3]), 3);
    assert_eq!(w.len(), 3);
    w.write_header(&mut f, MetaHeader { seq: SeqNum(4) });
    w.commit(&mut f);
    let (h, mut w): (MetaHeader, _) = pages.write_append(&mut f, page(5)).unwrap();
    assert_eq!(h.seq, SeqNum(4));
    assert_eq!(w.write(&[4, 5]), 2);
    w.commit(&mut f);
    // A commit of nothing writes nothing.
    w.commit(&mut f);
    let (_, mut r): (MetaHeader, _) = pages.read(&mut f, page(5)).unwrap();
    let mut buf = [0; 4];
    assert_eq!(r.read(&mut f, &mut buf, 0), Ok(4));
    assert_eq!(buf, [1, 2, 3, 4]);
    assert_eq!(r.is_at_eof(&mut f), Ok(false));
    assert_eq!(r.skip(&mut f, 10), Ok(1));
    assert_eq!(r.is_at_eof(&mut f), Ok(true));
    let other: Result<DataHeader, Error> = pages.read_header(&mut f, page(5));
    assert_eq!(other, Err(Error::Corrupted));
}

#[test]
fn a_page_takes_no_more_than_fits() {
    let pages = PageManager {};
    let mut w = pages.write::<DataHeader>(page(5));
    assert_eq!(w.write(&[1; 200]), 200);
    assert_eq!(w.write(&[2; 100]), 32);
    assert_eq!(w.write(&[3; 1]), 0);
    assert_eq!(w.len(), PAGE_MAX_PAYLOAD_SIZE);
}

#[test]
fn the_allocator_takes_the_first_free_page() {
    let mut a = Allocator::new();
    assert_eq!(a.allocate(), page(0));
    assert_eq!(a.allocate(), page(1));
    a.mark_used(page(3));
    assert_eq!(a.allocate(), page(2));
    assert_eq!(a.allocate(), page(4));
    a.free(page(1));
    assert!(!a.is_used(page(1)));
    assert_eq!(a.allocate(), page(1));
    a.reset();
    assert_eq!(a.allocate(), page(0));
}

#[test]
fn page_numbers() {
    assert_eq!(PageID::from_raw(0xffff), None);
    assert_eq!(page(12).index(), 12);
    assert!(OptionPageID::none().is_none());
    assert_eq!(OptionPageID::none().into_option(), None);
    assert_eq!(OptionPageID::some(page(2)).into_option(), Some(page(2)));
}

#[test]
fn a_device_in_memory() {
    let mut f = MemFlash::new();
    f.write(page(3), 10, &[1, 2, 3]);
    let mut buf = [0; 5];
    f.read(page(3), 9, &mut buf);
    assert_eq!(buf, [0xff, 1, 2, 3, 0xff]);
    f.erase(page(3));
    f.read(page(3), 9, &mut buf);
    assert_eq!(buf, [0xff; 5]);
}

#[test]
fn a_record_that_ends_with_a_page_starts_the_next_one() {
    let mut f = MemFlash::new();
    let mut m = FileManager::new(&mut f);
    m.format();
    m.mount().unwrap();
    let mut w = m.write(0);
    w.write(&mut m, &[1; PAGE_MAX_PAYLOAD_SIZE]).unwrap();
    w.record_end();
    w.write(&mut m, &[2; 10]).unwrap();
    w.record_end();
    m.commit(&mut w).unwrap();
    let h: DataHeader = m.read_header(page(1)).unwrap();
    assert_eq!(h.record_boundary, 0);
    let h: DataHeader = m.read_header(page(2)).unwrap();
    assert_eq!(h.record_boundary, 0);
}

#[test]
fn a_search_finds_the_last_page_at_or_before_its_goal() {
    let mut f = MemFlash::new();
    let mut m = FileManager::new(&mut f);
    m.format();
    m.mount().unwrap();
    // Records of different lengths, some of them longer than a page.
    let mut w = m.write(0);
    let mut starts = vec![0u32];
    let mut end = 0;
    for i in 0..60usize {
        let len = (i * i * 37) % 600 + 1;
        w.write(&mut m, &vec![i as u8; len]).unwrap();
        w.record_end();
        end += len as u32;
        starts.push(end);
    }
    m.commit(&mut w).unwrap();
    // The first record start on each page.
    let mut marks = vec![];
    let mut p = 0;
    while p < end {
        let q = (p + PAGE_MAX_PAYLOAD_SIZE as u32).min(end);
        if let Some(s) = starts.iter().find(|&&s| p <= s && s < q) {
            marks.push((p, *s));
        }
        p = q;
    }
    for goal in (0..end).step_by(61) {
        let mut s = FileSearcher::new(m.read(0));
        let mut more = s.start(&mut m).unwrap();
        let mut steps = 0;
        while more {
            let dir = if s.curr_low.0 > goal {
                SeekDirection::Left
            } else {
                SeekDirection::Right
            };
            let range = s.right.0 - s.left.0;
            more = s.seek(&mut m, dir).unwrap();
            assert!(s.right.0 - s.left.0 < range);
            steps += 1;
        }
        assert!(steps < 40);
        let want = marks.iter().rev().find(|(p, _)| *p <= goal).unwrap();
        assert_eq!(s.curr_low.0, want.0);
        assert_eq!(s.reader().offset(&mut m) as u32, want.1);
    }
}

#[test]
fn a_search_for_a_key_reads_the_record_at_each_step() {
    let mut f = MemFlash::new();
    let mut m = FileManager::new(&mut f);
    m.format();
    m.mount().unwrap();
    // Records that start with their keys, in ascending order, some of them longer than a page.
    let mut w = m.write(0);
    let mut records = vec![];
    let mut end = 0;
    for i in 0..80usize {
        let key = 10 * i as u16 + 5;
        let len = (i * i * 41) % 700;
        w.write(&mut m, &key.to_be_bytes()).unwrap();
        w.write(&mut m, &vec![0xee; len]).unwrap();
        w.record_end();
        records.push((end, key));
        end += len + 2;
    }
    m.commit(&mut w).unwrap();
    // The first record on each page.
    let mut named = vec![];
    let mut pages = 0;
    for p in (0..end).step_by(PAGE_MAX_PAYLOAD_SIZE) {
        let q = p + PAGE_MAX_PAYLOAD_SIZE;
        named.extend(records.iter().find(|(o, _)| (p..q).contains(o)));
        pages += 1;
    }
    assert!(named.len() < pages);

    for want in (0..820).step_by(7) {
        let mut s = FileSearcher::new(m.read(0));
        let mut more = s.start(&mut m).unwrap();
        let mut times_found = 0;
        while more {
            times_found += 1;
            let offset = s.reader().offset(&mut m);
            let mut key = [0; 2];
            s.reader().read(&mut m, &mut key).unwrap();
            let key = u16::from_be_bytes(key);
            assert!(named.contains(&(offset, key)));
            let dir = if key >= want {
                SeekDirection::Left
            } else {
                SeekDirection::Right
            };
            more = s.seek(&mut m, dir).unwrap();
            if more {
                let next = s.reader().offset(&mut m);
                assert_eq!(next < offset, key >= want);
                assert_ne!(next, offset);
            }
        }
        assert!(times_found <= pages);
        let last_lower = named.iter().rev().find(|(_, key)| *key < want);
        assert_eq!(s.reader().offset(&mut m), last_lower.map_or(0, |(o, _)| *o));
    }
}

#[test]
fn a_search_finds_a_record_as_long_as_there_is_one_on_its_side() {
    let mut f = MemFlash::new();
    let mut m = FileManager::new(&mut f);
    m.format();
    m.mount().unwrap();
    let mut s = FileSearcher::new(m.read(0));
    assert_eq!(s.start(&mut m), Ok(false));

    let mut starts = vec![];
    let mut end = 0;
    for i in 0..50usize {
        let mut w = m.write(0);
        for j in 0..i % 4 {
            starts.push(end);
            let len = (i * 97 + j * 211) % 500 + 1;
            w.write(&mut m, &vec![i as u8; len]).unwrap();
            w.record_end();
            end += len as u32;
        }
        m.commit(&mut w).unwrap();
    }
    // The pages on which a record starts.
    let pages = m.dump_file(0).unwrap().pages;
    let mut marks = vec![];
    for p in &pages {
        let first = starts.iter().find(|&&s| p.seq.0 <= s && s < p.end.0);
        assert_eq!(p.record_boundary.map(|(_, s)| s.0), first.copied());
        marks.extend(first.map(|_| p.seq.0));
    }
    assert!(marks.len() > 20 && marks.len() < pages.len());
    for turns in 0..64 {
        let mut s = FileSearcher::new(m.read(0));
        assert_eq!(s.start(&mut m), Ok(true));
        for i in 0..6 {
            let right = turns >> i & 1 == 1;
            let range = if right {
                s.curr_high.0 + 1..s.right.0
            } else {
                s.left.0..s.curr_low.0
            };
            let dir = if right {
                SeekDirection::Right
            } else {
                SeekDirection::Left
            };
            let more = s.seek(&mut m, dir).unwrap();
            assert_eq!(more, marks.iter().any(|p| range.contains(p)));
            if !more {
                break;
            }
        }
    }
}

#[test]
fn what_is_read_between_the_steps_of_a_search_does_not_matter() {
    let mut f = MemFlash::new();
    let mut m = FileManager::new(&mut f);
    m.format();
    m.mount().unwrap();
    let mut w = m.write(0);
    for i in 0..100u8 {
        w.write(&mut m, &[i; 150]).unwrap();
        w.record_end();
    }
    m.commit(&mut w).unwrap();
    let turns = [
        SeekDirection::Right,
        SeekDirection::Right,
        SeekDirection::Left,
        SeekDirection::Right,
        SeekDirection::Left,
        SeekDirection::Left,
    ];
    let mut paths = vec![];
    for n in [0, 1, 149, 233, 2000, 20000] {
        let mut s = FileSearcher::new(m.read(0));
        let mut path = vec![(s.start(&mut m).unwrap(), s.reader().offset(&mut m))];
        for dir in turns {
            if !path.last().unwrap().0 {
                break;
            }
            let _ = s.reader().read(&mut m, &mut vec![0; n]);
            let more = s.seek(&mut m, dir).unwrap();
            path.push((more, s.reader().offset(&mut m)));
        }
        paths.push(path);
    }
    assert!(paths[0].len() > 3);
    assert!(paths.iter().all(|path| *path == paths[0]));
}

#[test]
fn record_boundaries_are_kept_in_a_truncated_file() {
    let mut f = MemFlash::new();
    let mut m = FileManager::new(&mut f);
    m.format();
    m.mount().unwrap();
    let mut w = m.write(0);
    for i in 0..10u8 {
        w.write(&mut m, &[i; 100]).unwrap();
        w.record_end();
    }
    m.commit(&mut w).unwrap();
    m.commit_and_truncate(None, &[(0, 550)]).unwrap();
    // The page with the bytes from 464 on is the first one that is left.
    assert!(!m.alloc.is_used(page(2)));
    let h: DataHeader = m.read_header(page(3)).unwrap();
    assert_eq!((h.seq, h.record_boundary), (SeqNum(464), 500 - 464));
    // A new writer starts a page, and with it a record.
    let mut w = m.write(0);
    w.write(&mut m, &[10; 250]).unwrap();
    w.record_end();
    w.write(&mut m, &[11; 7]).unwrap();
    w.record_end();
    m.commit(&mut w).unwrap();
    let h: DataHeader = m.read_header(page(1)).unwrap();
    assert_eq!((h.seq, h.record_boundary), (SeqNum(1000), 0));
    let h: DataHeader = m.read_header(page(2)).unwrap();
    assert_eq!((h.seq, h.record_boundary), (SeqNum(1232), 1250 - 1232));
}

#[test]
fn a_search_goes_right_in_a_truncated_file() {
    let mut f = MemFlash::new();
    let mut m = FileManager::new(&mut f);
    m.format();
    m.mount().unwrap();
    let mut w = m.write(0);
    for i in 0..40u8 {
        w.write(&mut m, &[i; 100]).unwrap();
        w.record_end();
    }
    m.commit(&mut w).unwrap();
    m.commit_and_truncate(None, &[(0, 1000)]).unwrap();
    let mut s = FileSearcher::new(m.read(0));
    let mut more = s.start(&mut m).unwrap();
    assert!(more);
    while more {
        more = s.seek(&mut m, SeekDirection::Right).unwrap();
    }
    // No record starts on the last page, which has the bytes from 3944 to 4000. On the page before
    // it, which starts at 3712, one starts at 3800.
    assert_eq!(s.curr_low, SeqNum(3712));
    assert_eq!(s.reader().offset(&mut m), 3800 - 1000);
    let mut s = FileSearcher::new(m.read(0));
    assert!(s.start(&mut m).unwrap());
    assert!(s.curr_low >= SeqNum(1000));
}

#[test]
fn the_device_of_a_manager() {
    let mut m = FileManager::new(MemFlash::new());
    m.flash_mut().pages[9][9] = 9;
    assert_eq!(m.flash.pages[9][9], 9);
    m.format();
    m.mount().unwrap();
    assert_eq!(m.flash_mut().pages[9][9], 9);
}
