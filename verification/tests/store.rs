use ekv::config::{FileID, FILE_COUNT, PAGE_COUNT};
use ekv::file::FileManager;
use ekv::flash::MemFlash;
use ekv::headers::PAGE_MAX_PAYLOAD_SIZE;
use ekv::page::ReadError;
use ekv::types::PageID;

fn page(p: u16) -> PageID {
    PageID::from_raw(p).unwrap()
}

fn sample(len: usize, salt: u8) -> Vec<u8> {
    (0..len).map(|i| (i as u8).wrapping_mul(7) ^ (i >> 8) as u8 ^ salt).collect()
}

fn fresh(f: &mut MemFlash) -> FileManager<&mut MemFlash> {
    let mut m = FileManager::new(f);
    m.format();
    m.mount().unwrap();
    m
}

fn used_pages(m: &FileManager<&mut MemFlash>) -> Vec<usize> {
    (0..PAGE_COUNT).filter(|&i| m.alloc.used[i]).collect()
}

fn append(m: &mut FileManager<&mut MemFlash>, file_id: FileID, data: &[u8]) {
    let mut w = m.write(file_id);
    w.write(m, data).unwrap();
    m.commit(&mut w).unwrap();
}

fn contents(m: &mut FileManager<&mut MemFlash>, file_id: FileID) -> Vec<u8> {
    let mut r = m.read(file_id);
    let mut res = Vec::new();
    let mut byte = [0];
    loop {
        match r.read(m, &mut byte) {
            Ok(()) => res.push(byte[0]),
            Err(e) => {
                assert_eq!(e, ReadError::Eof);
                return res;
            }
        }
    }
}

#[test]
fn format_leaves_nothing_but_the_meta_page() {
    let mut f = MemFlash::new();
    let mut m = fresh(&mut f);
    append(&mut m, 3, &sample(1000, 1));
    m.format();

    let mut m = fresh(&mut f);
    for file_id in 0..FILE_COUNT as FileID {
        assert!(m.is_empty(file_id));
        assert_eq!(contents(&mut m, file_id), []);
    }
    assert_eq!(used_pages(&m), [0]);
}

#[test]
fn files_hold_what_was_written_to_them() {
    let mut f = MemFlash::new();
    let mut m = fresh(&mut f);
    let a = sample(PAGE_MAX_PAYLOAD_SIZE * 3 + 5, 1);
    let b = sample(PAGE_MAX_PAYLOAD_SIZE, 2);
    append(&mut m, 0, &a);
    append(&mut m, 6, &b);
    append(&mut m, 0, &b);
    assert_eq!(contents(&mut m, 0), [a.clone(), b.clone()].concat());
    assert_eq!(contents(&mut m, 6), b);
    assert_eq!(contents(&mut m, 1), []);
    assert!(m.is_empty(1));
    assert!(!m.is_empty(6));
}

#[test]
fn a_read_past_the_end_gets_what_there_is() {
    let mut f = MemFlash::new();
    let mut m = fresh(&mut f);
    append(&mut m, 0, &[1, 2, 3]);
    let mut r = m.read(0);
    let mut buf = [9; 5];
    assert_eq!(r.read(&mut m, &mut buf), Err(ReadError::Eof));
    assert_eq!(buf, [1, 2, 3, 9, 9]);
    // The reader is finished. An empty read never fails.
    assert_eq!(r.read(&mut m, &mut buf), Err(ReadError::Eof));
    assert_eq!(buf, [1, 2, 3, 9, 9]);
    assert_eq!(r.read(&mut m, &mut []), Ok(()));

    let data = sample(500, 18);
    append(&mut m, 1, &data);
    let mut r = m.read(1);
    r.seek(&mut m, 200).unwrap();
    let mut buf = [9; 400];
    assert_eq!(r.read(&mut m, &mut buf), Err(ReadError::Eof));
    assert_eq!(buf[..300], data[200..]);
    assert_eq!(buf[300..], [9; 100]);
}

#[test]
fn reading_in_pieces_gives_the_same_bytes() {
    let mut f = MemFlash::new();
    let mut m = fresh(&mut f);
    let data = sample(1500, 3);
    append(&mut m, 2, &data);
    for cut in [0, 1, 231, 232, 233, 464, 1499, 1500] {
        let mut r = m.read(2);
        let mut one = vec![0; cut];
        let mut two = vec![0; data.len() - cut];
        r.read(&mut m, &mut one).unwrap();
        if cut < data.len() {
            assert_eq!(r.offset(&mut m), cut);
        }
        r.read(&mut m, &mut two).unwrap();
        assert_eq!([one, two].concat(), data);
    }
}

#[test]
fn seek_and_skip_reach_every_offset() {
    let mut f = MemFlash::new();
    let mut m = fresh(&mut f);
    let data = sample(700, 4);
    append(&mut m, 0, &data);
    m.commit_and_truncate(None, &[(0, 100)]).unwrap();
    let data = &data[100..];
    for off in 0..data.len() {
        let mut byte = [0];
        let mut r = m.read(0);
        r.seek(&mut m, off).unwrap();
        assert_eq!(r.offset(&mut m), off);
        r.read(&mut m, &mut byte).unwrap();
        assert_eq!(byte[0], data[off]);

        let mut r = m.read(0);
        r.skip(&mut m, off / 2).unwrap();
        r.skip(&mut m, off - off / 2).unwrap();
        assert_eq!(r.offset(&mut m), off);
        r.read(&mut m, &mut byte).unwrap();
        assert_eq!(byte[0], data[off]);
    }
    let mut r = m.read(0);
    r.seek(&mut m, data.len()).unwrap();
    assert_eq!(r.read(&mut m, &mut [0]), Err(ReadError::Eof));
    let mut r = m.read(0);
    assert_eq!(r.seek(&mut m, data.len() + 1), Err(ReadError::Eof));
    assert_eq!(r.seek(&mut m, usize::MAX), Err(ReadError::Eof));
    // A seek that fails leaves the reader where it was.
    assert_eq!(r.offset(&mut m), 0);
    assert_eq!(r.skip(&mut m, data.len() + 1), Err(ReadError::Eof));
    assert_eq!(r.skip(&mut m, usize::MAX), Err(ReadError::Eof));
}

#[test]
fn a_commit_survives_a_loss_of_power() {
    let mut f = MemFlash::new();
    let data = sample(2000, 5);
    {
        let mut m = fresh(&mut f);
        append(&mut m, 4, &data);
        m.commit_and_truncate(None, &[(4, 500)]).unwrap();
    }
    let mut m = FileManager::new(&mut f);
    m.mount().unwrap();
    assert_eq!(contents(&mut m, 4), &data[500..]);
}

#[test]
fn what_is_not_committed_is_lost_with_the_power() {
    let mut f = MemFlash::new();
    let used;
    {
        let mut m = fresh(&mut f);
        append(&mut m, 0, &[1, 2, 3]);
        used = used_pages(&m);
        let mut w = m.write(0);
        w.write(&mut m, &sample(1000, 6)).unwrap();
        assert_ne!(used_pages(&m), used);
        assert_eq!(contents(&mut m, 0), [1, 2, 3]);
    }
    let mut m = FileManager::new(&mut f);
    m.mount().unwrap();
    assert_eq!(contents(&mut m, 0), [1, 2, 3]);
    assert_eq!(used_pages(&m), used);
}

#[test]
fn a_writer_goes_on_after_a_commit() {
    let mut f = MemFlash::new();
    let mut m = fresh(&mut f);
    let mut w = m.write(1);
    w.write(&mut m, &[1, 2]).unwrap();
    m.commit(&mut w).unwrap();
    w.write(&mut m, &[3]).unwrap();
    m.commit(&mut w).unwrap();
    // Nothing has been written since.
    m.commit(&mut w).unwrap();
    assert_eq!(contents(&mut m, 1), [1, 2, 3]);
}

#[test]
fn writers_of_different_files_do_not_disturb_each_other() {
    let mut f = MemFlash::new();
    let mut m = fresh(&mut f);
    let a = sample(1200, 7);
    let b = sample(1300, 8);
    let mut wa = m.write(0);
    let mut wb = m.write(1);
    for (x, y) in a.chunks(100).zip(b.chunks(100)) {
        wa.write(&mut m, x).unwrap();
        wb.write(&mut m, y).unwrap();
    }
    wb.write(&mut m, &b[1200..]).unwrap();
    m.commit(&mut wa).unwrap();
    assert_eq!(contents(&mut m, 0), a);
    assert_eq!(contents(&mut m, 1), []);
    m.commit(&mut wb).unwrap();
    assert_eq!(contents(&mut m, 0), a);
    assert_eq!(contents(&mut m, 1), b);
}

#[test]
fn discarding_gives_back_the_pages() {
    let mut f = MemFlash::new();
    let mut m = fresh(&mut f);
    append(&mut m, 0, &sample(600, 9));
    let used = used_pages(&m);
    let mut w = m.write(0);
    w.write(&mut m, &sample(900, 10)).unwrap();
    assert_eq!(used_pages(&m).len(), used.len() + 4);
    w.discard(&mut m);
    assert_eq!(used_pages(&m), used);
    assert_eq!(contents(&mut m, 0), sample(600, 9));
}

#[test]
fn truncations_of_one_file_add_up() {
    let mut f = MemFlash::new();
    let mut m = fresh(&mut f);
    let data = sample(1000, 11);
    append(&mut m, 0, &data);
    append(&mut m, 1, &[7, 8, 9]);
    m.commit_and_truncate(None, &[(0, 300), (1, 1), (0, 200)]).unwrap();
    assert_eq!(contents(&mut m, 0), &data[500..]);
    assert_eq!(contents(&mut m, 1), [8, 9]);
    m.mount().unwrap();
    assert_eq!(contents(&mut m, 0), &data[500..]);
    assert_eq!(contents(&mut m, 1), [8, 9]);
}

#[test]
fn two_truncations_leave_what_one_of_the_sum_leaves() {
    let data = sample(1000, 19);
    for (a, b) in [(0, 0), (1, 231), (231, 1), (232, 232), (300, 400), (700, 300), (600, 900)] {
        let outcome = |cuts: &[usize]| {
            let mut f = MemFlash::new();
            let mut m = fresh(&mut f);
            append(&mut m, 0, &data);
            append(&mut m, 1, &[1]);
            for cut in cuts {
                m.commit_and_truncate(None, &[(0, *cut)]).unwrap();
            }
            let seqs = (m.files[0].first_seq, m.files[0].last_seq);
            let left = (contents(&mut m, 0), contents(&mut m, 1), used_pages(&m), seqs);
            m.mount().unwrap();
            assert_eq!((contents(&mut m, 0), used_pages(&m)), (left.0.clone(), left.2.clone()));
            left
        };
        assert_eq!(outcome(&[a, b]), outcome(&[a + b]));
        assert_eq!(outcome(&[a, 0]), outcome(&[a]));
        assert_eq!(outcome(&[a + b]).0, data[(a + b).min(1000)..]);
    }
}

#[test]
fn truncating_everything_deletes_the_file() {
    let mut f = MemFlash::new();
    let mut m = fresh(&mut f);
    append(&mut m, 0, &sample(1000, 12));
    m.commit_and_truncate(None, &[(0, 5000)]).unwrap();
    assert!(m.is_empty(0));
    assert_eq!(used_pages(&m), [0]);
    // The file starts anew.
    append(&mut m, 0, &[1]);
    assert_eq!(m.files[0].first_seq.0, 0);
    assert_eq!(m.files[0].last_seq.0, 1);
    assert_eq!(contents(&mut m, 0), [1]);
}

#[test]
fn truncating_gives_back_pages_without_remaining_bytes() {
    let mut f = MemFlash::new();
    let mut m = fresh(&mut f);
    append(&mut m, 0, &sample(PAGE_MAX_PAYLOAD_SIZE * 3, 13));
    assert_eq!(used_pages(&m), [0, 1, 2, 3]);
    m.commit_and_truncate(None, &[(0, PAGE_MAX_PAYLOAD_SIZE - 1)]).unwrap();
    assert_eq!(used_pages(&m), [0, 1, 2, 3]);
    m.commit_and_truncate(None, &[(0, 1)]).unwrap();
    assert_eq!(used_pages(&m), [0, 2, 3]);
    m.commit_and_truncate(None, &[(0, PAGE_MAX_PAYLOAD_SIZE + 1)]).unwrap();
    assert_eq!(used_pages(&m), [0, 3]);
}

#[test]
fn a_commit_can_append_and_truncate_the_same_file() {
    let mut f = MemFlash::new();
    let mut m = fresh(&mut f);
    append(&mut m, 0, &[1, 2, 3]);
    let mut w = m.write(0);
    w.write(&mut m, &[4, 5]).unwrap();
    m.commit_and_truncate(Some(&mut w), &[(0, 4)]).unwrap();
    assert_eq!(contents(&mut m, 0), [5]);
    m.mount().unwrap();
    assert_eq!(contents(&mut m, 0), [5]);
}

#[test]
fn renaming_exchanges_two_files_in_memory() {
    let mut f = MemFlash::new();
    let mut m = fresh(&mut f);
    append(&mut m, 0, &[1, 2]);
    append(&mut m, 1, &[3]);
    m.rename(0, 1).unwrap();
    assert_eq!(contents(&mut m, 0), [3]);
    assert_eq!(contents(&mut m, 1), [1, 2]);
    // No entry has been written.
    m.mount().unwrap();
    assert_eq!(contents(&mut m, 0), [1, 2]);
    assert_eq!(contents(&mut m, 1), [3]);
}

#[test]
fn a_full_meta_page_is_replaced() {
    let mut f = MemFlash::new();
    let mut m = fresh(&mut f);
    append(&mut m, 1, &[42]);
    let mut want = Vec::new();
    let mut moved = 0;
    for i in 0..100u8 {
        let before = m.meta_page_id;
        append(&mut m, 0, &[i]);
        want.push(i);
        if m.meta_page_id != before {
            moved += 1;
            assert!(!m.alloc.is_used(before));
            assert!(m.alloc.is_used(m.meta_page_id));
        }
    }
    // A page has room for 20 entries of 8 bytes with 4 bytes in front of each; a new page starts
    // with the entries of both files in one chunk.
    assert_eq!(moved, 5);
    assert_eq!(m.meta_seq.0, 6);
    assert_eq!(contents(&mut m, 0), want);
    m.mount().unwrap();
    assert_eq!(m.meta_seq.0, 6);
    assert_eq!(contents(&mut m, 0), want);
    assert_eq!(contents(&mut m, 1), [42]);
}

#[test]
fn there_is_room_for_as_many_pages_as_are_free() {
    let mut f = MemFlash::new();
    let mut m = fresh(&mut f);
    let data = sample(PAGE_MAX_PAYLOAD_SIZE * (PAGE_COUNT - 1), 14);
    append(&mut m, 0, &data);
    assert_eq!(used_pages(&m).len(), PAGE_COUNT);
    assert_eq!(contents(&mut m, 0), data);
    m.mount().unwrap();
    assert_eq!(used_pages(&m).len(), PAGE_COUNT);
    m.commit_and_truncate(None, &[(0, PAGE_MAX_PAYLOAD_SIZE)]).unwrap();
    assert_eq!(used_pages(&m).len(), PAGE_COUNT - 1);
    append(&mut m, 1, &[1]);
    assert_eq!(contents(&mut m, 1), [1]);
    assert_eq!(contents(&mut m, 0), &data[PAGE_MAX_PAYLOAD_SIZE..]);
}

fn remounted(m: &mut FileManager<&mut MemFlash>) -> (Vec<Vec<u8>>, Vec<usize>) {
    let mut f = MemFlash::new();
    f.pages = m.flash.pages.clone();
    let mut m = FileManager::new(&mut f);
    m.mount().unwrap();
    let files = (0..FILE_COUNT as FileID).map(|i| contents(&mut m, i)).collect();
    (files, used_pages(&m))
}

#[test]
fn a_mount_after_any_calls_finds_what_is_committed() {
    let mut f = MemFlash::new();
    let mut m = fresh(&mut f);
    let mut files = vec![vec![]; FILE_COUNT];
    // The pages that are in use when no writer has any.
    let mut used = vec![0];
    assert_eq!(remounted(&mut m), (files.clone(), used.clone()));

    let (a, b) = (sample(700, 20), sample(300, 21));
    let mut wa = m.write(0);
    let mut wb = m.write(1);
    wa.write(&mut m, &a).unwrap();
    wa.record_end();
    assert_eq!(used_pages(&m), [0, 1, 2, 3, 4]);
    assert_eq!(remounted(&mut m), (files.clone(), used.clone()));
    wb.write(&mut m, &b).unwrap();
    m.commit(&mut wa).unwrap();
    files[0] = a.clone();
    used = vec![0, 1, 2, 3, 4];
    assert_eq!(used_pages(&m), [0, 1, 2, 3, 4, 5, 6]);
    assert_eq!(remounted(&mut m), (files.clone(), used.clone()));

    // Another writer has written to the file whose bytes are dropped.
    let mut wc = m.write(0);
    wc.write(&mut m, &b).unwrap();
    m.commit_and_truncate(Some(&mut wb), &[(0, 500)]).unwrap();
    files[0] = a[500..].to_vec();
    files[1] = b.clone();
    used = vec![0, 3, 4, 5, 6];
    assert_eq!(used_pages(&m), [0, 3, 4, 5, 6, 7, 8]);
    assert_eq!(remounted(&mut m), (files.clone(), used.clone()));

    wb.write(&mut m, &a).unwrap();
    wc.discard(&mut m);
    assert_eq!(remounted(&mut m), (files.clone(), used.clone()));
    // Pages 7 and 8 were in use for the writer to file 0, so this one has taken 1, 2, 9 and 10.
    assert_eq!(used_pages(&m), [0, 1, 2, 3, 4, 5, 6, 9, 10]);
    m.commit_and_truncate(None, &[(0, 200)]).unwrap();
    files[0] = vec![];
    used = vec![0, 5, 6];
    assert_eq!(remounted(&mut m), (files.clone(), used.clone()));
    m.commit(&mut wb).unwrap();
    files[1].extend(&a);
    used = vec![0, 1, 2, 5, 6, 9, 10];
    assert_eq!(used_pages(&m), used);
    assert_eq!(remounted(&mut m), (files.clone(), used.clone()));

    // A mount in between gives back the pages of a writer.
    let mut wa = m.write(0);
    wa.write(&mut m, &b).unwrap();
    assert_ne!(used_pages(&m), used);
    m.mount().unwrap();
    assert_eq!(used_pages(&m), used);
    assert_eq!(remounted(&mut m), (files.clone(), used.clone()));
}

#[test]
fn a_writer_that_is_overtaken_keeps_its_pages_until_the_next_mount() {
    let mut f = MemFlash::new();
    let mut m = fresh(&mut f);
    append(&mut m, 0, &[1]);
    let mut idle = m.write(0);
    let mut late = m.write(0);
    late.write(&mut m, &[2]).unwrap();
    let mut w = m.write(0);
    w.write(&mut m, &[3]).unwrap();
    m.commit(&mut w).unwrap();
    assert_eq!(used_pages(&m), [0, 1, 2, 3]);
    let (files, used) = remounted(&mut m);
    assert_eq!(files[0], [1, 3]);
    assert_eq!(used, [0, 1, 3]);

    // It can be written to, and one that has nothing to commit can be committed and discarded.
    late.write(&mut m, &sample(300, 22)).unwrap();
    late.record_end();
    m.commit_and_truncate(Some(&mut idle), &[(0, 1)]).unwrap();
    idle.discard(&mut m);
    assert_eq!(used_pages(&m), [0, 2, 3, 4]);
    let (files, used) = remounted(&mut m);
    assert_eq!(files[0], [3]);
    assert_eq!(used, [0, 3]);
    m.mount().unwrap();
    assert_eq!(used_pages(&m), [0, 3]);
    // The writer that continues the file still does.
    w.write(&mut m, &[4]).unwrap();
    m.commit(&mut w).unwrap();
    assert_eq!(contents(&mut m, 0), [3, 4]);
}

#[test]
fn a_writer_that_is_overtaken_at_the_start_of_a_file_can_be_discarded() {
    let mut f = MemFlash::new();
    let mut m = fresh(&mut f);
    let mut late = m.write(0);
    let mut w = m.write(0);
    late.write(&mut m, &[1, 2]).unwrap();
    w.write(&mut m, &[3]).unwrap();
    m.commit(&mut w).unwrap();
    assert_eq!(used_pages(&m), [0, 1, 2]);
    late.discard(&mut m);
    assert_eq!(used_pages(&m), [0, 2]);
    let (files, used) = remounted(&mut m);
    assert_eq!(files[0], [3]);
    assert_eq!(used, [0, 2]);
}

#[test]
fn a_writer_that_is_overtaken_resumes_when_its_file_is_as_it_was() {
    let mut f = MemFlash::new();
    let mut m = fresh(&mut f);
    let mut late = m.write(0);
    let data = sample(500, 23);
    late.write(&mut m, &data).unwrap();
    append(&mut m, 0, &[1, 2, 3]);
    m.commit_and_truncate(None, &[(0, 3)]).unwrap();
    assert!(m.is_empty(0));
    m.commit(&mut late).unwrap();
    let (files, used) = remounted(&mut m);
    assert_eq!(files[0], data);
    assert_eq!(used, [0, 1, 2, 3]);
    assert_eq!(used_pages(&m), used);
}

#[test]
fn mounting_marks_the_pages_of_the_files() {
    let mut f = MemFlash::new();
    let mut m = fresh(&mut f);
    append(&mut m, 0, &sample(PAGE_MAX_PAYLOAD_SIZE * 2, 15));
    append(&mut m, 1, &sample(1, 16));
    let used = used_pages(&m);
    m.alloc.reset();
    m.mount().unwrap();
    assert_eq!(used_pages(&m), used);
    assert_eq!(used, [0, 1, 2, 3]);
    assert_eq!(m.meta_page_id, page(0));
}

#[test]
fn a_file_can_be_listed() {
    let mut f = MemFlash::new();
    let mut m = fresh(&mut f);
    let data = sample(PAGE_MAX_PAYLOAD_SIZE + 40, 17);
    let mut w = m.write(2);
    w.write(&mut m, &data[..PAGE_MAX_PAYLOAD_SIZE + 3]).unwrap();
    w.record_end();
    w.write(&mut m, &data[PAGE_MAX_PAYLOAD_SIZE + 3..]).unwrap();
    w.record_end();
    m.commit(&mut w).unwrap();

    let d = m.dump_file(2).unwrap();
    assert_eq!((d.first_seq.0, d.last_seq.0, d.len), (0, 272, 272));
    assert_eq!(d.last_page, Some(page(2)));
    assert_eq!(d.pages.len(), 2);
    assert_eq!(d.pages[0].page_id, page(1));
    assert_eq!((d.pages[0].seq.0, d.pages[0].end.0), (0, 232));
    assert_eq!(d.pages[0].record_boundary.map(|(b, s)| (b, s.0)), Some((0, 0)));
    assert_eq!(d.pages[0].rows.len(), 8);
    assert_eq!(d.pages[0].rows[7].seq.0, 224);
    assert_eq!(d.pages[0].rows[7].bytes, &data[224..232]);
    assert_eq!(d.pages[1].record_boundary.map(|(b, s)| (b, s.0)), Some((3, 235)));
    assert_eq!(d.pages[1].rows.len(), 2);
    assert_eq!(d.pages[1].rows[0].bytes, &data[232..264]);
    assert_eq!(d.pages[1].rows[1].bytes, &data[264..272]);
    assert_eq!(d.pages[1].skiplist[0].into_option(), Some(page(1)));

    let all = m.dump().unwrap();
    assert_eq!(all.len(), FILE_COUNT);
    assert_eq!(all[2].pages.len(), 2);
    assert_eq!(all[0].pages.len(), 0);
    assert_eq!(all[0].last_page, None);

    m.flash.pages[1][0] ^= 1;
    assert!(m.dump_file(2).is_none());
    assert!(m.dump().is_none());
    assert!(m.dump_file(0).is_some());
}
