use ekv::file::FileManager;
use ekv::flash::MemFlash;
use ekv::headers::{DataHeader, PAGE_MAX_PAYLOAD_SIZE};
use ekv::page::ReadError;
use ekv::searcher::{FileSearcher, SeekDirection};
use ekv::seqnum::{max_trailing_zeros_between, SeqNum};
use ekv::types::{PageID, RawPageID};
use rand::Rng;

fn page(p: RawPageID) -> PageID {
    PageID::from_raw(p).unwrap()
}

#[test]
fn test_read_write() {
    let mut f = MemFlash::new();
    let mut m = FileManager::new(&mut f);
    m.format();
    m.mount().unwrap();

    let data = dummy_data(24);

    let mut w = m.write(0);
    w.write(&mut m, &data).unwrap();
    m.commit(&mut w).unwrap();

    let mut r = m.read(0);
    let mut buf = vec![0; data.len()];
    r.read(&mut m, &mut buf).unwrap();
    assert_eq!(data, buf);

    // Remount
    m.mount().unwrap();

    let mut r = m.read(0);
    let mut buf = vec![0; data.len()];
    r.read(&mut m, &mut buf).unwrap();
    assert_eq!(data, buf);
}

#[test]
fn test_read_write_long() {
    let mut f = MemFlash::new();
    let mut m = FileManager::new(&mut f);
    m.format();
    m.mount().unwrap();

    let data = dummy_data(23456);

    let mut w = m.write(0);
    w.write(&mut m, &data).unwrap();
    m.commit(&mut w).unwrap();
    w.discard(&mut m);

    let mut r = m.read(0);
    let mut buf = vec![0; data.len()];
    r.read(&mut m, &mut buf).unwrap();
    assert_eq!(data, buf);

    // Remount
    m.mount().unwrap();

    let mut r = m.read(0);
    let mut buf = vec![0; data.len()];
    r.read(&mut m, &mut buf).unwrap();
    assert_eq!(data, buf);
}

#[test]
fn test_append() {
    let mut f = MemFlash::new();
    let mut m = FileManager::new(&mut f);
    m.format();
    m.mount().unwrap();

    let mut w = m.write(0);
    w.write(&mut m, &[1, 2, 3, 4, 5]).unwrap();
    m.commit(&mut w).unwrap();

    let mut w = m.write(0);
    w.write(&mut m, &[6, 7, 8, 9]).unwrap();
    m.commit(&mut w).unwrap();

    let mut r = m.read(0);
    let mut buf = vec![0; 9];
    r.read(&mut m, &mut buf).unwrap();
    assert_eq!(buf, [1, 2, 3, 4, 5, 6, 7, 8, 9]);

    // Remount
    m.mount().unwrap();

    let mut r = m.read(0);
    r.read(&mut m, &mut buf).unwrap();
    assert_eq!(buf, [1, 2, 3, 4, 5, 6, 7, 8, 9]);
}

#[test]
fn test_truncate() {
    let mut f = MemFlash::new();
    let mut m = FileManager::new(&mut f);
    m.format();
    m.mount().unwrap();

    let mut w = m.write(0);
    w.write(&mut m, &[1, 2, 3, 4, 5]).unwrap();
    m.commit(&mut w).unwrap();

    m.commit_and_truncate(None, &[(0, 2)]).unwrap();

    let mut r = m.read(0);
    let mut buf = [0; 3];
    r.read(&mut m, &mut buf).unwrap();
    assert_eq!(buf, [3, 4, 5]);

    m.commit_and_truncate(None, &[(0, 1)]).unwrap();

    let mut r = m.read(0);
    let mut buf = [0; 2];
    r.read(&mut m, &mut buf).unwrap();
    assert_eq!(buf, [4, 5]);

    // Remount
    m.mount().unwrap();

    let mut r = m.read(0);
    let mut buf = [0; 2];
    r.read(&mut m, &mut buf).unwrap();
    assert_eq!(buf, [4, 5]);
}

#[test]
fn test_append_truncate() {
    let mut f = MemFlash::new();
    let mut m = FileManager::new(&mut f);
    m.format();
    m.mount().unwrap();

    let mut w = m.write(0);
    w.write(&mut m, &[1, 2, 3, 4, 5]).unwrap();
    m.commit(&mut w).unwrap();

    let mut w = m.write(0);
    w.write(&mut m, &[6, 7, 8, 9]).unwrap();

    m.commit_and_truncate(Some(&mut w), &[(0, 2)]).unwrap();

    let mut r = m.read(0);
    let mut buf = [0; 7];
    r.read(&mut m, &mut buf).unwrap();
    assert_eq!(buf, [3, 4, 5, 6, 7, 8, 9]);

    m.commit_and_truncate(None, &[(0, 1)]).unwrap();

    let mut r = m.read(0);
    let mut buf = [0; 6];
    r.read(&mut m, &mut buf).unwrap();
    assert_eq!(buf, [4, 5, 6, 7, 8, 9]);

    m.commit_and_truncate(None, &[(0, 5)]).unwrap();

    let mut r = m.read(0);
    let mut buf = [0; 1];
    r.read(&mut m, &mut buf).unwrap();
    assert_eq!(buf, [9]);

    // Remount
    m.mount().unwrap();

    let mut r = m.read(0);
    let mut buf = [0; 1];
    r.read(&mut m, &mut buf).unwrap();
    assert_eq!(buf, [9]);

    let mut w = m.write(0);
    w.write(&mut m, &[10, 11, 12]).unwrap();
    m.commit(&mut w).unwrap();

    let mut r = m.read(0);
    let mut buf = [0; 4];
    r.read(&mut m, &mut buf).unwrap();
    assert_eq!(buf, [9, 10, 11, 12]);
}

#[test]
fn test_delete() {
    let mut f = MemFlash::new();
    let mut m = FileManager::new(&mut f);
    m.format();
    m.mount().unwrap();

    let mut w = m.write(0);
    w.write(&mut m, &[1, 2, 3, 4, 5]).unwrap();
    m.commit(&mut w).unwrap();

    assert_eq!(m.alloc.is_used(page(1)), true);

    m.commit_and_truncate(None, &[(0, 5)]).unwrap();

    assert_eq!(m.alloc.is_used(page(1)), false);

    // Remount
    m.mount().unwrap();

    assert_eq!(m.alloc.is_used(page(1)), false);

    let mut r = m.read(0);
    let mut buf = [0; 1];
    let res = r.read(&mut m, &mut buf);
    assert!(matches!(res, Err(ReadError::Eof)));
}

#[test]
fn test_truncate_alloc() {
    let mut f = MemFlash::new();
    let mut m = FileManager::new(&mut f);
    m.format();
    m.mount().unwrap();

    assert_eq!(m.alloc.is_used(page(1)), false);

    let mut w = m.write(0);
    w.write(&mut m, &[1, 2, 3, 4, 5]).unwrap();
    m.commit(&mut w).unwrap();

    assert_eq!(m.alloc.is_used(page(1)), true);

    m.commit_and_truncate(None, &[(0, 5)]).unwrap();

    assert_eq!(m.alloc.is_used(page(1)), false);

    // Remount
    m.mount().unwrap();

    assert_eq!(m.alloc.is_used(page(1)), false);

    let mut r = m.read(0);
    let mut buf = [0; 1];
    let res = r.read(&mut m, &mut buf);
    assert!(matches!(res, Err(ReadError::Eof)));
}

#[test]
fn test_truncate_alloc_2() {
    let mut f = MemFlash::new();
    let mut m = FileManager::new(&mut f);
    m.format();
    m.mount().unwrap();

    assert_eq!(m.alloc.is_used(page(1)), false);

    let data = dummy_data(PAGE_MAX_PAYLOAD_SIZE);

    let mut w = m.write(0);
    w.write(&mut m, &data).unwrap();
    w.write(&mut m, &data).unwrap();
    m.commit(&mut w).unwrap();

    assert_eq!(m.alloc.is_used(page(1)), true);
    assert_eq!(m.alloc.is_used(page(2)), true);

    m.commit_and_truncate(None, &[(0, PAGE_MAX_PAYLOAD_SIZE)]).unwrap();
    assert_eq!(m.alloc.is_used(page(1)), false);
    assert_eq!(m.alloc.is_used(page(2)), true);

    m.commit_and_truncate(None, &[(0, PAGE_MAX_PAYLOAD_SIZE)]).unwrap();
    assert_eq!(m.alloc.is_used(page(1)), false);
    assert_eq!(m.alloc.is_used(page(2)), false);

    // Remount
    m.mount().unwrap();

    assert_eq!(m.alloc.is_used(page(1)), false);
    assert_eq!(m.alloc.is_used(page(2)), false);

    let mut r = m.read(0);
    let mut buf = [0; 1];
    let res = r.read(&mut m, &mut buf);
    assert!(matches!(res, Err(ReadError::Eof)));
}

#[test]
fn test_append_no_commit() {
    let mut f = MemFlash::new();
    let mut m = FileManager::new(&mut f);
    m.format();
    m.mount().unwrap();

    let mut w = m.write(0);
    w.write(&mut m, &[1, 2, 3, 4, 5]).unwrap();
    m.commit(&mut w).unwrap();

    let mut w = m.write(0);
    w.write(&mut m, &[6, 7, 8, 9]).unwrap();
    w.discard(&mut m);

    let mut r = m.read(0);
    let mut buf = [0; 5];
    r.read(&mut m, &mut buf).unwrap();
    assert_eq!(buf, [1, 2, 3, 4, 5]);
    let mut buf = [0; 1];
    let res = r.read(&mut m, &mut buf);
    assert!(matches!(res, Err(ReadError::Eof)));

    let mut w = m.write(0);
    w.write(&mut m, &[10, 11]).unwrap();
    m.commit(&mut w).unwrap();

    let mut r = m.read(0);
    let mut buf = [0; 7];
    r.read(&mut m, &mut buf).unwrap();
    assert_eq!(buf, [1, 2, 3, 4, 5, 10, 11]);
}

#[test]
fn test_read_unwritten() {
    let mut f = MemFlash::new();
    let mut m = FileManager::new(&mut f);
    m.format();
    m.mount().unwrap();

    let mut r = m.read(0);
    let mut buf = vec![0; 1024];
    let res = r.read(&mut m, &mut buf);
    assert!(matches!(res, Err(ReadError::Eof)));
}

#[test]
fn test_read_uncommitted() {
    let mut f = MemFlash::new();
    let mut m = FileManager::new(&mut f);
    m.format();
    m.mount().unwrap();

    let data = dummy_data(1234);

    let mut w = m.write(0);
    w.write(&mut m, &data).unwrap();
    w.discard(&mut m); // don't commit

    let mut r = m.read(0);
    let mut buf = vec![0; 1024];
    let res = r.read(&mut m, &mut buf);
    assert!(matches!(res, Err(ReadError::Eof)));
}

#[test]
fn test_alloc_commit() {
    let mut f = MemFlash::new();
    let mut m = FileManager::new(&mut f);
    m.format();
    m.mount().unwrap();

    assert_eq!(m.alloc.is_used(page(1)), false);
    assert_eq!(m.alloc.is_used(page(2)), false);

    let data = dummy_data(PAGE_MAX_PAYLOAD_SIZE);
    let mut w = m.write(0);

    w.write(&mut m, &data).unwrap();
    assert_eq!(m.alloc.is_used(page(0)), true); // old meta
    assert_eq!(m.alloc.is_used(page(1)), true);
    assert_eq!(m.alloc.is_used(page(2)), false);
    assert_eq!(m.alloc.is_used(page(3)), false);

    w.write(&mut m, &data).unwrap();
    assert_eq!(m.alloc.is_used(page(0)), true); // old meta
    assert_eq!(m.alloc.is_used(page(1)), true);
    assert_eq!(m.alloc.is_used(page(2)), true);
    assert_eq!(m.alloc.is_used(page(3)), false);

    m.commit(&mut w).unwrap();
    assert_eq!(m.alloc.is_used(page(0)), true); // old meta, appended in-place.
    assert_eq!(m.alloc.is_used(page(1)), true);
    assert_eq!(m.alloc.is_used(page(2)), true);
    assert_eq!(m.alloc.is_used(page(3)), false);

    // Remount
    m.mount().unwrap();
    assert_eq!(m.alloc.is_used(page(0)), true); // old meta, appended in-place.
    assert_eq!(m.alloc.is_used(page(1)), true);
    assert_eq!(m.alloc.is_used(page(2)), true);
    assert_eq!(m.alloc.is_used(page(3)), false);
}

#[test]
fn test_alloc_discard_1page() {
    let mut f = MemFlash::new();
    let mut m = FileManager::new(&mut f);
    m.format();
    m.mount().unwrap();

    assert_eq!(m.alloc.is_used(page(0)), true);
    assert_eq!(m.alloc.is_used(page(1)), false);
    assert_eq!(m.alloc.is_used(page(2)), false);

    let data = dummy_data(PAGE_MAX_PAYLOAD_SIZE);
    let mut w = m.write(0);

    w.write(&mut m, &data).unwrap();
    assert_eq!(m.alloc.is_used(page(0)), true);
    assert_eq!(m.alloc.is_used(page(1)), true);
    assert_eq!(m.alloc.is_used(page(2)), false);

    w.discard(&mut m);
    assert_eq!(m.alloc.is_used(page(0)), true);
    assert_eq!(m.alloc.is_used(page(1)), false);
    assert_eq!(m.alloc.is_used(page(2)), false);

    // Remount
    m.mount().unwrap();
    assert_eq!(m.alloc.is_used(page(0)), true);
    assert_eq!(m.alloc.is_used(page(1)), false);
    assert_eq!(m.alloc.is_used(page(2)), false);
}

#[test]
fn test_alloc_discard_2page() {
    let mut f = MemFlash::new();
    let mut m = FileManager::new(&mut f);
    m.format();
    m.mount().unwrap();

    assert_eq!(m.alloc.is_used(page(0)), true);
    assert_eq!(m.alloc.is_used(page(1)), false);

    let data = dummy_data(PAGE_MAX_PAYLOAD_SIZE);
    let mut w = m.write(0);

    w.write(&mut m, &data).unwrap();
    assert_eq!(m.alloc.is_used(page(0)), true);
    assert_eq!(m.alloc.is_used(page(1)), true);
    assert_eq!(m.alloc.is_used(page(2)), false);

    w.write(&mut m, &data).unwrap();
    assert_eq!(m.alloc.is_used(page(0)), true);
    assert_eq!(m.alloc.is_used(page(1)), true);
    assert_eq!(m.alloc.is_used(page(2)), true);
    assert_eq!(m.alloc.is_used(page(3)), false);

    w.discard(&mut m);
    assert_eq!(m.alloc.is_used(page(0)), true);
    assert_eq!(m.alloc.is_used(page(1)), false);
    assert_eq!(m.alloc.is_used(page(2)), false);
    assert_eq!(m.alloc.is_used(page(3)), false);

    // Remount
    m.mount().unwrap();
    assert_eq!(m.alloc.is_used(page(0)), true);
    assert_eq!(m.alloc.is_used(page(1)), false);
    assert_eq!(m.alloc.is_used(page(2)), false);
    assert_eq!(m.alloc.is_used(page(3)), false);
}

#[test]
fn test_alloc_discard_3page() {
    let mut f = MemFlash::new();
    let mut m = FileManager::new(&mut f);
    m.format();
    m.mount().unwrap();

    assert_eq!(m.alloc.is_used(page(0)), true);
    assert_eq!(m.alloc.is_used(page(1)), false);
    assert_eq!(m.alloc.is_used(page(2)), false);
    assert_eq!(m.alloc.is_used(page(3)), false);

    let data = dummy_data(PAGE_MAX_PAYLOAD_SIZE * 3);
    let mut w = m.write(0);
    w.write(&mut m, &data).unwrap();
    assert_eq!(m.alloc.is_used(page(0)), true);
    assert_eq!(m.alloc.is_used(page(1)), true);
    assert_eq!(m.alloc.is_used(page(2)), true);
    assert_eq!(m.alloc.is_used(page(3)), true);
    assert_eq!(m.alloc.is_used(page(4)), false);

    w.discard(&mut m);
    assert_eq!(m.alloc.is_used(page(0)), true);
    assert_eq!(m.alloc.is_used(page(1)), false);
    assert_eq!(m.alloc.is_used(page(2)), false);
    assert_eq!(m.alloc.is_used(page(3)), false);
    assert_eq!(m.alloc.is_used(page(4)), false);

    // Remount
    m.mount().unwrap();
    assert_eq!(m.alloc.is_used(page(0)), true);
    assert_eq!(m.alloc.is_used(page(1)), false);
    assert_eq!(m.alloc.is_used(page(2)), false);
    assert_eq!(m.alloc.is_used(page(3)), false);
    assert_eq!(m.alloc.is_used(page(4)), false);
}

#[test]
fn test_append_alloc_discard() {
    let mut f = MemFlash::new();
    let mut m = FileManager::new(&mut f);
    m.format();
    m.mount().unwrap();

    assert_eq!(m.alloc.is_used(page(0)), true);
    assert_eq!(m.alloc.is_used(page(1)), false);

    let data = dummy_data(24);
    let mut w = m.write(0);
    w.write(&mut m, &data).unwrap();
    m.commit(&mut w).unwrap();
    assert_eq!(m.alloc.is_used(page(0)), true); // old meta, appended in-place.
    assert_eq!(m.alloc.is_used(page(1)), true);
    assert_eq!(m.alloc.is_used(page(2)), false);
    assert_eq!(m.alloc.is_used(page(3)), false);

    let mut w = m.write(0);
    w.write(&mut m, &data).unwrap();
    assert_eq!(m.alloc.is_used(page(0)), true);
    assert_eq!(m.alloc.is_used(page(1)), true);
    assert_eq!(m.alloc.is_used(page(2)), true);
    assert_eq!(m.alloc.is_used(page(3)), false);

    w.discard(&mut m);
    assert_eq!(m.alloc.is_used(page(0)), true);
    assert_eq!(m.alloc.is_used(page(1)), true);
    assert_eq!(m.alloc.is_used(page(2)), false);
    assert_eq!(m.alloc.is_used(page(3)), false);

    // Remount
    m.mount().unwrap();
    assert_eq!(m.alloc.is_used(page(0)), true);
    assert_eq!(m.alloc.is_used(page(1)), true);
    assert_eq!(m.alloc.is_used(page(2)), false);
    assert_eq!(m.alloc.is_used(page(3)), false);
}

#[test]
fn test_write_2_files() {
    let mut f = MemFlash::new();
    let mut m = FileManager::new(&mut f);
    m.format();
    m.mount().unwrap();

    let data = dummy_data(32);

    let mut w1 = m.write(1);
    w1.write(&mut m, &data).unwrap();

    let mut w2 = m.write(2);
    w2.write(&mut m, &data).unwrap();

    m.commit(&mut w2).unwrap();
    m.commit(&mut w1).unwrap();

    let mut r = m.read(1);
    let mut buf = [0; 32];
    r.read(&mut m, &mut buf).unwrap();
    assert_eq!(buf[..], data[..]);

    let mut r = m.read(2);
    let mut buf = [0; 32];
    r.read(&mut m, &mut buf).unwrap();
    assert_eq!(buf[..], data[..]);

    // Remount
    m.mount().unwrap();

    let mut r = m.read(1);
    let mut buf = [0; 32];
    r.read(&mut m, &mut buf).unwrap();
    assert_eq!(buf[..], data[..]);

    let mut r = m.read(2);
    let mut buf = [0; 32];
    r.read(&mut m, &mut buf).unwrap();
    assert_eq!(buf[..], data[..]);
}

#[test]
fn test_record_boundary_one() {
    let mut f = MemFlash::new();
    let mut m = FileManager::new(&mut f);
    m.format();
    m.mount().unwrap();

    let mut w = m.write(1);
    w.write(&mut m, &[0x00]).unwrap();
    w.record_end();
    m.commit(&mut w).unwrap();

    let h = m.read_header::<DataHeader>(page(1)).unwrap();
    assert_eq!(h.seq, SeqNum(0));
    assert_eq!(h.record_boundary, 0);
}

#[test]
fn test_record_boundary_two() {
    let mut f = MemFlash::new();
    let mut m = FileManager::new(&mut f);
    m.format();
    m.mount().unwrap();

    let mut w = m.write(1);
    w.write(&mut m, &[0x00]).unwrap();
    w.record_end();
    w.write(&mut m, &[0x00; PAGE_MAX_PAYLOAD_SIZE + 1]).unwrap();
    w.record_end();
    m.commit(&mut w).unwrap();

    let h = m.read_header::<DataHeader>(page(1)).unwrap();
    assert_eq!(h.seq, SeqNum(0));
    assert_eq!(h.record_boundary, 0);

    let h = m.read_header::<DataHeader>(page(2)).unwrap();
    assert_eq!(h.seq, SeqNum(PAGE_MAX_PAYLOAD_SIZE as u32));
    assert_eq!(h.record_boundary, u16::MAX);
}

#[test]
fn test_record_boundary_three() {
    let mut f = MemFlash::new();
    let mut m = FileManager::new(&mut f);
    m.format();
    m.mount().unwrap();

    let mut w = m.write(1);
    w.write(&mut m, &[0x00]).unwrap();
    w.record_end();
    w.write(&mut m, &[0x00; PAGE_MAX_PAYLOAD_SIZE + 1]).unwrap();
    w.record_end();
    w.write(&mut m, &[0x00]).unwrap();
    w.record_end();
    m.commit(&mut w).unwrap();

    let h = m.read_header::<DataHeader>(page(1)).unwrap();
    assert_eq!(h.seq, SeqNum(0));
    assert_eq!(h.record_boundary, 0);

    let h = m.read_header::<DataHeader>(page(2)).unwrap();
    assert_eq!(h.seq, SeqNum(PAGE_MAX_PAYLOAD_SIZE as u32));
    assert_eq!(h.record_boundary, 2);
}

#[test]
fn test_record_boundary_overlong() {
    let mut f = MemFlash::new();
    let mut m = FileManager::new(&mut f);
    m.format();
    m.mount().unwrap();

    let mut w = m.write(1);
    w.write(&mut m, &[0x00]).unwrap();
    w.record_end();
    w.write(&mut m, &[0x00; PAGE_MAX_PAYLOAD_SIZE * 2 + 1]).unwrap();
    w.record_end();
    m.commit(&mut w).unwrap();

    let h = m.read_header::<DataHeader>(page(1)).unwrap();
    assert_eq!(h.seq, SeqNum(0));
    assert_eq!(h.record_boundary, 0);

    let h = m.read_header::<DataHeader>(page(2)).unwrap();
    assert_eq!(h.seq, SeqNum(PAGE_MAX_PAYLOAD_SIZE as u32));
    assert_eq!(h.record_boundary, u16::MAX);

    let h = m.read_header::<DataHeader>(page(3)).unwrap();
    assert_eq!(h.seq, SeqNum(PAGE_MAX_PAYLOAD_SIZE as u32 * 2));
    assert_eq!(h.record_boundary, u16::MAX);
}

#[test]
fn test_record_boundary_overlong_2() {
    let mut f = MemFlash::new();
    let mut m = FileManager::new(&mut f);
    m.format();
    m.mount().unwrap();

    let mut w = m.write(1);
    w.write(&mut m, &[0x00]).unwrap();
    w.record_end();
    w.write(&mut m, &[0x00; PAGE_MAX_PAYLOAD_SIZE * 2 + 1]).unwrap();
    w.record_end();
    w.write(&mut m, &[0x00; PAGE_MAX_PAYLOAD_SIZE * 2 + 1]).unwrap();
    w.record_end();
    m.commit(&mut w).unwrap();

    let h = m.read_header::<DataHeader>(page(1)).unwrap();
    assert_eq!(h.seq, SeqNum(0));
    assert_eq!(h.record_boundary, 0);

    let h = m.read_header::<DataHeader>(page(2)).unwrap();
    assert_eq!(h.seq, SeqNum(PAGE_MAX_PAYLOAD_SIZE as u32));
    assert_eq!(h.record_boundary, u16::MAX);

    let h = m.read_header::<DataHeader>(page(3)).unwrap();
    assert_eq!(h.seq, SeqNum(PAGE_MAX_PAYLOAD_SIZE as u32 * 2));
    assert_eq!(h.record_boundary, 2);

    let h = m.read_header::<DataHeader>(page(4)).unwrap();
    assert_eq!(h.seq, SeqNum(PAGE_MAX_PAYLOAD_SIZE as u32 * 3));
    assert_eq!(h.record_boundary, u16::MAX);

    let h = m.read_header::<DataHeader>(page(5)).unwrap();
    assert_eq!(h.seq, SeqNum(PAGE_MAX_PAYLOAD_SIZE as u32 * 4));
    assert_eq!(h.record_boundary, u16::MAX);
}

#[test]
fn test_record_boundary_overlong_3() {
    let mut f = MemFlash::new();
    let mut m = FileManager::new(&mut f);
    m.format();
    m.mount().unwrap();

    let mut w = m.write(1);
    w.write(&mut m, &[0x00]).unwrap();
    w.record_end();
    w.write(&mut m, &[0x00; PAGE_MAX_PAYLOAD_SIZE * 2 + 1]).unwrap();
    w.record_end();
    w.write(&mut m, &[0x00; PAGE_MAX_PAYLOAD_SIZE * 2 + 1]).unwrap();
    w.record_end();
    w.write(&mut m, &[0x00]).unwrap();
    w.record_end();
    w.write(&mut m, &[0x00]).unwrap();
    w.record_end();
    w.write(&mut m, &[0x00]).unwrap();
    w.record_end();

    m.commit(&mut w).unwrap();

    let h = m.read_header::<DataHeader>(page(1)).unwrap();
    assert_eq!(h.seq, SeqNum(0));
    assert_eq!(h.record_boundary, 0);

    let h = m.read_header::<DataHeader>(page(2)).unwrap();
    assert_eq!(h.seq, SeqNum(PAGE_MAX_PAYLOAD_SIZE as u32));
    assert_eq!(h.record_boundary, u16::MAX);

    let h = m.read_header::<DataHeader>(page(3)).unwrap();
    assert_eq!(h.seq, SeqNum(PAGE_MAX_PAYLOAD_SIZE as u32 * 2));
    assert_eq!(h.record_boundary, 2);

    let h = m.read_header::<DataHeader>(page(4)).unwrap();
    assert_eq!(h.seq, SeqNum(PAGE_MAX_PAYLOAD_SIZE as u32 * 3));
    assert_eq!(h.record_boundary, u16::MAX);

    let h = m.read_header::<DataHeader>(page(5)).unwrap();
    assert_eq!(h.seq, SeqNum(PAGE_MAX_PAYLOAD_SIZE as u32 * 4));
    assert_eq!(h.record_boundary, 3);
}

#[test]
fn test_search_empty() {
    let mut f = MemFlash::new();
    let mut m = FileManager::new(&mut f);
    m.format();
    m.mount().unwrap();

    let mut s = FileSearcher::new(m.read(1));
    assert_eq!(s.start(&mut m).unwrap(), false);
    assert_eq!(s.reader().offset(&mut m), 0);
}

#[test]
fn test_search_one_page() {
    let mut f = MemFlash::new();
    let mut m = FileManager::new(&mut f);
    m.format();
    m.mount().unwrap();

    let mut w = m.write(1);
    w.write(&mut m, &[0x00]).unwrap();
    m.commit(&mut w).unwrap();

    let mut buf = [0u8; 1];
    // Seek left
    let mut s = FileSearcher::new(m.read(1));
    assert_eq!(s.start(&mut m).unwrap(), true);
    assert_eq!(s.reader().offset(&mut m), 0);
    s.reader().read(&mut m, &mut buf).unwrap();
    assert_eq!(s.seek(&mut m, SeekDirection::Left).unwrap(), false);
    assert_eq!(s.reader().offset(&mut m), 0);

    // Seek right
    let mut s = FileSearcher::new(m.read(1));
    assert_eq!(s.start(&mut m).unwrap(), true);
    assert_eq!(s.reader().offset(&mut m), 0);
    s.reader().read(&mut m, &mut buf).unwrap();
    assert_eq!(s.seek(&mut m, SeekDirection::Right).unwrap(), false);
    assert_eq!(s.reader().offset(&mut m), 0);
}

#[test]
fn test_search_two_pages() {
    let mut f = MemFlash::new();
    let mut m = FileManager::new(&mut f);
    m.format();
    m.mount().unwrap();

    for _ in 0..2 {
        let mut w = m.write(1);
        w.write(&mut m, &[0x00]).unwrap();
        w.record_end();
        m.commit(&mut w).unwrap();
    }

    let mut s = FileSearcher::new(m.read(1));
    assert_eq!(s.start(&mut m).unwrap(), true);
    assert_eq!(s.reader().offset(&mut m), 1);
    assert_eq!(s.seek(&mut m, SeekDirection::Left).unwrap(), true);
    assert_eq!(s.reader().offset(&mut m), 0);
    assert_eq!(s.seek(&mut m, SeekDirection::Left).unwrap(), false);
    assert_eq!(s.reader().offset(&mut m), 0);

    let mut s = FileSearcher::new(m.read(1));
    assert_eq!(s.start(&mut m).unwrap(), true);
    assert_eq!(s.reader().offset(&mut m), 1);
    assert_eq!(s.seek(&mut m, SeekDirection::Right).unwrap(), false);
    assert_eq!(s.reader().offset(&mut m), 1);
}

#[test]
fn test_search_no_boundary_on_second_page() {
    let mut f = MemFlash::new();
    let mut m = FileManager::new(&mut f);
    m.format();
    m.mount().unwrap();

    let mut w = m.write(1);
    w.write(&mut m, &[0x00; 238]).unwrap();
    w.record_end();
    m.commit(&mut w).unwrap();

    let mut buf = [0u8; 1];
    // Seek left
    let mut s = FileSearcher::new(m.read(1));
    assert_eq!(s.start(&mut m).unwrap(), true);
    assert_eq!(s.reader().offset(&mut m), 0);
    s.reader().read(&mut m, &mut buf).unwrap();
    assert_eq!(s.seek(&mut m, SeekDirection::Left).unwrap(), false);
    assert_eq!(s.reader().offset(&mut m), 0);

    // Seek right
    let mut s = FileSearcher::new(m.read(1));
    assert_eq!(s.start(&mut m).unwrap(), true);
    assert_eq!(s.reader().offset(&mut m), 0);
    s.reader().read(&mut m, &mut buf).unwrap();
    assert_eq!(s.seek(&mut m, SeekDirection::Right).unwrap(), false);
    assert_eq!(s.reader().offset(&mut m), 0);
}

#[test]
fn test_search_no_boundary_more_pages() {
    let mut f = MemFlash::new();
    let mut m = FileManager::new(&mut f);
    m.format();
    m.mount().unwrap();

    let mut w = m.write(1);
    w.write(&mut m, &[0x00; 4348]).unwrap();
    w.record_end();
    m.commit(&mut w).unwrap();

    let mut buf = [0u8; 1];
    // Seek left
    let mut s = FileSearcher::new(m.read(1));
    assert_eq!(s.start(&mut m).unwrap(), true);
    assert_eq!(s.reader().offset(&mut m), 0);
    s.reader().read(&mut m, &mut buf).unwrap();
    assert_eq!(s.seek(&mut m, SeekDirection::Left).unwrap(), false);
    assert_eq!(s.reader().offset(&mut m), 0);

    // Seek right
    let mut s = FileSearcher::new(m.read(1));
    assert_eq!(s.start(&mut m).unwrap(), true);
    assert_eq!(s.reader().offset(&mut m), 0);
    s.reader().read(&mut m, &mut buf).unwrap();
    assert_eq!(s.seek(&mut m, SeekDirection::Right).unwrap(), false);
    assert_eq!(s.reader().offset(&mut m), 0);
}

#[test]
fn test_search_no_boundary_more_pages_two() {
    let mut f = MemFlash::new();
    let mut m = FileManager::new(&mut f);
    m.format();
    m.mount().unwrap();

    let mut w = m.write(1);
    w.write(&mut m, &[0x00; 4348]).unwrap();
    w.record_end();
    w.write(&mut m, &[0x00; 4348]).unwrap();
    w.record_end();
    m.commit(&mut w).unwrap();

    let mut buf = [0u8; 1];
    // Seek left
    let mut s = FileSearcher::new(m.read(1));
    assert_eq!(s.start(&mut m).unwrap(), true);
    assert_eq!(s.reader().offset(&mut m), 4348);
    s.reader().read(&mut m, &mut buf).unwrap();
    assert_eq!(s.seek(&mut m, SeekDirection::Left).unwrap(), true);
    assert_eq!(s.reader().offset(&mut m), 0);
    s.reader().read(&mut m, &mut buf).unwrap();
    assert_eq!(s.seek(&mut m, SeekDirection::Left).unwrap(), false);
    assert_eq!(s.reader().offset(&mut m), 0);

    // Seek right
    let mut s = FileSearcher::new(m.read(1));
    assert_eq!(s.start(&mut m).unwrap(), true);
    assert_eq!(s.reader().offset(&mut m), 4348);
    s.reader().read(&mut m, &mut buf).unwrap();
    assert_eq!(s.seek(&mut m, SeekDirection::Right).unwrap(), false);
    assert_eq!(s.reader().offset(&mut m), 4348);
}

#[test]
fn test_search_no_boundary_more_pages_three() {
    let mut f = MemFlash::new();
    let mut m = FileManager::new(&mut f);
    m.format();
    m.mount().unwrap();

    let mut w = m.write(1);
    w.write(&mut m, &[0x00; 4348]).unwrap();
    w.record_end();
    w.write(&mut m, &[0x00; 4348]).unwrap();
    w.record_end();
    w.write(&mut m, &[0x00; 4348]).unwrap();
    w.record_end();
    m.commit(&mut w).unwrap();

    let mut buf = [0u8; 1];
    // Seek left
    let mut s = FileSearcher::new(m.read(1));
    assert_eq!(s.start(&mut m).unwrap(), true);
    assert_eq!(s.reader().offset(&mut m), 8696);
    s.reader().read(&mut m, &mut buf).unwrap();
    assert_eq!(s.seek(&mut m, SeekDirection::Left).unwrap(), true);
    assert_eq!(s.reader().offset(&mut m), 4348);
    s.reader().read(&mut m, &mut buf).unwrap();
    assert_eq!(s.seek(&mut m, SeekDirection::Left).unwrap(), true);
    assert_eq!(s.reader().offset(&mut m), 0);
    s.reader().read(&mut m, &mut buf).unwrap();
    assert_eq!(s.seek(&mut m, SeekDirection::Left).unwrap(), false);
    assert_eq!(s.reader().offset(&mut m), 0);

    // Seek less left
    let mut s = FileSearcher::new(m.read(1));
    assert_eq!(s.start(&mut m).unwrap(), true);
    assert_eq!(s.reader().offset(&mut m), 8696);
    s.reader().read(&mut m, &mut buf).unwrap();
    assert_eq!(s.seek(&mut m, SeekDirection::Left).unwrap(), true);
    assert_eq!(s.reader().offset(&mut m), 4348);
    s.reader().read(&mut m, &mut buf).unwrap();
    assert_eq!(s.seek(&mut m, SeekDirection::Left).unwrap(), true);
    assert_eq!(s.reader().offset(&mut m), 0);
    s.reader().read(&mut m, &mut buf).unwrap();
    assert_eq!(s.seek(&mut m, SeekDirection::Right).unwrap(), false);
    assert_eq!(s.reader().offset(&mut m), 0);

    // Seek middle
    let mut s = FileSearcher::new(m.read(1));
    assert_eq!(s.start(&mut m).unwrap(), true);
    assert_eq!(s.reader().offset(&mut m), 8696);
    s.reader().read(&mut m, &mut buf).unwrap();
    assert_eq!(s.seek(&mut m, SeekDirection::Left).unwrap(), true);
    assert_eq!(s.reader().offset(&mut m), 4348);
    s.reader().read(&mut m, &mut buf).unwrap();
    assert_eq!(s.seek(&mut m, SeekDirection::Right).unwrap(), false);
    assert_eq!(s.reader().offset(&mut m), 4348);

    // Seek right
    let mut s = FileSearcher::new(m.read(1));
    assert_eq!(s.start(&mut m).unwrap(), true);
    assert_eq!(s.reader().offset(&mut m), 8696);
    s.reader().read(&mut m, &mut buf).unwrap();
    assert_eq!(s.seek(&mut m, SeekDirection::Right).unwrap(), false);
    assert_eq!(s.reader().offset(&mut m), 8696);
}

#[test]
fn test_search_long() {
    let mut f = MemFlash::new();
    let mut m = FileManager::new(&mut f);
    m.format();
    m.mount().unwrap();

    let count = 20000 / 4;

    let mut w = m.write(1);
    for i in 1..=count {
        w.write(&mut m, &(i as u32).to_le_bytes()).unwrap();
        // make records not line up with page boundaries.
        w.write(&mut m, &[0x00]).unwrap();
        w.record_end();
    }
    m.commit(&mut w).unwrap();

    for want in 0..count + 1 {

        let mut s = FileSearcher::new(m.read(1));
        assert_eq!(s.start(&mut m).unwrap(), true);

        loop {
            let mut record = [0; 4];
            s.reader().read(&mut m, &mut record).unwrap();
            let record = u32::from_le_bytes(record);

            let dir = if record >= want {
                SeekDirection::Left
            } else {
                SeekDirection::Right
            };
            let ok = s.seek(&mut m, dir).unwrap();
            if !ok {
                break;
            }
        }

        let mut record = [0; 4];
        s.reader().read(&mut m, &mut record).unwrap();
        let record = u32::from_le_bytes(record);

        if want != 0 {
            assert!(want >= record);
            assert!(want - record <= PAGE_MAX_PAYLOAD_SIZE as u32 / 4);
        }
    }
}

fn dummy_data(len: usize) -> Vec<u8> {
    let mut res = vec![0; len];
    for (i, v) in res.iter_mut().enumerate() {
        *v = i as u8 ^ (i >> 8) as u8 ^ (i >> 16) as u8 ^ (i >> 24) as u8;
    }
    res
}

fn rand(max: usize) -> usize {
    rand::thread_rng().gen_range(0..max)
}

fn rand_between(from: usize, to: usize) -> usize {
    rand::thread_rng().gen_range(from..=to)
}

#[test]
fn test_smoke() {
    let mut f = MemFlash::new();
    let mut m = FileManager::new(&mut f);
    m.format();
    m.mount().unwrap();

    let mut seq_min = 0;
    let mut seq_max = 0;
    let file_id = 0;

    let max_size = 2000;

    for _ in 0..100000 {
        match rand(20) {
            // truncate
            0 => {
                let s = rand_between(0, seq_max - seq_min);
                m.commit_and_truncate(None, &[(file_id, s)]).unwrap();
                seq_min += s;
            }
            // append
            _ => {
                let n = rand(1024);
                if seq_max - seq_min + n > max_size {
                    continue;
                }


                let data: Vec<_> = (0..n).map(|i| (seq_max + i) as u8).collect();

                let mut w = m.write(file_id);
                w.write(&mut m, &data).unwrap();
                m.commit(&mut w).unwrap();

                seq_max += n;
            }
        }

        // ============ Check read all

        let mut r = m.read(file_id);
        let mut data = vec![0; seq_max - seq_min];
        r.read(&mut m, &mut data).unwrap();
        let want_data: Vec<_> = (0..seq_max - seq_min).map(|i| (seq_min + i) as u8).collect();
        assert_eq!(data, want_data);

        // Check we're at EOF
        let mut buf = [0; 1];
        assert_eq!(r.read(&mut m, &mut buf), Err(ReadError::Eof));

        // ============ Check read seek
        let s = rand_between(0, seq_max - seq_min);

        let mut r = m.read(file_id);
        r.seek(&mut m, s).unwrap();
        let mut data = vec![0; seq_max - seq_min - s];
        r.read(&mut m, &mut data).unwrap();
        let want_data: Vec<_> = (0..seq_max - seq_min - s).map(|i| (seq_min + s + i) as u8).collect();
        assert_eq!(data, want_data);

        // Check we're at EOF
        let mut buf = [0; 1];
        assert_eq!(r.read(&mut m, &mut buf), Err(ReadError::Eof));

        // ============ Check read skip
        let s1 = rand_between(0, seq_max - seq_min);
        let s2 = rand_between(0, seq_max - seq_min - s1);

        let mut r = m.read(file_id);
        r.skip(&mut m, s1).unwrap();
        r.skip(&mut m, s2).unwrap();
        let mut data = vec![0; seq_max - seq_min - s1 - s2];
        r.read(&mut m, &mut data).unwrap();
        let want_data: Vec<_> = (0..seq_max - seq_min - s1 - s2)
            .map(|i| (seq_min + s1 + s2 + i) as u8)
            .collect();
        assert_eq!(data, want_data);

        // Check we're at EOF
        let mut buf = [0; 1];
        assert_eq!(r.read(&mut m, &mut buf), Err(ReadError::Eof));
    }
}

#[test]
fn test_max_trailing_zeros_between() {
    fn slow(a: u32, b: u32) -> u32 {
        assert!(a < b);
        (a..b).map(|x| x.trailing_zeros()).max().unwrap()
    }

    fn meh(a: u32, b: u32) -> u32 {
        assert!(a < b);

        if a == 0 {
            return 32;
        }

        for i in (0..32).rev() {
            let x = (b - 1) >> i << i;
            if x >= a && x < b {
                return i;
            }
        }
        0
    }

    // Test slow matches meh and fast.
    for a in 0..100 {
        for b in a + 1..100 {
            assert_eq!(slow(a, b), max_trailing_zeros_between(a, b), "failed at {} {}", a, b);
            assert_eq!(slow(a, b), meh(a, b), "failed at {} {}", a, b);
        }
    }

    // Test meh matches fast, for bigger numbers.
    let interesting = [
        0x0000_0000,
        0x0000_0001,
        0x0000_0002,
        0x3FFF_FFFE,
        0x3FFF_FFFF,
        0x4000_0000,
        0x4000_0001,
        0x7FFF_FFFE,
        0x7FFF_FFFF,
        0x8000_0000,
        0x8000_0001,
        0xBFFF_FFFE,
        0xBFFF_FFFF,
        0xC000_0000,
        0xC000_0001,
        0xFFFF_FFFE,
        0x7FFF_FFFF,
    ];

    for a in interesting {
        for b in interesting {
            if a < b {
                assert_eq!(meh(a, b), max_trailing_zeros_between(a, b), "failed at {} {}", a, b);
            }
        }
    }
}