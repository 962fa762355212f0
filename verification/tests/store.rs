use segstore::journal::LogFile;
use segstore::storage::{Disk, SegmentStore};
use segstore::StoreError;

fn empty_disk() -> Disk {
    Disk { segment: Vec::new(), wal_files: Vec::new(), wal_index: 0 }
}

#[test]
fn single_write_read_back() {
    let mut store = SegmentStore::new(empty_disk(), 16, 2, 64).unwrap();
    let extent = store.write(b"a".to_vec(), &[1, 2, 3]).unwrap();
    assert_eq!(extent, (0, 3));
    let bufs = store.read_bytes(b"a").unwrap();
    assert_eq!(bufs, vec![vec![1u8, 2, 3]]);
    let disk = store.close();
    assert_eq!(&disk.segment[0..3], &[1u8, 2, 3]);
    assert_eq!(&disk.segment[3..16], &[0u8; 13]);
}

#[test]
fn two_writes_same_page() {
    let mut store = SegmentStore::new(empty_disk(), 16, 2, 64).unwrap();
    assert_eq!(store.write(b"a".to_vec(), &[1, 2, 3]).unwrap(), (0, 3));
    assert_eq!(store.write(b"b".to_vec(), &[4, 5]).unwrap(), (3, 2));
    assert_eq!(store.read_bytes(b"a").unwrap(), vec![vec![1u8, 2, 3]]);
    assert_eq!(store.read_bytes(b"b").unwrap(), vec![vec![4u8, 5]]);
    let disk = store.close();
    assert_eq!(disk.wal_files.len(), 1);
    assert_eq!(disk.wal_files[0].contents, b"a,0,3\nb,3,2\n".to_vec());
}

#[test]
fn overflow_to_new_page() {
    let mut store = SegmentStore::new(empty_disk(), 16, 2, 64).unwrap();
    let first = store.write(b"a".to_vec(), &[7u8; 10]).unwrap();
    let second = store.write(b"b".to_vec(), &[9u8; 10]).unwrap();
    assert_eq!(first, (0, 10));
    assert_eq!(second, (16, 10));
    assert_eq!(store.read_bytes(b"a").unwrap(), vec![vec![7u8; 10]]);
    assert_eq!(store.read_bytes(b"b").unwrap(), vec![vec![9u8; 10]]);
}

#[test]
fn extents_never_cross_page_boundaries() {
    let mut store = SegmentStore::new(empty_disk(), 16, 2, 4096).unwrap();
    let sizes: [usize; 6] = [10, 10, 3, 3, 15, 1];
    for (i, size) in sizes.iter().enumerate() {
        let term = vec![b'a' + i as u8];
        let (o, s) = store.write(term, &vec![i as u8 + 1; *size]).unwrap();
        assert_eq!(s, *size);
        assert_eq!(o / 16, (o + s - 1) / 16);
    }
}

#[test]
fn recovery_after_clean_restart() {
    let mut store = SegmentStore::new(empty_disk(), 16, 2, 64).unwrap();
    store.write(b"a".to_vec(), &[1, 2, 3]).unwrap();
    store.write(b"b".to_vec(), &[4, 5]).unwrap();
    let disk = store.close();
    let mut reopened = SegmentStore::new(disk, 16, 2, 64).unwrap();
    assert_eq!(reopened.read_bytes(b"a").unwrap(), vec![vec![1u8, 2, 3]]);
    assert_eq!(reopened.read_bytes(b"b").unwrap(), vec![vec![4u8, 5]]);
}

#[test]
fn repeated_writes_to_one_term_read_back_in_order() {
    let mut store = SegmentStore::new(empty_disk(), 16, 2, 4096).unwrap();
    store.write(b"a".to_vec(), &[1]).unwrap();
    store.write(b"b".to_vec(), &[9, 9]).unwrap();
    store.write(b"a".to_vec(), &[2, 2]).unwrap();
    store.write(b"a".to_vec(), &[3, 3, 3]).unwrap();
    assert_eq!(store.read_bytes(b"a").unwrap(), vec![vec![1u8], vec![2, 2], vec![3, 3, 3]]);
}

#[test]
fn recovery_survives_many_pages_and_terms() {
    let mut store = SegmentStore::new(empty_disk(), 16, 2, 4096).unwrap();
    let mut expect: Vec<(Vec<u8>, Vec<Vec<u8>>)> = Vec::new();
    for i in 0..12u8 {
        let term = vec![b'a' + (i % 4)];
        let data = vec![i + 1; 5 + (i as usize % 7)];
        store.write(term.clone(), &data).unwrap();
        match expect.iter_mut().find(|e| e.0 == term) {
            Some(e) => e.1.push(data),
            None => expect.push((term, vec![data])),
        }
    }
    let disk = store.close();
    let mut reopened = SegmentStore::new(disk, 16, 2, 4096).unwrap();
    for (term, bufs) in expect {
        assert_eq!(reopened.read_bytes(&term).unwrap(), bufs);
    }
}

#[test]
fn unclean_restart_keeps_only_fully_recorded_extents() {
    // The process died while recording the second write: the segment holds
    // both payloads, but the second record lost its tail. Recovery returns
    // the first extent and never the truncated one.
    let mut segment = vec![0u8; 16];
    segment[0] = 1;
    segment[1] = 2;
    segment[2] = 3;
    segment[3] = 4;
    segment[4] = 5;
    let disk = Disk {
        segment,
        wal_files: vec![LogFile { file_index: 0, contents: b"a,0,3\nb,3,".to_vec() }],
        wal_index: 1,
    };
    let mut store = SegmentStore::new(disk, 16, 2, 64).unwrap();
    assert_eq!(store.read_bytes(b"a").unwrap(), vec![vec![1u8, 2, 3]]);
    assert_eq!(store.read_bytes(b"b").unwrap_err(), StoreError::NotFound);
    // appends resume where the last recorded extent ended
    assert_eq!(store.write(b"c".to_vec(), &[8, 8]).unwrap(), (3, 2));
}

#[test]
fn corrupt_records_are_skipped_during_replay() {
    let disk = Disk {
        segment: vec![1u8, 2, 3, 0, 0, 0, 0, 0, 9, 9, 0, 0, 0, 0, 0, 0],
        wal_files: vec![LogFile {
            file_index: 0,
            contents: b"not a record\na,0,3\nb\nc,8,2\n".to_vec(),
        }],
        wal_index: 1,
    };
    let mut store = SegmentStore::new(disk, 16, 2, 64).unwrap();
    assert_eq!(store.read_bytes(b"a").unwrap(), vec![vec![1u8, 2, 3]]);
    assert_eq!(store.read_bytes(b"c").unwrap(), vec![vec![9u8, 9]]);
    assert_eq!(store.read_bytes(b"not a record").unwrap_err(), StoreError::NotFound);
}

#[test]
fn impossible_geometry_refuses_to_start() {
    // An extent that crosses a page no store could have written.
    let disk = Disk {
        segment: vec![0u8; 64],
        wal_files: vec![LogFile { file_index: 0, contents: b"a,10,20\n".to_vec() }],
        wal_index: 1,
    };
    let err = match SegmentStore::new(disk, 16, 2, 64) {
        Ok(_) => panic!("a crossing extent must refuse to open"),
        Err(e) => e,
    };
    assert_eq!(err, StoreError::CorruptRecord);
}

#[test]
fn oversized_payload_is_refused() {
    let mut store = SegmentStore::new(empty_disk(), 16, 2, 64).unwrap();
    let err = store.write(b"a".to_vec(), &[1u8; 17]).unwrap_err();
    assert_eq!(err, StoreError::CapacityExceeded);
    assert_eq!(store.read_bytes(b"a").unwrap_err(), StoreError::NotFound);
}

#[test]
fn failed_record_leaves_no_extent_behind() {
    // The record would not fit one log file, so the write is refused and
    // the term map shows nothing for the term.
    let mut store = SegmentStore::new(empty_disk(), 16, 2, 8).unwrap();
    let err = store.write(b"averylongterm".to_vec(), &[1, 2]).unwrap_err();
    assert_eq!(err, StoreError::CapacityExceeded);
    assert_eq!(store.read_bytes(b"averylongterm").unwrap_err(), StoreError::NotFound);
    let disk = store.close();
    assert_eq!(disk.wal_files[0].contents, Vec::<u8>::new());
}

#[test]
fn reading_an_unknown_term_is_not_found() {
    let mut store = SegmentStore::new(empty_disk(), 16, 2, 64).unwrap();
    assert_eq!(store.read_bytes(b"missing").unwrap_err(), StoreError::NotFound);
}

#[test]
fn wal_rotation_through_the_store() {
    let mut store = SegmentStore::new(empty_disk(), 16, 4, 32).unwrap();
    for i in 0..8u8 {
        let term = vec![b'a' + i];
        store.write(term, &[i + 1; 4]).unwrap();
    }
    let disk = store.close();
    assert!(disk.wal_files.len() >= 2);
    assert_eq!(disk.wal_files[0].file_index, 0);
    assert_eq!(disk.wal_files[1].file_index, 1);
    for f in &disk.wal_files {
        assert!(f.contents.len() <= 32);
    }
    let mut reopened = SegmentStore::new(disk, 16, 4, 32).unwrap();
    for i in 0..8u8 {
        let term = vec![b'a' + i];
        assert_eq!(reopened.read_bytes(&term).unwrap(), vec![vec![i + 1; 4]]);
    }
}

#[test]
fn sync_pushes_committed_bytes_to_the_file() {
    let mut store = SegmentStore::new(empty_disk(), 16, 2, 64).unwrap();
    store.write(b"a".to_vec(), &[1, 2, 3]).unwrap();
    store.write(b"b".to_vec(), &[4, 5]).unwrap();
    store.sync();
    let disk = store.close();
    assert_eq!(&disk.segment[0..5], &[1u8, 2, 3, 4, 5]);
}
