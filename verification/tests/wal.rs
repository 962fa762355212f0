use segstore::journal::{LogFile, WAL};

#[test]
pub fn test_wal() {
    let mut wal = WAL::new(4096, 0);
    let _ = wal.log(b"this is first record");
    let _ = wal.log(b"this is second record");
    let _ = wal.log(b"this is third record");
    let _ = wal.log(b"this is fourth record");

    let _ = wal.log(b"this is fifth record");
    let _ = wal.log(b"this is sixth record");
    let _ = wal.log(b"this is seventh record");
    let _ = wal.log(b"this is eighth record");

    let result = wal.read_records();
    println!("result: {result:?}");
}

#[test]
fn records_come_back_in_order() {
    let mut wal = WAL::new(4096, 0);
    wal.log(b"a,0,3").unwrap();
    wal.log(b"b,3,2").unwrap();
    wal.log(b"c,5,1").unwrap();
    let records = wal.read_records();
    assert_eq!(records, vec![b"a,0,3".to_vec(), b"b,3,2".to_vec(), b"c,5,1".to_vec()]);
}

#[test]
fn rotation_keeps_files_under_the_limit() {
    // Each record is 5 bytes plus a newline; a 32-byte limit holds five of
    // them, so the sixth record must open wal1.log.
    let mut wal = WAL::new(32, 0);
    let records: Vec<Vec<u8>> = (0..8u8).map(|i| vec![b'a' + i, b',', b'1', b',', b'2']).collect();
    for r in &records {
        wal.log(r).unwrap();
    }
    let read = wal.read_records();
    assert_eq!(read, records);
    let (files, next_index) = wal.into_parts();
    assert!(files.len() >= 2);
    assert_eq!(files[0].file_index, 0);
    assert_eq!(files[1].file_index, 1);
    assert_eq!(next_index as usize, files.len());
    for f in &files {
        assert!(f.contents.len() <= 32);
    }
}

#[test]
fn reopened_log_returns_all_records_in_order() {
    let mut wal = WAL::new(32, 0);
    let records: Vec<Vec<u8>> = (0..8u8).map(|i| vec![b'a' + i, b',', b'1', b',', b'2']).collect();
    for r in &records {
        wal.log(r).unwrap();
    }
    let (files, next_index) = wal.into_parts();
    let wal2 = WAL::open(files, 32, next_index);
    assert_eq!(wal2.read_records(), records);
}

#[test]
fn oversized_record_is_refused_not_split() {
    let mut wal = WAL::new(8, 0);
    let err = wal.log(b"long,1000000,2000000").unwrap_err();
    assert_eq!(err, segstore::StoreError::CapacityExceeded);
    assert_eq!(wal.read_records(), Vec::<Vec<u8>>::new());
}

#[test]
fn truncated_tail_is_dropped_on_open() {
    // A crash left the current file with one complete record and the first
    // bytes of a second; recovery keeps the complete one only.
    let files = vec![LogFile { file_index: 0, contents: b"a,0,3\nb,3,".to_vec() }];
    let wal = WAL::open(files, 4096, 1);
    assert_eq!(wal.read_records(), vec![b"a,0,3".to_vec()]);
}

#[test]
fn find_last_extent_takes_the_greatest_offset() {
    let mut wal = WAL::new(4096, 0);
    wal.log(b"a,0,3").unwrap();
    wal.log(b"b,3,2").unwrap();
    wal.log(b"a,5,4").unwrap();
    assert_eq!(wal.find_last_page_last_written_offset(), (5, 4));
}

#[test]
fn find_last_extent_breaks_ties_by_size() {
    let files = vec![LogFile { file_index: 0, contents: b"a,5,1\nb,5,4\nc,5,2\n".to_vec() }];
    let wal = WAL::open(files, 4096, 1);
    assert_eq!(wal.find_last_page_last_written_offset(), (5, 4));
}

#[test]
fn find_last_extent_of_empty_log_is_zero() {
    let wal = WAL::new(4096, 0);
    assert_eq!(wal.find_last_page_last_written_offset(), (0, 0));
}

#[test]
fn unparsable_records_do_not_move_the_last_extent() {
    let files = vec![LogFile {
        file_index: 0,
        contents: b"a,1,2\nnot a record\nb,9\nc,99999999999999999999999999,1\n".to_vec(),
    }];
    let wal = WAL::open(files, 4096, 1);
    assert_eq!(wal.find_last_page_last_written_offset(), (1, 2));
}
