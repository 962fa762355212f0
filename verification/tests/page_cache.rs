use segstore::page::{Page, PageCacheManager};

#[test]
fn pages_write_at_the_watermark_and_read_back() {
    let mut page = Page::new(0, 1, 16);
    assert_eq!(page.watermark(), 0);
    assert!(page.dirty());
    let off = page.write(&[1, 2, 3]);
    assert_eq!(off, 0);
    assert_eq!(page.watermark(), 3);
    let off = page.write(&[4, 5]);
    assert_eq!(off, 3);
    assert_eq!(page.read(0, 5), &[1, 2, 3, 4, 5]);
    assert_eq!(page.read(5, 11), &[0u8; 11]);
}

#[test]
fn opened_pages_start_clean() {
    let page = Page::open(3, &[9, 9, 0, 0], 1, 2);
    assert!(!page.dirty());
    assert_eq!(page.watermark(), 2);
    assert_eq!(page.read(0, 2), &[9, 9]);
}

#[test]
fn resident_pages_never_exceed_the_capacity() {
    let mut cache = PageCacheManager::new(Vec::new(), 16, 2, (0, 0));
    assert_eq!(cache.resident_count(), 0);
    for i in 0..5u8 {
        cache.write(&[i + 1; 10]).unwrap();
        assert!(cache.resident_count() <= 2);
    }
}

#[test]
fn eviction_takes_the_least_recently_used_page() {
    let mut cache = PageCacheManager::new(Vec::new(), 16, 2, (0, 0));
    cache.write(&[1u8; 10]).unwrap();
    cache.write(&[2u8; 10]).unwrap();
    assert!(cache.is_resident(0));
    assert!(cache.is_resident(1));
    cache.write(&[3u8; 10]).unwrap();
    assert!(!cache.is_resident(0));
    assert!(cache.is_resident(1));
    assert!(cache.is_resident(2));
}

#[test]
fn reading_an_evicted_page_reloads_the_right_bytes() {
    let mut cache = PageCacheManager::new(Vec::new(), 16, 2, (0, 0));
    cache.write(&[1u8; 10]).unwrap();
    cache.write(&[2u8; 10]).unwrap();
    cache.write(&[3u8; 10]).unwrap();
    assert!(!cache.is_resident(0));
    assert_eq!(cache.read(0, 10), vec![1u8; 10]);
    assert_eq!(cache.read(16, 10), vec![2u8; 10]);
    assert_eq!(cache.read(32, 10), vec![3u8; 10]);
}

#[test]
fn a_dirty_page_reaches_the_file_before_it_is_evicted() {
    let mut cache = PageCacheManager::new(Vec::new(), 16, 2, (0, 0));
    // fill page 0, then append into it so it is dirty and unflushed
    let (o, _, _) = cache.write(&[1, 2, 3]).unwrap();
    assert_eq!(o, 0);
    let (o, _, _) = cache.write(&[4, 5]).unwrap();
    assert_eq!(o, 3);
    // two fresh pages force page 0 out
    cache.write(&[7u8; 16]).unwrap();
    cache.write(&[8u8; 16]).unwrap();
    assert!(!cache.is_resident(0));
    // its appended bytes must have been flushed on the way out
    assert_eq!(cache.read(0, 5), vec![1, 2, 3, 4, 5]);
}

#[test]
fn appends_resume_after_the_recovered_extent() {
    let mut file = vec![0u8; 16];
    file[0] = 1;
    file[1] = 2;
    file[2] = 3;
    let mut cache = PageCacheManager::new(file, 16, 2, (0, 3));
    let (o, tail, s) = cache.write(&[4, 5]).unwrap();
    assert_eq!((o, tail, s), (3, 5, 2));
    assert_eq!(cache.read(0, 5), vec![1, 2, 3, 4, 5]);
}

#[test]
fn writes_larger_than_a_page_are_refused() {
    let mut cache = PageCacheManager::new(Vec::new(), 16, 2, (0, 0));
    let err = cache.write(&[1u8; 17]).unwrap_err();
    assert_eq!(err, segstore::StoreError::CapacityExceeded);
}

#[test]
fn flush_all_writes_every_dirty_page_out() {
    let mut cache = PageCacheManager::new(Vec::new(), 16, 4, (0, 0));
    cache.write(&[1, 2, 3]).unwrap();
    cache.write(&[4, 5]).unwrap();
    cache.flush_all();
    let page = cache.get_page(0);
    assert!(!page.dirty());
    let bytes = cache.into_file_bytes();
    assert_eq!(&bytes[0..5], &[1, 2, 3, 4, 5]);
}
