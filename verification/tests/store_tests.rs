//! The compute-side buffer pool, the MTR builder, page materialization and
//! the storage-side page cache.

use mini_aurora::buffer_pool::BufferPool;
use mini_aurora::common::{empty_page, PageId, RedoRecord, PAGE_SIZE};
use mini_aurora::materialize::materialize_page;
use mini_aurora::page_cache::PageCache;
use mini_aurora::transaction::MiniTransaction;

#[test]
fn test_miss_on_empty() {
    let mut pool = BufferPool::new(10);
    assert!(pool.get(1, 1).is_none());
}

#[test]
fn test_hit() {
    let mut pool = BufferPool::new(10);
    let mut page = empty_page();
    page[0] = 0xAB;
    pool.insert(1, 5, page);

    let result = pool.get(1, 5);
    assert!(result.is_some());
    assert_eq!(result.unwrap()[0], 0xAB);
}

#[test]
fn test_stale_read_point_misses() {
    let mut pool = BufferPool::new(10);
    pool.insert(1, 5, empty_page());

    assert!(pool.get(1, 10).is_none());
    assert!(pool.get(1, 3).is_some());
    assert!(pool.get(1, 5).is_some());
}

#[test]
fn test_invalidate() {
    let mut pool = BufferPool::new(10);
    pool.insert(1, 5, empty_page());
    assert!(pool.get(1, 5).is_some());

    pool.invalidate(1);
    assert!(pool.get(1, 5).is_none());
}

#[test]
fn buffer_pool_test_eviction() {
    let mut pool = BufferPool::new(2);
    pool.insert(1, 1, empty_page());
    pool.insert(2, 1, empty_page());

    pool.get(2, 1);
    pool.get(2, 1);

    pool.insert(3, 1, empty_page());

    assert!(pool.get(1, 1).is_none());
    assert!(pool.get(2, 1).is_some());
    assert!(pool.get(3, 1).is_some());
}

#[test]
fn test_empty_mtr() {
    let mtr = MiniTransaction::new(1);
    assert!(mtr.finish().is_none());
}

#[test]
fn test_single_write() {
    let mut mtr = MiniTransaction::new(1);
    mtr.write(42, 0, vec![0xAA]);
    let records = mtr.finish().unwrap();
    assert_eq!(records.len(), 1);
    assert!(records[0].is_mtr_end);
    assert_eq!(records[0].mtr_id, 1);
}

#[test]
fn test_multi_write_mtr() {
    let mut mtr = MiniTransaction::new(7);
    mtr.write(1, 0, vec![0x01]);
    mtr.write(2, 0, vec![0x02]);
    mtr.write(3, 0, vec![0x03]);

    let records = mtr.finish().unwrap();
    assert_eq!(records.len(), 3);
    assert!(!records[0].is_mtr_end);
    assert!(!records[1].is_mtr_end);
    assert!(records[2].is_mtr_end);
    for r in &records {
        assert_eq!(r.mtr_id, 7);
    }
}

fn make_redo(lsn: u64, page_id: PageId, offset: u16, data: Vec<u8>, prev_lsn: u64) -> RedoRecord {
    RedoRecord { lsn, page_id, offset, data, prev_lsn, mtr_id: 1, is_mtr_end: true }
}

#[test]
fn test_single_record() {
    let records = vec![make_redo(1, 1, 0, vec![0xAA, 0xBB, 0xCC], 0)];
    let page = materialize_page(1, &records).unwrap();
    assert_eq!(page[0], 0xAA);
    assert_eq!(page[1], 0xBB);
    assert_eq!(page[2], 0xCC);
    assert_eq!(page[3], 0x00);
}

#[test]
fn materialize_test_multiple_records_compose() {
    let records = vec![
        make_redo(1, 1, 0, vec![0x11, 0x22], 0),
        make_redo(2, 1, 4, vec![0x33, 0x44], 1),
        make_redo(3, 1, 0, vec![0xFF], 2),
    ];
    let page = materialize_page(1, &records).unwrap();
    assert_eq!(page[0], 0xFF);
    assert_eq!(page[1], 0x22);
    assert_eq!(page[4], 0x33);
    assert_eq!(page[5], 0x44);
}

#[test]
fn test_write_at_end_of_page() {
    let records = vec![make_redo(1, 1, (PAGE_SIZE - 2) as u16, vec![0xEE, 0xFF], 0)];
    let page = materialize_page(1, &records).unwrap();
    assert_eq!(page[PAGE_SIZE - 2], 0xEE);
    assert_eq!(page[PAGE_SIZE - 1], 0xFF);
}

#[test]
fn materialize_test_overflow_rejected() {
    let records = vec![make_redo(1, 1, (PAGE_SIZE - 1) as u16, vec![0xAA, 0xBB], 0)];
    let result = materialize_page(1, &records);
    assert!(result.is_err());
}

#[test]
fn test_empty_chain_returns_zeroed_page() {
    let page = materialize_page(1, &Vec::new()).unwrap();
    assert_eq!(page, empty_page());
}

#[test]
fn test_cache_miss() {
    let mut cache = PageCache::new(100);
    assert!(cache.get(1, 1).is_none());
}

#[test]
fn test_cache_hit() {
    let mut cache = PageCache::new(100);
    let mut page = empty_page();
    page[0] = 0xAB;

    cache.insert(1, 5, &page);

    let retrieved = cache.get(1, 5).unwrap();
    assert_eq!(retrieved[0], 0xAB);
}

#[test]
fn test_different_lsns_are_separate() {
    let mut cache = PageCache::new(100);
    let mut page_v1 = empty_page();
    page_v1[0] = 0x01;
    let mut page_v2 = empty_page();
    page_v2[0] = 0x02;

    cache.insert(1, 5, &page_v1);
    cache.insert(1, 10, &page_v2);

    assert_eq!(cache.get(1, 5).unwrap()[0], 0x01);
    assert_eq!(cache.get(1, 10).unwrap()[0], 0x02);
}

#[test]
fn page_cache_test_eviction() {
    let mut cache = PageCache::new(2);
    let page = empty_page();

    cache.insert(1, 1, &page);
    cache.insert(2, 1, &page);
    cache.insert(3, 1, &page);

    assert!(cache.get(3, 1).is_some());
}
