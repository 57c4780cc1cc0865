//! The storage engine and the compute engine, over both backends.

use mini_aurora::common::{RedoRecord, StorageError};
use mini_aurora::compute::ComputeEngine;
use mini_aurora::config::{StoragePreset, TieredConfig};
use mini_aurora::engine::StorageEngine;

fn new_engine() -> StorageEngine {
    StorageEngine::open(Vec::new()).unwrap()
}

fn new_tiered_engine() -> StorageEngine {
    let config = TieredConfig { segment_size_bytes: 64 * 1024, cold_latency_ms: 0 };
    StorageEngine::open_with_preset(StoragePreset::Tiered(config)).unwrap()
}

fn record(page_id: u64, offset: u16, data: Vec<u8>, mtr_id: u64, is_mtr_end: bool) -> RedoRecord {
    RedoRecord { lsn: 0, page_id, offset, data, prev_lsn: 0, mtr_id, is_mtr_end }
}

#[test]
fn test_write_and_read_single_page() {
    let mut engine = new_engine();

    let records = vec![record(1, 0, vec![0xDE, 0xAD, 0xBE, 0xEF], 1, true)];

    let vdl = engine.append_redo(records).unwrap();
    assert_eq!(vdl, 1);

    let page = engine.get_page(1, 1).unwrap();
    assert_eq!(&page[0..4], &[0xDE, 0xAD, 0xBE, 0xEF]);
    assert_eq!(page[4], 0);
}

#[test]
fn test_multiple_records_same_page() {
    let mut engine = new_engine();

    engine.append_redo(vec![record(1, 0, vec![0x11, 0x22], 1, true)]).unwrap();
    let vdl = engine.append_redo(vec![record(1, 4, vec![0x33, 0x44], 2, true)]).unwrap();

    let page = engine.get_page(1, vdl).unwrap();
    assert_eq!(&page[0..2], &[0x11, 0x22]);
    assert_eq!(&page[4..6], &[0x33, 0x44]);
}

#[test]
fn test_read_at_earlier_lsn() {
    let mut engine = new_engine();

    engine.append_redo(vec![record(1, 0, vec![0xAA], 1, true)]).unwrap();
    engine.append_redo(vec![record(1, 0, vec![0xBB], 2, true)]).unwrap();

    let page_v1 = engine.get_page(1, 1).unwrap();
    assert_eq!(page_v1[0], 0xAA);

    let page_v2 = engine.get_page(1, 2).unwrap();
    assert_eq!(page_v2[0], 0xBB);
}

#[test]
fn test_read_beyond_vdl_fails() {
    let mut engine = new_engine();

    engine.append_redo(vec![record(1, 0, vec![0x01], 1, true)]).unwrap();

    let result = engine.get_page(1, 100);
    assert!(matches!(result, Err(StorageError::LsnBeyondDurable { .. })));
}

#[test]
fn test_durability_state() {
    let mut engine = new_engine();

    let state = engine.get_durability_state().unwrap();
    assert_eq!(state.vcl, 0);
    assert_eq!(state.vdl, 0);

    let records = vec![
        record(1, 0, vec![1], 1, false),
        record(2, 0, vec![2], 1, true),
    ];
    engine.append_redo(records).unwrap();

    let state = engine.get_durability_state().unwrap();
    assert_eq!(state.vcl, 2);
    assert_eq!(state.vdl, 2);
}

#[test]
fn test_recovery_preserves_data() {
    let mut engine = new_engine();
    engine.append_redo(vec![record(1, 0, vec![0xCA, 0xFE], 1, true)]).unwrap();
    let bytes = engine.into_wal_bytes();

    let mut engine = StorageEngine::open(bytes).unwrap();
    let page = engine.get_page(1, 1).unwrap();
    assert_eq!(&page[0..2], &[0xCA, 0xFE]);
}

#[test]
fn test_tiered_write_and_read() {
    let mut engine = new_tiered_engine();

    let vdl = engine.append_redo(vec![record(1, 0, vec![0xDE, 0xAD, 0xBE, 0xEF], 1, true)]).unwrap();
    assert_eq!(vdl, 1);

    let page = engine.get_page(1, 1).unwrap();
    assert_eq!(&page[0..4], &[0xDE, 0xAD, 0xBE, 0xEF]);
}

#[test]
fn test_tiered_multiple_records() {
    let mut engine = new_tiered_engine();

    engine.append_redo(vec![record(1, 0, vec![0x11, 0x22], 1, true)]).unwrap();
    let vdl = engine.append_redo(vec![record(1, 4, vec![0x33, 0x44], 2, true)]).unwrap();

    let page = engine.get_page(1, vdl).unwrap();
    assert_eq!(&page[0..2], &[0x11, 0x22]);
    assert_eq!(&page[4..6], &[0x33, 0x44]);
}

#[test]
fn test_tiered_versioned_reads() {
    let mut engine = new_tiered_engine();

    engine.append_redo(vec![record(1, 0, vec![0xAA], 1, true)]).unwrap();
    engine.append_redo(vec![record(1, 0, vec![0xBB], 2, true)]).unwrap();

    let page_v1 = engine.get_page(1, 1).unwrap();
    assert_eq!(page_v1[0], 0xAA);

    let page_v2 = engine.get_page(1, 2).unwrap();
    assert_eq!(page_v2[0], 0xBB);
}

#[test]
fn test_put_and_get() {
    let mut storage = new_engine();
    let mut engine = ComputeEngine::new(100);

    engine.put(&mut storage, 1, 0, vec![0xAA, 0xBB]).unwrap();
    let page = engine.get(&mut storage, 1).unwrap();
    assert_eq!(&page[0..2], &[0xAA, 0xBB]);
}

#[test]
fn test_put_multi() {
    let mut storage = new_engine();
    let mut engine = ComputeEngine::new(100);

    engine
        .put_multi(
            &mut storage,
            vec![(1, 0, vec![0x11]), (2, 0, vec![0x22]), (3, 0, vec![0x33])],
        )
        .unwrap();

    let p1 = engine.get(&mut storage, 1).unwrap();
    let p2 = engine.get(&mut storage, 2).unwrap();
    let p3 = engine.get(&mut storage, 3).unwrap();
    assert_eq!(p1[0], 0x11);
    assert_eq!(p2[0], 0x22);
    assert_eq!(p3[0], 0x33);
}

#[test]
fn test_read_point_advances() {
    let mut storage = new_engine();
    let mut engine = ComputeEngine::new(100);

    assert_eq!(engine.read_point(), 0);

    engine.put(&mut storage, 1, 0, vec![0x01]).unwrap();
    assert_eq!(engine.read_point(), 1);

    engine.put(&mut storage, 2, 0, vec![0x02]).unwrap();
    assert_eq!(engine.read_point(), 2);
}

#[test]
fn engine_test_overflow_rejected() {
    let mut storage = new_engine();
    let mut engine = ComputeEngine::new(100);

    let result = engine.put(&mut storage, 1, mini_aurora::common::PAGE_SIZE as u16 - 1, vec![0; 2]);
    assert!(result.is_err());
}

#[test]
fn test_refresh_read_point_sees_other_sessions() {
    let mut storage = new_engine();
    let mut session_a = ComputeEngine::new(16);
    let mut session_b = ComputeEngine::new(16);

    session_a.put(&mut storage, 7, 0, vec![0x5A]).unwrap();
    assert_eq!(session_b.read_point(), 0);

    let rp = session_b.refresh_read_point(&storage).unwrap();
    assert_eq!(rp, 1);
    let page = session_b.get(&mut storage, 7).unwrap();
    assert_eq!(page[0], 0x5A);
}

#[test]
fn test_page_cache_behavior() {
    let mut storage = new_engine();
    let mut engine = ComputeEngine::new(100);

    engine.put(&mut storage, 1, 0, vec![0x77]).unwrap();
    let first = engine.get(&mut storage, 1).unwrap();
    let second = engine.get(&mut storage, 1).unwrap();
    assert_eq!(first, second);
    assert_eq!(first[0], 0x77);
}

#[test]
fn test_many_pages() {
    let mut storage = new_engine();
    let mut engine = ComputeEngine::new(100);

    for i in 1..=20u64 {
        engine.put(&mut storage, i, 0, vec![i as u8]).unwrap();
    }
    for i in 1..=20u64 {
        let page = engine.get(&mut storage, i).unwrap();
        assert_eq!(page[0], i as u8, "page {} mismatch", i);
    }
}

#[test]
fn test_restart_preserves_data() {
    let mut storage = new_engine();
    let mut engine = ComputeEngine::new(10);
    engine.put(&mut storage, 1, 0, b"persistent".to_vec()).unwrap();
    engine.put(&mut storage, 2, 0, b"data".to_vec()).unwrap();
    let bytes = storage.into_wal_bytes();

    let mut storage = StorageEngine::open(bytes).unwrap();
    let mut engine = ComputeEngine::new(10);
    engine.refresh_read_point(&storage).unwrap();
    let p1 = engine.get(&mut storage, 1).unwrap();
    let p2 = engine.get(&mut storage, 2).unwrap();
    assert_eq!(&p1[0..10], b"persistent");
    assert_eq!(&p2[0..4], b"data");
}

#[test]
fn test_interleaved_pages() {
    let mut storage = new_engine();
    let mut engine = ComputeEngine::new(100);

    engine.put(&mut storage, 1, 0, vec![0x01]).unwrap();
    engine.put(&mut storage, 2, 0, vec![0x02]).unwrap();
    engine.put(&mut storage, 1, 1, vec![0x11]).unwrap();
    engine.put(&mut storage, 2, 1, vec![0x12]).unwrap();

    let p1 = engine.get(&mut storage, 1).unwrap();
    let p2 = engine.get(&mut storage, 2).unwrap();
    assert_eq!(&p1[0..2], &[0x01, 0x11]);
    assert_eq!(&p2[0..2], &[0x02, 0x12]);
}
