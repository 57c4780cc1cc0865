//! End-to-end scenarios and boundary cases: single writes, time travel, MTR
//! atomicity, crash recovery, truncation, and segmented rotation.

use mini_aurora::common::{RedoRecord, StorageError, LOG_ENTRY_HEADER_SIZE, PAGE_SIZE};
use mini_aurora::compute::ComputeEngine;
use mini_aurora::config::TieredConfig;
use mini_aurora::engine::StorageEngine;
use mini_aurora::recovery::recover;
use mini_aurora::writer::WalWriter;

fn record(page_id: u64, offset: u16, data: Vec<u8>, mtr_id: u64, is_mtr_end: bool) -> RedoRecord {
    RedoRecord { lsn: 0, page_id, offset, data, prev_lsn: 0, mtr_id, is_mtr_end }
}

#[test]
fn test_write_at_page_end_succeeds() {
    let mut storage = StorageEngine::open(Vec::new()).unwrap();
    let mut compute = ComputeEngine::new(16);
    // offset 8190, len 2: exactly reaches the page end.
    let r = compute.put(&mut storage, 1, 8190, vec![0xAB, 0xCD]);
    assert!(r.is_ok());
    let page = compute.get(&mut storage, 1).unwrap();
    assert_eq!(page[8190], 0xAB);
    assert_eq!(page[8191], 0xCD);
}

#[test]
fn test_write_past_page_end_rejected_before_io() {
    let mut storage = StorageEngine::open(Vec::new()).unwrap();
    let mut compute = ComputeEngine::new(16);
    // offset 8191, len 2: one byte too far.
    let r = compute.put(&mut storage, 1, 8191, vec![0xAB, 0xCD]);
    assert!(matches!(r, Err(StorageError::PageOverflow { offset: 8191, len: 2 })));
    // Nothing was written: the watermarks are untouched.
    let state = storage.get_durability_state().unwrap();
    assert_eq!(state.vcl, 0);
    assert_eq!(state.vdl, 0);
}

#[test]
fn test_single_write_and_read() {
    let mut storage = StorageEngine::open(Vec::new()).unwrap();
    let mut compute = ComputeEngine::new(16);

    let vdl = compute.put(&mut storage, 1, 0, vec![0xDE, 0xAD, 0xBE, 0xEF]).unwrap();
    assert_eq!(vdl, 1);

    let page = compute.get(&mut storage, 1).unwrap();
    assert_eq!(&page[0..4], &[0xDE, 0xAD, 0xBE, 0xEF]);
    for i in 4..PAGE_SIZE {
        assert_eq!(page[i], 0x00);
    }
}

#[test]
fn test_overwrite_and_time_travel() {
    let mut storage = StorageEngine::open(Vec::new()).unwrap();
    let mut compute = ComputeEngine::new(16);

    compute.put(&mut storage, 1, 0, vec![0xAA]).unwrap();
    let vdl = compute.put(&mut storage, 1, 0, vec![0xBB]).unwrap();
    assert_eq!(vdl, 2);

    let old = compute.get_at(&mut storage, 1, 1).unwrap();
    assert_eq!(old[0], 0xAA);
    let new = compute.get_at(&mut storage, 1, 2).unwrap();
    assert_eq!(new[0], 0xBB);
}

#[test]
fn test_mtr_atomicity() {
    let mut storage = StorageEngine::open(Vec::new()).unwrap();
    let mut compute = ComputeEngine::new(16);

    let vdl = compute
        .put_multi(
            &mut storage,
            vec![
                (3, 0, b"Page Three".to_vec()),
                (4, 0, b"Page Four".to_vec()),
                (5, 0, b"Page Five".to_vec()),
            ],
        )
        .unwrap();
    assert_eq!(vdl, 3);

    let p3 = compute.get_at(&mut storage, 3, vdl).unwrap();
    let p4 = compute.get_at(&mut storage, 4, vdl).unwrap();
    let p5 = compute.get_at(&mut storage, 5, vdl).unwrap();
    assert_eq!(&p3[0..10], b"Page Three");
    assert_eq!(&p4[0..9], b"Page Four");
    assert_eq!(&p5[0..9], b"Page Five");

    // Before the MTR nothing of it is visible.
    let mut fresh = ComputeEngine::new(16);
    assert!(matches!(
        fresh.get_at(&mut storage, 3, 0),
        Err(StorageError::PageNotFound { .. })
    ));
}

#[test]
fn test_crash_mid_mtr_recovery() {
    // A complete MTR (LSNs 1, 2 with 2 as CPL), then one record with LSN 3
    // that closes nothing; reopen.
    let mut engine = StorageEngine::open(Vec::new()).unwrap();
    engine
        .append_redo(vec![
            record(10, 0, vec![0x01], 1, false),
            record(11, 0, vec![0x02], 1, true),
        ])
        .unwrap();
    engine.append_redo(vec![record(12, 0, vec![0x03], 2, false)]).unwrap();
    let mut bytes = engine.into_wal_bytes();

    // The recovery report observes VCL = 3 but keeps only the durable prefix.
    let report = recover(&mut bytes.clone()).unwrap();
    assert_eq!(report.durability.vcl, 3);
    assert_eq!(report.durability.vdl, 2);
    assert_eq!(report.lsn_offsets.len(), 2);
    assert!(report.lsn_offsets.contains_key(&1));
    assert!(report.lsn_offsets.contains_key(&2));

    let mut reopened = StorageEngine::open(bytes).unwrap();
    assert_eq!(reopened.current_vdl(), 2);
    assert!(matches!(
        reopened.get_page(12, 2),
        Err(StorageError::PageNotFound { .. })
    ));
    assert!(reopened.get_page(11, 2).is_ok());
}

#[test]
fn test_truncation_mid_record() {
    // Records A then B; cut the bytes 10 into B's payload.
    let a = RedoRecord {
        lsn: 1, page_id: 1, offset: 0, data: vec![0xAA; 20], prev_lsn: 0, mtr_id: 1, is_mtr_end: true,
    };
    let b = RedoRecord {
        lsn: 2, page_id: 2, offset: 0, data: vec![0xBB; 30], prev_lsn: 0, mtr_id: 2, is_mtr_end: true,
    };
    let mut writer = WalWriter::open(Vec::new());
    writer.append(&a);
    writer.append(&b);
    let mut bytes = writer.into_bytes();
    let a_size = LOG_ENTRY_HEADER_SIZE + 20;
    bytes.truncate(a_size + LOG_ENTRY_HEADER_SIZE + 10);

    let result = recover(&mut bytes).unwrap();
    assert_eq!(result.durability.vcl, 1);
    assert_eq!(result.durability.vdl, 1);
    // Only A's bytes survive on disk.
    assert_eq!(bytes.len(), a_size);
}

#[test]
fn test_segmented_rotation_preserves_reads() {
    let config = TieredConfig { segment_size_bytes: 512, cold_latency_ms: 0 };
    let mut tiered = StorageEngine::open_tiered(config).unwrap();
    let mut single = StorageEngine::open(Vec::new()).unwrap();
    let mut ct = ComputeEngine::new(64);
    let mut cs = ComputeEngine::new(64);

    for i in 0..30u64 {
        let pid = (i % 5) + 1;
        let data = format!("data-{}", i).into_bytes();
        ct.put(&mut tiered, pid, 0, data.clone()).unwrap();
        cs.put(&mut single, pid, 0, data).unwrap();
    }

    let state = tiered.get_durability_state().unwrap();
    assert!(state.vcl >= 30, "VCL should be at least 30, got {}", state.vcl);
    assert!(state.vdl >= 30, "VDL should be at least 30, got {}", state.vdl);

    // A chain that spans segments reads the same as in the single-file store.
    for pid in 1..=5u64 {
        let pt = ct.get(&mut tiered, pid).unwrap();
        let ps = cs.get(&mut single, pid).unwrap();
        assert_eq!(pt, ps, "Page {} should read back identically", pid);
        assert!(pt.iter().any(|b| *b != 0), "Page {} should not be empty", pid);
    }
}

#[test]
fn test_tiered_atomic_multi_page() {
    let config = TieredConfig { segment_size_bytes: 2048, cold_latency_ms: 0 };
    let mut storage = StorageEngine::open_tiered(config).unwrap();
    let mut compute = ComputeEngine::new(16);

    compute
        .put_multi(
            &mut storage,
            vec![
                (10, 0, b"Page Ten".to_vec()),
                (11, 0, b"Page Eleven".to_vec()),
                (12, 0, b"Page Twelve".to_vec()),
            ],
        )
        .unwrap();

    assert_eq!(&compute.get(&mut storage, 10).unwrap()[0..8], b"Page Ten");
    assert_eq!(&compute.get(&mut storage, 11).unwrap()[0..11], b"Page Eleven");
    assert_eq!(&compute.get(&mut storage, 12).unwrap()[0..11], b"Page Twelve");
}

#[test]
fn test_tiered_overwrite_across_segments() {
    let config = TieredConfig { segment_size_bytes: 512, cold_latency_ms: 0 };
    let mut storage = StorageEngine::open_tiered(config).unwrap();
    let mut compute = ComputeEngine::new(16);

    for i in 0..20u64 {
        let data = format!("version-{:03}", i).into_bytes();
        compute.put(&mut storage, 11, 0, data).unwrap();
    }

    let page = compute.get(&mut storage, 11).unwrap();
    assert_eq!(&page[0..11], b"version-019");
}

#[test]
fn test_tiered_read_isolation() {
    let config = TieredConfig { segment_size_bytes: 2048, cold_latency_ms: 0 };
    let mut storage = StorageEngine::open_tiered(config).unwrap();
    let mut session_a = ComputeEngine::new(16);
    let mut session_b = ComputeEngine::new(16);

    session_a.put(&mut storage, 256, 0, b"from-A".to_vec()).unwrap();

    // B has not refreshed: it still reads at its old point and sees nothing.
    assert!(session_b.get(&mut storage, 256).is_err());
    session_b.refresh_read_point(&storage).unwrap();
    let page = session_b.get(&mut storage, 256).unwrap();
    assert_eq!(&page[0..6], b"from-A");
}

#[test]
fn test_append_then_reopen_round_trip() {
    // The recovered VDL is the highest CPL of what was appended, and the
    // engine restarts with VCL equal to it.
    let mut engine = StorageEngine::open(Vec::new()).unwrap();
    engine
        .append_redo(vec![
            record(1, 0, vec![0x01], 1, false),
            record(2, 0, vec![0x02], 1, true),
            record(3, 0, vec![0x03], 2, true),
        ])
        .unwrap();
    let bytes = engine.into_wal_bytes();

    let reopened = StorageEngine::open(bytes).unwrap();
    let state = reopened.get_durability_state().unwrap();
    assert_eq!(state.vdl, 3);
    assert_eq!(state.vcl, 3);
}

#[test]
fn test_codec_round_trip() {
    // Encoding a record and decoding the bytes yields the original record
    // with a checksum that checks out.
    let original = RedoRecord {
        lsn: 9, page_id: 77, offset: 123, data: vec![1, 2, 3, 4, 5],
        prev_lsn: 4, mtr_id: 6, is_mtr_end: true,
    };
    let mut writer = WalWriter::open(Vec::new());
    writer.append(&original);
    let bytes = writer.into_bytes();

    let mut reader = mini_aurora::reader::WalReader::open(&bytes);
    match reader.read_entry() {
        mini_aurora::reader::ReadResult::Entry(hdr, data) => {
            assert_eq!(hdr.lsn, 9);
            assert_eq!(hdr.page_id, 77);
            assert_eq!(hdr.offset, 123);
            assert_eq!(hdr.data_len, 5);
            assert_eq!(hdr.prev_lsn, 4);
            assert_eq!(hdr.mtr_id, 6);
            assert!(hdr.is_mtr_end());
            assert_eq!(data, vec![1, 2, 3, 4, 5]);
        }
        _ => panic!("expected a valid entry"),
    }

    // A flipped payload byte is caught by the checksum.
    let mut corrupted = bytes.clone();
    let last = corrupted.len() - 1;
    corrupted[last] ^= 0xFF;
    let mut reader = mini_aurora::reader::WalReader::open(&corrupted);
    assert!(matches!(
        reader.read_entry(),
        mini_aurora::reader::ReadResult::Corrupted { file_offset: 0 }
    ));
}

#[test]
fn test_truncation_at_every_offset() {
    // Three records; only the middle one closes no MTR.  Cutting the log at
    // any byte offset keeps exactly the records whose bytes fit, and the VDL
    // is the highest CPL among them.
    let records = vec![
        RedoRecord { lsn: 1, page_id: 1, offset: 0, data: vec![1, 1, 1], prev_lsn: 0, mtr_id: 1, is_mtr_end: true },
        RedoRecord { lsn: 2, page_id: 2, offset: 0, data: vec![2, 2, 2, 2, 2], prev_lsn: 0, mtr_id: 2, is_mtr_end: false },
        RedoRecord { lsn: 3, page_id: 1, offset: 4, data: vec![3, 3], prev_lsn: 1, mtr_id: 2, is_mtr_end: true },
    ];
    let sizes = [LOG_ENTRY_HEADER_SIZE + 3, LOG_ENTRY_HEADER_SIZE + 5, LOG_ENTRY_HEADER_SIZE + 2];
    let boundaries = [sizes[0], sizes[0] + sizes[1], sizes[0] + sizes[1] + sizes[2]];

    let mut writer = WalWriter::open(Vec::new());
    writer.append_batch(&records);
    let full = writer.into_bytes();
    assert_eq!(full.len(), boundaries[2]);

    for k in 0..=full.len() {
        let mut bytes = full.clone();
        bytes.truncate(k);
        let kept = boundaries.iter().filter(|b| **b <= k).count();
        let expected_vdl = match kept {
            3 => 3,
            1 | 2 => 1,
            _ => 0,
        };
        let expected_end = match expected_vdl {
            3 => boundaries[2],
            1 => boundaries[0],
            _ => 0,
        };
        let result = recover(&mut bytes).unwrap();
        assert_eq!(result.durability.vcl as usize, kept, "cut at {k}");
        assert_eq!(result.durability.vdl as usize, expected_vdl, "cut at {k}");
        assert_eq!(bytes.len(), expected_end, "cut at {k}");
    }
}

#[test]
fn test_interrupted_batch_rolls_back() {
    // A durable MTR, then a batch whose CPL never fully lands: every cut
    // within the batch recovers exactly like a clean crash before it.
    let mut engine = StorageEngine::open(Vec::new()).unwrap();
    engine
        .append_redo(vec![
            record(1, 0, vec![0x01], 1, false),
            record(2, 0, vec![0x02], 1, true),
        ])
        .unwrap();
    let base = engine.wal_bytes().unwrap().clone();
    engine
        .append_redo(vec![
            record(3, 0, vec![0x03], 2, false),
            record(4, 0, vec![0x04; 8], 2, true),
        ])
        .unwrap();
    let full = engine.into_wal_bytes();
    let last_start = full.len() - (LOG_ENTRY_HEADER_SIZE + 8);

    for k in base.len()..full.len() {
        if k >= last_start + LOG_ENTRY_HEADER_SIZE + 8 {
            break;
        }
        let mut bytes = full.clone();
        bytes.truncate(k);
        let result = recover(&mut bytes).unwrap();
        assert_eq!(result.durability.vdl, 2, "cut at {k}");
        assert_eq!(bytes, base, "cut at {k}: the store must look like a clean crash before the batch");
    }
}
