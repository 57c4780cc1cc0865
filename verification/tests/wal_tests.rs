//! The WAL codec round trip, the forward scan, the chain walk, recovery, and
//! the segmented store.

use mini_aurora::common::{Lsn, PageId, RedoRecord, LOG_ENTRY_HEADER_SIZE};
use mini_aurora::reader::{ReadResult, WalReader};
use mini_aurora::recovery::recover;
use mini_aurora::segment::{SegmentManager, Tier};
use mini_aurora::writer::WalWriter;

#[test]
fn test_roundtrip_single() {
    let record = RedoRecord {
        lsn: 1,
        page_id: 42,
        offset: 100,
        data: vec![0xDE, 0xAD],
        prev_lsn: 0,
        mtr_id: 1,
        is_mtr_end: true,
    };

    let mut writer = WalWriter::open(Vec::new());
    writer.append(&record);
    let bytes = writer.into_bytes();

    let mut reader = WalReader::open(&bytes);
    let entries = reader.scan_all();
    assert_eq!(entries.len(), 1);

    let (hdr, data) = &entries[0];
    assert_eq!(hdr.lsn, 1);
    assert_eq!(hdr.page_id, 42);
    assert_eq!(hdr.offset, 100);
    assert_eq!(hdr.data_len, 2);
    assert_eq!(data, &[0xDE, 0xAD]);
    assert!(hdr.is_mtr_end());
}

#[test]
fn test_roundtrip_batch() {
    let records: Vec<RedoRecord> = (1..=3u64)
        .map(|i| RedoRecord {
            lsn: i,
            page_id: 10,
            offset: (i as u16) * 8,
            data: vec![i as u8; 6],
            prev_lsn: if i == 1 { 0 } else { i - 1 },
            mtr_id: 1,
            is_mtr_end: i == 3,
        })
        .collect();

    let mut writer = WalWriter::open(Vec::new());
    writer.append_batch(&records);
    let bytes = writer.into_bytes();

    let mut reader = WalReader::open(&bytes);
    let entries = reader.scan_all();
    assert_eq!(entries.len(), 3);

    for (i, (hdr, data)) in entries.iter().enumerate() {
        let lsn = (i + 1) as u64;
        assert_eq!(hdr.lsn, lsn);
        assert_eq!(hdr.page_id, 10);
        assert_eq!(data.len(), 6);
    }
}

#[test]
fn test_build_index() {
    let records = vec![
        RedoRecord { lsn: 1, page_id: 1, offset: 0, data: vec![1], prev_lsn: 0, mtr_id: 1, is_mtr_end: false },
        RedoRecord { lsn: 2, page_id: 2, offset: 0, data: vec![2], prev_lsn: 0, mtr_id: 1, is_mtr_end: false },
        RedoRecord { lsn: 3, page_id: 1, offset: 4, data: vec![3], prev_lsn: 1, mtr_id: 1, is_mtr_end: true },
    ];

    let mut writer = WalWriter::open(Vec::new());
    writer.append_batch(&records);
    let bytes = writer.into_bytes();

    let mut reader = WalReader::open(&bytes);
    let (page_latest, lsn_offset) = reader.build_index();

    assert_eq!(page_latest[&1], 3);
    assert_eq!(page_latest[&2], 2);
    assert_eq!(lsn_offset.len(), 3);
}

#[test]
fn test_collect_page_chain() {
    // Page 1: LSN 1 -> LSN 3 -> LSN 5.  Page 2: LSN 2 -> LSN 4.
    let records = vec![
        RedoRecord { lsn: 1, page_id: 1, offset: 0, data: vec![0xA], prev_lsn: 0, mtr_id: 1, is_mtr_end: true },
        RedoRecord { lsn: 2, page_id: 2, offset: 0, data: vec![0xB], prev_lsn: 0, mtr_id: 2, is_mtr_end: true },
        RedoRecord { lsn: 3, page_id: 1, offset: 1, data: vec![0xC], prev_lsn: 1, mtr_id: 3, is_mtr_end: true },
        RedoRecord { lsn: 4, page_id: 2, offset: 1, data: vec![0xD], prev_lsn: 2, mtr_id: 4, is_mtr_end: true },
        RedoRecord { lsn: 5, page_id: 1, offset: 2, data: vec![0xE], prev_lsn: 3, mtr_id: 5, is_mtr_end: true },
    ];

    let mut writer = WalWriter::open(Vec::new());
    writer.append_batch(&records);
    let bytes = writer.into_bytes();

    let mut reader = WalReader::open(&bytes);
    let (_page_latest, lsn_offset) = reader.build_index();

    let chain = reader.collect_page_chain(1, 5, 5, &lsn_offset).unwrap();
    assert_eq!(chain.len(), 3);
    assert_eq!(chain[0].lsn, 1);
    assert_eq!(chain[1].lsn, 3);
    assert_eq!(chain[2].lsn, 5);

    let chain = reader.collect_page_chain(1, 5, 3, &lsn_offset).unwrap();
    assert_eq!(chain.len(), 2);
    assert_eq!(chain[0].lsn, 1);
    assert_eq!(chain[1].lsn, 3);
}

#[test]
fn test_detect_truncated_entry() {
    let record = RedoRecord {
        lsn: 1,
        page_id: 1,
        offset: 0,
        data: vec![0xAA; 100],
        prev_lsn: 0,
        mtr_id: 1,
        is_mtr_end: true,
    };

    let mut writer = WalWriter::open(Vec::new());
    writer.append(&record);
    let mut bytes = writer.into_bytes();

    // Truncate mid-data: only 10 of 100 data bytes remain.
    bytes.truncate(LOG_ENTRY_HEADER_SIZE + 10);

    let mut reader = WalReader::open(&bytes);
    let entries = reader.scan_all();
    assert_eq!(entries.len(), 0);
}

fn make_record(lsn: Lsn, page_id: PageId, prev_lsn: Lsn, mtr_id: u64, is_end: bool) -> RedoRecord {
    RedoRecord { lsn, page_id, offset: 0, data: vec![lsn as u8; 4], prev_lsn, mtr_id, is_mtr_end: is_end }
}

#[test]
fn test_clean_recovery() {
    let records = vec![
        make_record(1, 1, 0, 1, false),
        make_record(2, 2, 0, 1, false),
        make_record(3, 1, 1, 1, true),
    ];

    let mut writer = WalWriter::open(Vec::new());
    writer.append_batch(&records);
    let mut bytes = writer.into_bytes();

    let result = recover(&mut bytes).unwrap();
    assert_eq!(result.durability.vcl, 3);
    assert_eq!(result.durability.vdl, 3);
    assert_eq!(result.page_index[&1], 3);
    assert_eq!(result.page_index[&2], 2);
}

#[test]
fn test_recovery_incomplete_mtr() {
    // Complete MTR (1,2,3), then incomplete MTR (4,5 with no CPL).
    let records = vec![
        make_record(1, 1, 0, 1, false),
        make_record(2, 2, 0, 1, false),
        make_record(3, 1, 1, 1, true),
        make_record(4, 3, 0, 2, false),
        make_record(5, 1, 3, 2, false),
    ];

    let mut writer = WalWriter::open(Vec::new());
    writer.append_batch(&records);
    let mut bytes = writer.into_bytes();

    let result = recover(&mut bytes).unwrap();
    assert_eq!(result.durability.vcl, 5);
    assert_eq!(result.durability.vdl, 3);

    assert_eq!(result.lsn_offsets.len(), 3);
    assert!(!result.lsn_offsets.contains_key(&4));
    assert!(!result.lsn_offsets.contains_key(&5));
}

#[test]
fn test_recovery_truncated_record() {
    let records = vec![make_record(1, 1, 0, 1, true), make_record(2, 2, 0, 2, true)];

    let mut writer = WalWriter::open(Vec::new());
    writer.append_batch(&records);
    let mut bytes = writer.into_bytes();

    // Simulate a crash: cut 10 bytes into record 2.
    let entry_size = LOG_ENTRY_HEADER_SIZE + 4;
    bytes.truncate(entry_size + 10);

    let result = recover(&mut bytes).unwrap();
    assert_eq!(result.durability.vcl, 1);
    assert_eq!(result.durability.vdl, 1);
    assert_eq!(result.lsn_offsets.len(), 1);
}

#[test]
fn test_recovery_gap_in_lsns() {
    // LSNs 1, 2, 4: missing 3.
    let records = vec![make_record(1, 1, 0, 1, true), make_record(2, 2, 0, 2, true)];

    let mut writer = WalWriter::open(Vec::new());
    writer.append_batch(&records);

    let gap_record = make_record(4, 1, 1, 3, true);
    writer.append(&gap_record);
    let mut bytes = writer.into_bytes();

    let result = recover(&mut bytes).unwrap();
    assert_eq!(result.durability.vcl, 2);
    assert_eq!(result.durability.vdl, 2);
}

#[test]
fn test_recovery_empty_wal() {
    let mut bytes: Vec<u8> = Vec::new();
    let result = recover(&mut bytes).unwrap();
    assert_eq!(result.durability.vcl, 0);
    assert_eq!(result.durability.vdl, 0);
    assert!(result.page_index.is_empty());
}

#[test]
fn test_write_single_record() {
    let record = RedoRecord {
        lsn: 1,
        page_id: 42,
        offset: 100,
        data: vec![0xAB, 0xCD],
        prev_lsn: 0,
        mtr_id: 1,
        is_mtr_end: true,
    };

    let mut writer = WalWriter::open(Vec::new());
    writer.append(&record);
    assert_eq!(writer.len(), LOG_ENTRY_HEADER_SIZE + record.data.len());
}

#[test]
fn test_write_batch() {
    let records: Vec<RedoRecord> = (1..=5u64)
        .map(|i| RedoRecord {
            lsn: i,
            page_id: 1,
            offset: (i as u16) * 10,
            data: vec![i as u8; 4],
            prev_lsn: if i == 1 { 0 } else { i - 1 },
            mtr_id: 1,
            is_mtr_end: i == 5,
        })
        .collect();

    let mut writer = WalWriter::open(Vec::new());
    writer.append_batch(&records);

    let expected_size: usize = records.iter().map(|r| LOG_ENTRY_HEADER_SIZE + r.data.len()).sum();
    assert_eq!(writer.len(), expected_size);
}

fn make_seg_record(lsn: Lsn, page_id: PageId, prev_lsn: Lsn, is_end: bool) -> RedoRecord {
    RedoRecord { lsn, page_id, offset: 0, data: vec![lsn as u8; 10], prev_lsn, mtr_id: 1, is_mtr_end: is_end }
}

#[test]
fn test_segment_manager_basic() {
    let mut mgr = SegmentManager::new_empty(4096, 0);

    let records = vec![make_seg_record(1, 1, 0, false), make_seg_record(2, 2, 0, true)];

    let locs = mgr.append_batch(&records);

    assert_eq!(locs.len(), 2);
    assert_eq!(locs[0].segment_id, locs[1].segment_id);
}

#[test]
fn test_segment_rotation() {
    // Very small segment size to force rotation (each record is 51 bytes).
    let mut mgr = SegmentManager::new_empty(100, 0);

    let r1 = make_seg_record(1, 1, 0, true);
    let r2 = make_seg_record(2, 2, 0, true);
    let r3 = make_seg_record(3, 1, 1, true);

    let loc1 = mgr.append_batch(&vec![r1]);
    let loc2 = mgr.append_batch(&vec![r2]);
    let loc3 = mgr.append_batch(&vec![r3]);

    assert_eq!(loc1[0].segment_id + 1, loc2[0].segment_id);
    assert_eq!(loc2[0].segment_id + 1, loc3[0].segment_id);
}

#[test]
fn test_segment_recovery() {
    let mut mgr = SegmentManager::new_empty(100, 0);
    for i in 1..=5u64 {
        let r = make_seg_record(i, (i % 3) + 1, if i > 1 { i - 1 } else { 0 }, i == 5);
        mgr.append_batch(&vec![r]);
    }

    // Persist and reopen the store, then recover.
    let (manifest, segment_bytes) = mgr.into_image();
    let mut mgr = SegmentManager::open(manifest, segment_bytes, 100, 0).unwrap();
    let data = mgr.recover().unwrap();

    assert_eq!(data.durability.vcl, 5);
    assert_eq!(data.durability.vdl, 5);
    assert_eq!(data.lsn_offsets.len(), 5);
    assert!(!data.page_index.is_empty());
}

#[test]
fn test_cool_segments() {
    let mut mgr = SegmentManager::new_empty(60, 0);

    for i in 1..=10u64 {
        let r = make_seg_record(i, 1, if i > 1 { i - 1 } else { 0 }, true);
        mgr.append_batch(&vec![r]);
    }

    let sealed_count = mgr.manifest().segments.iter().filter(|s| s.sealed).count();
    if sealed_count > 1 {
        let cooled = mgr.cool_segments(1);
        assert!(!cooled.is_empty());

        let cold_count = mgr.manifest().segments.iter().filter(|s| s.tier == Tier::Cold).count();
        assert!(cold_count > 0);
    }
}

#[test]
fn test_segment_reader() {
    let mut mgr = SegmentManager::new_empty(4096, 0);

    let records = vec![make_seg_record(1, 1, 0, true), make_seg_record(2, 2, 0, true)];
    let locs = mgr.append_batch(&records);

    let (mut reader, tier) = mgr.open_segment_reader(locs[0].segment_id).unwrap();
    assert_eq!(tier, Tier::Hot);

    reader.seek_to(locs[0].file_offset);
    match reader.read_entry() {
        ReadResult::Entry(hdr, _data) => {
            assert_eq!(hdr.lsn, 1);
            assert_eq!(hdr.page_id, 1);
        }
        _ => panic!("expected entry"),
    }
}
