//! Bit-exact layout of one log entry: a fixed 41-byte header followed by the
//! payload, all little-endian, protected by a CRC-32 over the header (with the
//! CRC field zeroed) and the payload.

use vstd::bytes::*;
use vstd::prelude::*;

use crate::common::{LogEntryHeader, RecordModel, RedoRecord, LOG_ENTRY_HEADER_SIZE};
use crate::crc::{compute_crc, crc32_of};

verus! {

/// The payload length must fit the header's 16-bit length field.
pub open spec fn data_fits(r: RecordModel) -> bool {
    r.data.len() <= 0xffff
}

/// The first 37 header bytes: every field but the CRC.
pub open spec fn spec_header_prefix(h: LogEntryHeader) -> Seq<u8> {
    spec_u64_to_le_bytes(h.lsn) + spec_u64_to_le_bytes(h.page_id) + spec_u16_to_le_bytes(h.offset)
        + spec_u16_to_le_bytes(h.data_len) + spec_u64_to_le_bytes(h.prev_lsn)
        + spec_u64_to_le_bytes(h.mtr_id) + seq![h.flags]
}

/// All 41 header bytes.
pub open spec fn spec_header_bytes(h: LogEntryHeader) -> Seq<u8> {
    spec_header_prefix(h) + spec_u32_to_le_bytes(h.crc32)
}

pub proof fn lemma_header_bytes_len(h: LogEntryHeader)
    ensures
        spec_header_prefix(h).len() == 37,
        spec_header_bytes(h).len() == LOG_ENTRY_HEADER_SIZE,
{
    lemma_auto_spec_u64_to_from_le_bytes();
    lemma_auto_spec_u32_to_from_le_bytes();
    lemma_auto_spec_u16_to_from_le_bytes();
}

/// Read a header back out of a 41-byte buffer.
pub open spec fn spec_parse_header(b: Seq<u8>) -> LogEntryHeader
    recommends
        b.len() == LOG_ENTRY_HEADER_SIZE,
{
    LogEntryHeader {
        lsn: spec_u64_from_le_bytes(b.subrange(0, 8)),
        page_id: spec_u64_from_le_bytes(b.subrange(8, 16)),
        offset: spec_u16_from_le_bytes(b.subrange(16, 18)),
        data_len: spec_u16_from_le_bytes(b.subrange(18, 20)),
        prev_lsn: spec_u64_from_le_bytes(b.subrange(20, 28)),
        mtr_id: spec_u64_from_le_bytes(b.subrange(28, 36)),
        flags: b[36],
        crc32: spec_u32_from_le_bytes(b.subrange(37, 41)),
    }
}

/// Parsing inverts building: a header survives the trip through its 41 bytes.
pub proof fn lemma_parse_header_roundtrip(h: LogEntryHeader)
    ensures
        spec_parse_header(spec_header_bytes(h)) == h,
{
    lemma_auto_spec_u64_to_from_le_bytes();
    lemma_auto_spec_u32_to_from_le_bytes();
    lemma_auto_spec_u16_to_from_le_bytes();
    let b = spec_header_bytes(h);
    assert(b.subrange(0, 8) =~= spec_u64_to_le_bytes(h.lsn));
    assert(b.subrange(8, 16) =~= spec_u64_to_le_bytes(h.page_id));
    assert(b.subrange(16, 18) =~= spec_u16_to_le_bytes(h.offset));
    assert(b.subrange(18, 20) =~= spec_u16_to_le_bytes(h.data_len));
    assert(b.subrange(20, 28) =~= spec_u64_to_le_bytes(h.prev_lsn));
    assert(b.subrange(28, 36) =~= spec_u64_to_le_bytes(h.mtr_id));
    assert(b[36] == h.flags);
    assert(b.subrange(37, 41) =~= spec_u32_to_le_bytes(h.crc32));
}

/// The flags byte a record is written with: bit 0 marks the CPL.
pub open spec fn record_flags(r: RecordModel) -> u8 {
    if r.is_mtr_end {
        1u8
    } else {
        0u8
    }
}

/// The header a record is written with, with the CRC field supplied.
pub open spec fn record_header_with_crc(r: RecordModel, crc: u32) -> LogEntryHeader {
    LogEntryHeader {
        lsn: r.lsn,
        page_id: r.page_id,
        offset: r.offset,
        data_len: r.data.len() as u16,
        prev_lsn: r.prev_lsn,
        mtr_id: r.mtr_id,
        flags: record_flags(r),
        crc32: crc,
    }
}

/// The bytes the CRC covers: the 37 header bytes (CRC zeroed) and the payload.
pub open spec fn record_covered_bytes(r: RecordModel) -> Seq<u8> {
    spec_header_prefix(record_header_with_crc(r, 0)) + r.data
}

/// The checksum a record is written with.
pub open spec fn spec_record_crc(r: RecordModel) -> u32 {
    crc32_of(record_covered_bytes(r))
}

/// The full header a record is written with.
pub open spec fn spec_record_header(r: RecordModel) -> LogEntryHeader {
    record_header_with_crc(r, spec_record_crc(r))
}

/// The complete on-disk image of one record.
pub open spec fn spec_encode_record(r: RecordModel) -> Seq<u8> {
    spec_header_bytes(spec_record_header(r)) + r.data
}

/// How many bytes a record occupies on disk.
pub open spec fn spec_record_size(r: RecordModel) -> int {
    LOG_ENTRY_HEADER_SIZE + r.data.len()
}

pub proof fn lemma_encode_record_len(r: RecordModel)
    ensures
        spec_encode_record(r).len() == spec_record_size(r),
{
    lemma_header_bytes_len(spec_record_header(r));
}

/// The on-disk image of a whole record sequence: entries back to back, no
/// file header, no footer.
pub open spec fn spec_encode_log(log: Seq<RecordModel>) -> Seq<u8>
    decreases log.len(),
{
    if log.len() == 0 {
        Seq::<u8>::empty()
    } else {
        spec_encode_record(log[0]) + spec_encode_log(log.skip(1))
    }
}

pub proof fn lemma_encode_log_snoc(log: Seq<RecordModel>, r: RecordModel)
    ensures
        spec_encode_log(log.push(r)) == spec_encode_log(log) + spec_encode_record(r),
    decreases log.len(),
{
    let l2 = log.push(r);
    assert(l2[0] == if log.len() == 0 {
        r
    } else {
        log[0]
    });
    if log.len() == 0 {
        assert(l2.skip(1) =~= Seq::<RecordModel>::empty());
        assert(spec_encode_log(l2) == spec_encode_record(r) + spec_encode_log(
            Seq::<RecordModel>::empty(),
        ));
        assert(spec_encode_log(l2) =~= spec_encode_log(log) + spec_encode_record(r));
    } else {
        assert(l2.skip(1) =~= log.skip(1).push(r));
        lemma_encode_log_snoc(log.skip(1), r);
        assert(spec_encode_log(l2) == spec_encode_record(log[0]) + (spec_encode_log(log.skip(1))
            + spec_encode_record(r)));
        assert(spec_encode_log(l2) =~= spec_encode_log(log) + spec_encode_record(r));
    }
}

// ---------------------------------------------------------------------------
// Parsing an entry out of raw bytes at a given position
// ---------------------------------------------------------------------------

/// A full header lies within the bytes.
pub open spec fn header_complete_at(b: Seq<u8>, pos: int) -> bool {
    0 <= pos && pos + LOG_ENTRY_HEADER_SIZE <= b.len()
}

/// The header decoded at `pos`.
pub open spec fn spec_header_at(b: Seq<u8>, pos: int) -> LogEntryHeader
    recommends
        header_complete_at(b, pos),
{
    spec_parse_header(b.subrange(pos, pos + LOG_ENTRY_HEADER_SIZE))
}

/// Header and payload both lie within the bytes.
pub open spec fn entry_complete_at(b: Seq<u8>, pos: int) -> bool {
    header_complete_at(b, pos) && pos + LOG_ENTRY_HEADER_SIZE + spec_header_at(b, pos).data_len
        <= b.len()
}

/// The payload decoded at `pos`.
pub open spec fn spec_data_at(b: Seq<u8>, pos: int) -> Seq<u8>
    recommends
        entry_complete_at(b, pos),
{
    b.subrange(
        pos + LOG_ENTRY_HEADER_SIZE,
        pos + LOG_ENTRY_HEADER_SIZE + spec_header_at(b, pos).data_len,
    )
}

/// How many bytes the entry at `pos` occupies.
pub open spec fn spec_entry_size_at(b: Seq<u8>, pos: int) -> int
    recommends
        header_complete_at(b, pos),
{
    LOG_ENTRY_HEADER_SIZE + spec_header_at(b, pos).data_len
}

/// The entry at `pos` is complete and its stored CRC matches the bytes.
pub open spec fn entry_valid_at(b: Seq<u8>, pos: int) -> bool {
    &&& entry_complete_at(b, pos)
    &&& spec_header_at(b, pos).crc32 == crc32_of(
        b.subrange(pos, pos + 37) + spec_data_at(b, pos),
    )
}

/// Rebuild a record from a decoded header and payload.
pub open spec fn spec_header_to_record(h: LogEntryHeader, data: Seq<u8>) -> RecordModel {
    RecordModel {
        lsn: h.lsn,
        page_id: h.page_id,
        offset: h.offset,
        data: data,
        prev_lsn: h.prev_lsn,
        mtr_id: h.mtr_id,
        is_mtr_end: h.spec_is_mtr_end(),
    }
}

/// One decoded log entry and where it was found.
pub ghost struct ScanEntry {
    pub off: int,
    pub hdr: LogEntryHeader,
    pub data: Seq<u8>,
}

impl ScanEntry {
    pub open spec fn record(self) -> RecordModel {
        spec_header_to_record(self.hdr, self.data)
    }
}

/// Decode entries one after another starting at `pos`, stopping at the first
/// incomplete or corrupt one.
pub open spec fn spec_scan_from(b: Seq<u8>, pos: int) -> Seq<ScanEntry>
    decreases b.len() - pos,
        when 0 <= pos <= b.len()
{
    if entry_valid_at(b, pos) {
        seq![ScanEntry { off: pos, hdr: spec_header_at(b, pos), data: spec_data_at(b, pos) }]
            + spec_scan_from(b, pos + spec_entry_size_at(b, pos))
    } else {
        Seq::<ScanEntry>::empty()
    }
}

/// Everything the forward scan of a byte log yields before it stops.
pub open spec fn spec_scan(b: Seq<u8>) -> Seq<ScanEntry> {
    spec_scan_from(b, 0)
}

// ---------------------------------------------------------------------------
// How the scan relates to encodings
// ---------------------------------------------------------------------------

/// Every record's payload length fits the header's length field.
pub open spec fn all_fit(log: Seq<RecordModel>) -> bool {
    forall|i: int| 0 <= i < log.len() ==> data_fits(#[trigger] log[i])
}

/// The byte offset at which record `i` starts within the encoded log
/// (`i == log.len()` gives the total length).
pub open spec fn spec_log_offset(log: Seq<RecordModel>, i: int) -> int
    decreases i,
        when 0 <= i
{
    if i <= 0 {
        0
    } else {
        spec_record_size(log[0]) + spec_log_offset(log.skip(1), i - 1)
    }
}

pub proof fn lemma_log_offset_step(log: Seq<RecordModel>, i: int)
    requires
        0 <= i < log.len(),
    ensures
        spec_log_offset(log, i + 1) == spec_log_offset(log, i) + spec_record_size(log[i]),
    decreases i,
{
    if i == 0 {
        assert(spec_log_offset(log, 0) == 0);
        assert(spec_log_offset(log.skip(1), 0) == 0);
        assert(spec_log_offset(log, 1) == spec_record_size(log[0]) + spec_log_offset(
            log.skip(1),
            0,
        ));
    } else {
        lemma_log_offset_step(log.skip(1), i - 1);
        assert(log.skip(1)[i - 1] == log[i]);
        assert(spec_log_offset(log, i + 1) == spec_record_size(log[0]) + spec_log_offset(
            log.skip(1),
            i,
        ));
        assert(spec_log_offset(log, i) == spec_record_size(log[0]) + spec_log_offset(
            log.skip(1),
            i - 1,
        ));
    }
}

pub proof fn lemma_encode_log_len(log: Seq<RecordModel>)
    ensures
        spec_encode_log(log).len() == spec_log_offset(log, log.len() as int),
    decreases log.len(),
{
    if log.len() > 0 {
        lemma_encode_record_len(log[0]);
        lemma_encode_log_len(log.skip(1));
    }
}

/// Parsing at a position only looks at the bytes from that position on, so a
/// common prefix can be put in front without changing what is parsed.
pub proof fn lemma_entry_parse_shift(pre: Seq<u8>, b: Seq<u8>, pos: int)
    requires
        0 <= pos,
    ensures
        header_complete_at(pre + b, pre.len() + pos) == header_complete_at(b, pos),
        header_complete_at(b, pos) ==> spec_header_at(pre + b, pre.len() + pos) == spec_header_at(
            b,
            pos,
        ),
        entry_complete_at(pre + b, pre.len() + pos) == entry_complete_at(b, pos),
        entry_complete_at(b, pos) ==> spec_data_at(pre + b, pre.len() + pos) == spec_data_at(
            b,
            pos,
        ),
        entry_valid_at(pre + b, pre.len() + pos) == entry_valid_at(b, pos),
{
    let c = pre + b;
    let q = pre.len() + pos;
    if header_complete_at(b, pos) {
        assert(c.subrange(q, q + LOG_ENTRY_HEADER_SIZE) =~= b.subrange(
            pos,
            pos + LOG_ENTRY_HEADER_SIZE,
        ));
    }
    if entry_complete_at(b, pos) {
        let dl = spec_header_at(b, pos).data_len as int;
        assert(c.subrange(q + LOG_ENTRY_HEADER_SIZE, q + LOG_ENTRY_HEADER_SIZE + dl) =~= b.subrange(
            pos + LOG_ENTRY_HEADER_SIZE,
            pos + LOG_ENTRY_HEADER_SIZE + dl,
        ));
        assert(c.subrange(q, q + 37) =~= b.subrange(pos, pos + 37));
    }
}

/// Scanning after a common prefix yields the same entries, shifted.
pub proof fn lemma_scan_shift(pre: Seq<u8>, b: Seq<u8>, pos: int)
    requires
        0 <= pos <= b.len(),
    ensures
        ({
            let s1 = spec_scan_from(pre + b, pre.len() + pos);
            let s2 = spec_scan_from(b, pos);
            &&& s1.len() == s2.len()
            &&& forall|i: int|
                0 <= i < s2.len() ==> s1[i] == (ScanEntry {
                    off: pre.len() + s2[i].off,
                    hdr: s2[i].hdr,
                    data: s2[i].data,
                })
        }),
    decreases b.len() - pos,
{
    lemma_entry_parse_shift(pre, b, pos);
    if entry_valid_at(b, pos) {
        lemma_scan_shift(pre, b, pos + spec_entry_size_at(b, pos));
    }
}

/// The first thing in `spec_encode_record(r) + rest` is exactly `r`'s entry.
pub proof fn lemma_encoded_entry_at(r: RecordModel, rest: Seq<u8>)
    requires
        data_fits(r),
    ensures
        ({
            let b = spec_encode_record(r) + rest;
            &&& entry_valid_at(b, 0)
            &&& spec_header_at(b, 0) == spec_record_header(r)
            &&& spec_data_at(b, 0) == r.data
            &&& spec_entry_size_at(b, 0) == spec_record_size(r)
            &&& spec_header_to_record(spec_record_header(r), r.data) == r
        }),
{
    let h = spec_record_header(r);
    let hb = spec_header_bytes(h);
    lemma_header_bytes_len(h);
    lemma_parse_header_roundtrip(h);
    lemma_encode_record_len(r);
    let b = spec_encode_record(r) + rest;
    assert(b.subrange(0, LOG_ENTRY_HEADER_SIZE as int) =~= hb);
    assert(spec_header_at(b, 0) == h);
    assert(h.data_len == r.data.len());
    assert(spec_data_at(b, 0) =~= r.data);
    assert(b.subrange(0, 37) =~= spec_header_prefix(record_header_with_crc(r, 0)));
    assert(b.subrange(0, 37) + spec_data_at(b, 0) =~= record_covered_bytes(r));
    assert(entry_valid_at(b, 0));
    assert(1u8 & 1 != 0) by (bit_vector);
    assert(0u8 & 1 == 0) by (bit_vector);
    assert(h.spec_is_mtr_end() == r.is_mtr_end);
}

/// Scanning an encoded log finds exactly its records, at their offsets, and
/// then continues into whatever follows.
pub proof fn lemma_scan_of_encoded(log: Seq<RecordModel>, rest: Seq<u8>)
    requires
        all_fit(log),
    ensures
        ({
            let b = spec_encode_log(log) + rest;
            let s = spec_scan(b);
            let n = log.len() as int;
            let tail = spec_scan(rest);
            &&& s.len() == n + tail.len()
            &&& forall|i: int|
                0 <= i < n ==> (#[trigger] s[i]).off == spec_log_offset(log, i) && s[i].hdr
                    == spec_record_header(log[i]) && s[i].data == log[i].data && s[i].record()
                    == log[i]
            &&& forall|i: int|
                n <= i < s.len() ==> #[trigger] s[i] == (ScanEntry {
                    off: spec_encode_log(log).len() + tail[i - n].off,
                    hdr: tail[i - n].hdr,
                    data: tail[i - n].data,
                })
        }),
    decreases log.len(),
{
    let b = spec_encode_log(log) + rest;
    if log.len() == 0 {
        assert(b =~= rest);
        lemma_scan_shift(spec_encode_log(log), rest, 0);
        assert(spec_encode_log(log).len() == 0);
        let s = spec_scan(b);
        let tail = spec_scan(rest);
        assert forall|i: int| 0 <= i < s.len() implies #[trigger] s[i] == (ScanEntry {
            off: spec_encode_log(log).len() + tail[i].off,
            hdr: tail[i].hdr,
            data: tail[i].data,
        }) by {
            assert(s[i] == tail[i]);
            assert(tail[i] == (ScanEntry { off: tail[i].off, hdr: tail[i].hdr, data: tail[i].data }));
        }
    } else {
        let r0 = log[0];
        let sz0 = spec_record_size(r0);
        let body = spec_encode_log(log.skip(1)) + rest;
        lemma_encode_record_len(r0);
        assert(b =~= spec_encode_record(r0) + body);
        lemma_encoded_entry_at(r0, body);
        lemma_scan_of_encoded(log.skip(1), rest);
        lemma_scan_shift(spec_encode_record(r0), body, 0);
        let s = spec_scan(b);
        let sb = spec_scan(body);
        assert(entry_valid_at(b, 0));
        assert(s == seq![
            ScanEntry { off: 0, hdr: spec_record_header(r0), data: r0.data },
        ] + spec_scan_from(b, sz0));
        assert(spec_scan_from(b, sz0).len() == sb.len());
        let n = log.len() as int;
        let tail = spec_scan(rest);
        assert forall|i: int| 0 <= i < n implies (#[trigger] s[i]).off == spec_log_offset(log, i)
            && s[i].hdr == spec_record_header(log[i]) && s[i].data == log[i].data && s[i].record()
            == log[i] by {
            if i == 0 {
                assert(s[0] == (ScanEntry { off: 0, hdr: spec_record_header(r0), data: r0.data }));
            } else {
                assert(s[i] == spec_scan_from(b, sz0)[i - 1]);
                assert(spec_scan_from(b, sz0)[i - 1] == (ScanEntry {
                    off: sz0 + sb[i - 1].off,
                    hdr: sb[i - 1].hdr,
                    data: sb[i - 1].data,
                }));
                assert(log.skip(1)[i - 1] == log[i]);
            }
        }
        assert(spec_encode_log(log).len() == sz0 + spec_encode_log(log.skip(1)).len());
        assert forall|i: int| n <= i < s.len() implies #[trigger] s[i] == (ScanEntry {
            off: spec_encode_log(log).len() + tail[i - n].off,
            hdr: tail[i - n].hdr,
            data: tail[i - n].data,
        }) by {
            assert(s[i] == spec_scan_from(b, sz0)[i - 1]);
            assert(spec_scan_from(b, sz0)[i - 1] == (ScanEntry {
                off: sz0 + sb[i - 1].off,
                hdr: sb[i - 1].hdr,
                data: sb[i - 1].data,
            }));
            assert(sb[i - 1] == (ScanEntry {
                off: spec_encode_log(log.skip(1)).len() + tail[i - n].off,
                hdr: tail[i - n].hdr,
                data: tail[i - n].data,
            }));
        }
    }
}

/// The records a forward scan of the bytes yields.
pub open spec fn scan_records(b: Seq<u8>) -> Seq<RecordModel> {
    spec_scan(b).map_values(|e: ScanEntry| e.record())
}

/// The bytes are exactly an encoded record sequence with nothing after it:
/// what the scan finds re-encodes to the bytes themselves.
pub open spec fn clean_log_bytes(b: Seq<u8>) -> bool {
    spec_encode_log(scan_records(b)) == b
}

pub proof fn lemma_log_offset_nonneg(log: Seq<RecordModel>, i: int)
    requires
        0 <= i,
    ensures
        spec_log_offset(log, i) >= 0,
    decreases i,
{
    if i > 0 {
        lemma_log_offset_nonneg(log.skip(1), i - 1);
    }
}

pub proof fn lemma_log_offset_mono(log: Seq<RecordModel>, i: int, j: int)
    requires
        0 <= i <= j <= log.len(),
    ensures
        spec_log_offset(log, i) <= spec_log_offset(log, j),
    decreases j - i,
{
    if i < j {
        lemma_log_offset_step(log, j - 1);
        lemma_log_offset_mono(log, i, j - 1);
        lemma_encode_record_len(log[j - 1]);
        lemma_header_bytes_len(spec_record_header(log[j - 1]));
    }
}

/// A record's offset only depends on the records before it.
pub proof fn lemma_log_offset_take(log: Seq<RecordModel>, m: int, i: int)
    requires
        0 <= i <= m <= log.len(),
    ensures
        spec_log_offset(log.take(m), i) == spec_log_offset(log, i),
    decreases i,
{
    if i > 0 {
        assert(log.take(m)[0] == log[0]);
        assert(log.take(m).skip(1) =~= log.skip(1).take(m - 1));
        lemma_log_offset_take(log.skip(1), m - 1, i - 1);
    }
}

/// Parsing an encoded log at a record's own offset yields that record.
pub proof fn lemma_parse_at_offset(log: Seq<RecordModel>, i: int)
    requires
        all_fit(log),
        0 <= i < log.len(),
    ensures
        ({
            let b = spec_encode_log(log);
            let pos = spec_log_offset(log, i);
            &&& entry_valid_at(b, pos)
            &&& spec_header_at(b, pos) == spec_record_header(log[i])
            &&& spec_data_at(b, pos) == log[i].data
            &&& spec_entry_size_at(b, pos) == spec_record_size(log[i])
            &&& spec_header_to_record(spec_header_at(b, pos), spec_data_at(b, pos)) == log[i]
        }),
    decreases i,
{
    let b = spec_encode_log(log);
    let pos = spec_log_offset(log, i);
    if i == 0 {
        lemma_encoded_entry_at(log[0], spec_encode_log(log.skip(1)));
    } else {
        let pre = spec_encode_record(log[0]);
        let rest = spec_encode_log(log.skip(1));
        lemma_encode_record_len(log[0]);
        lemma_parse_at_offset(log.skip(1), i - 1);
        lemma_log_offset_nonneg(log.skip(1), i - 1);
        lemma_entry_parse_shift(pre, rest, spec_log_offset(log.skip(1), i - 1));
        assert(log.skip(1)[i - 1] == log[i]);
        assert(pos == pre.len() + spec_log_offset(log.skip(1), i - 1));
    }
}

/// Building inverts parsing: any 41 bytes survive the trip through a header.
pub proof fn lemma_header_bytes_inverse(s: Seq<u8>)
    requires
        s.len() == LOG_ENTRY_HEADER_SIZE,
    ensures
        spec_header_bytes(spec_parse_header(s)) == s,
{
    lemma_auto_spec_u64_to_from_le_bytes();
    lemma_auto_spec_u32_to_from_le_bytes();
    lemma_auto_spec_u16_to_from_le_bytes();
    let h = spec_parse_header(s);
    assert(spec_u64_to_le_bytes(h.lsn) =~= s.subrange(0, 8));
    assert(spec_u64_to_le_bytes(h.page_id) =~= s.subrange(8, 16));
    assert(spec_u16_to_le_bytes(h.offset) =~= s.subrange(16, 18));
    assert(spec_u16_to_le_bytes(h.data_len) =~= s.subrange(18, 20));
    assert(spec_u64_to_le_bytes(h.prev_lsn) =~= s.subrange(20, 28));
    assert(spec_u64_to_le_bytes(h.mtr_id) =~= s.subrange(28, 36));
    assert(spec_u32_to_le_bytes(h.crc32) =~= s.subrange(37, 41));
    assert(spec_header_bytes(h) =~= s);
}

/// A valid entry whose flags byte is canonical re-encodes to exactly the
/// bytes it was parsed from.
pub proof fn lemma_valid_entry_bytes(b: Seq<u8>, pos: int)
    requires
        entry_valid_at(b, pos),
        spec_header_at(b, pos).flags <= 1,
    ensures
        ({
            let rec = spec_header_to_record(spec_header_at(b, pos), spec_data_at(b, pos));
            &&& data_fits(rec)
            &&& spec_record_header(rec) == spec_header_at(b, pos)
            &&& spec_record_size(rec) == spec_entry_size_at(b, pos)
            &&& b.subrange(pos, pos + spec_entry_size_at(b, pos)) == spec_encode_record(rec)
        }),
{
    let h = spec_header_at(b, pos);
    let data = spec_data_at(b, pos);
    let rec = spec_header_to_record(h, data);
    let hb = b.subrange(pos, pos + LOG_ENTRY_HEADER_SIZE);
    lemma_header_bytes_inverse(hb);
    lemma_header_bytes_len(h);
    assert(1u8 & 1 != 0) by (bit_vector);
    assert(0u8 & 1 == 0) by (bit_vector);
    assert(record_flags(rec) == h.flags);
    assert(record_header_with_crc(rec, h.crc32) == h);
    assert(spec_header_prefix(record_header_with_crc(rec, 0)) =~= spec_header_prefix(h));
    assert(spec_header_prefix(h) =~= hb.subrange(0, 37));
    assert(hb.subrange(0, 37) =~= b.subrange(pos, pos + 37));
    assert(record_covered_bytes(rec) =~= b.subrange(pos, pos + 37) + data);
    assert(spec_record_crc(rec) == h.crc32);
    assert(spec_record_header(rec) == h);
    assert(b.subrange(pos, pos + spec_entry_size_at(b, pos)) =~= hb + data);
    assert(spec_encode_record(rec) == spec_header_bytes(h) + data);
}

/// The shape of a scan: entry `n` starts where entry `n - 1` ends, those
/// positions are the cumulative record sizes, and each entry parses validly
/// at its own offset.
pub proof fn lemma_scan_structure(b: Seq<u8>, pos: int, n: int)
    requires
        0 <= pos <= b.len(),
        0 <= n <= spec_scan_from(b, pos).len(),
    ensures
        ({
            let s = spec_scan_from(b, pos);
            let models = s.map_values(|e: ScanEntry| e.record());
            &&& pos + spec_log_offset(models, n) == (if n == 0 {
                pos
            } else {
                s[n - 1].off + LOG_ENTRY_HEADER_SIZE + s[n - 1].hdr.data_len
            })
            &&& (n < s.len() ==> s[n].off == pos + spec_log_offset(models, n))
            &&& (n < s.len() ==> entry_valid_at(b, s[n].off) && spec_header_at(b, s[n].off)
                == s[n].hdr && spec_data_at(b, s[n].off) == s[n].data)
        }),
    decreases n, spec_scan_from(b, pos).len(),
{
    let s = spec_scan_from(b, pos);
    let models = s.map_values(|e: ScanEntry| e.record());
    if s.len() == 0 {
    } else {
        assert(entry_valid_at(b, pos));
        let sz0 = spec_entry_size_at(b, pos);
        let pos2 = pos + sz0;
        let s2 = spec_scan_from(b, pos2);
        let models2 = s2.map_values(|e: ScanEntry| e.record());
        assert(s == seq![
            ScanEntry { off: pos, hdr: spec_header_at(b, pos), data: spec_data_at(b, pos) },
        ] + s2);
        assert(s.skip(1) =~= s2);
        assert(models.skip(1) =~= models2);
        assert(models[0] == s[0].record());
        assert(spec_record_size(models[0]) == sz0);
        if n == 0 {
        } else {
            lemma_scan_structure(b, pos2, n - 1);
            assert(spec_log_offset(models, n) == spec_record_size(models[0]) + spec_log_offset(
                models2,
                n - 1,
            ));
            if n >= 1 {
                assert(s[n - 1] == if n == 1 {
                    s[0]
                } else {
                    s2[n - 2]
                });
            }
        }
    }
}

/// The first `n` scanned records re-encode to exactly the bytes they were
/// read from, when their flag bytes are canonical.
pub proof fn lemma_scan_prefix_encodes(b: Seq<u8>, n: int)
    requires
        0 <= n <= spec_scan(b).len(),
        forall|i: int| 0 <= i < n ==> (#[trigger] spec_scan(b)[i]).hdr.flags <= 1,
    ensures
        ({
            let models = scan_records(b);
            let end = spec_log_offset(models, n);
            &&& 0 <= end <= b.len()
            &&& b.subrange(0, end) == spec_encode_log(models.take(n))
            &&& spec_encode_log(models.take(n)).len() == end
        }),
    decreases n,
{
    let s = spec_scan(b);
    let models = scan_records(b);
    assert(models == s.map_values(|e: ScanEntry| e.record()));
    lemma_scan_structure(b, 0, n);
    if n == 0 {
        assert(b.subrange(0, 0) =~= Seq::<u8>::empty());
        assert(models.take(0) =~= Seq::<RecordModel>::empty());
    } else {
        lemma_scan_prefix_encodes(b, n - 1);
        lemma_scan_structure(b, 0, n - 1);
        let end1 = spec_log_offset(models, n - 1);
        let end = spec_log_offset(models, n);
        assert(s[n - 1].off == end1);
        lemma_valid_entry_bytes(b, s[n - 1].off);
        assert(spec_header_to_record(spec_header_at(b, s[n - 1].off), spec_data_at(b, s[n - 1].off))
            == s[n - 1].record());
        assert(models[n - 1] == s[n - 1].record());
        assert(end == end1 + spec_entry_size_at(b, s[n - 1].off));
        assert(entry_complete_at(b, s[n - 1].off));
        assert(end <= b.len());
        assert(b.subrange(end1, end) == spec_encode_record(models[n - 1]));
        lemma_encode_log_snoc(models.take(n - 1), models[n - 1]);
        assert(models.take(n - 1).push(models[n - 1]) =~= models.take(n));
        assert(b.subrange(0, end) =~= b.subrange(0, end1) + b.subrange(end1, end));
        lemma_encode_record_len(models[n - 1]);
    }
}

/// Encoding a concatenation is the concatenation of the encodings.
pub proof fn lemma_encode_log_concat(a: Seq<RecordModel>, b: Seq<RecordModel>)
    ensures
        spec_encode_log(a + b) == spec_encode_log(a) + spec_encode_log(b),
    decreases b.len(),
{
    if b.len() == 0 {
        assert(a + b =~= a);
        assert(spec_encode_log(a) + spec_encode_log(b) =~= spec_encode_log(a));
    } else {
        assert(a + b =~= (a + b.drop_last()).push(b.last()));
        lemma_encode_log_snoc(a + b.drop_last(), b.last());
        lemma_encode_log_concat(a, b.drop_last());
        assert(b.drop_last().push(b.last()) =~= b);
        lemma_encode_log_snoc(b.drop_last(), b.last());
        assert(spec_encode_log(a + b) =~= spec_encode_log(a) + spec_encode_log(b));
    }
}

/// Round trip: encoding a record and then decoding the resulting bytes
/// yields the original record, and its checksum checks out.
pub proof fn lemma_record_round_trip(r: RecordModel)
    requires
        data_fits(r),
    ensures
        entry_valid_at(spec_encode_record(r), 0),
        spec_header_to_record(
            spec_header_at(spec_encode_record(r), 0),
            spec_data_at(spec_encode_record(r), 0),
        ) == r,
{
    lemma_encoded_entry_at(r, Seq::<u8>::empty());
    assert(spec_encode_record(r) + Seq::<u8>::empty() =~= spec_encode_record(r));
}

/// Scanning an encoded log finds exactly its records.
pub proof fn lemma_scan_records_of_encoded(log: Seq<RecordModel>)
    requires
        all_fit(log),
    ensures
        scan_records(spec_encode_log(log)) == log,
        clean_log_bytes(spec_encode_log(log)),
{
    lemma_scan_of_encoded(log, Seq::<u8>::empty());
    assert(spec_encode_log(log) + Seq::<u8>::empty() =~= spec_encode_log(log));
    lemma_scan_empty();
    assert(scan_records(spec_encode_log(log)) =~= log);
}

/// In a well-formed log every payload fits its page, hence its length field.
pub proof fn lemma_wf_all_fit(log: Seq<RecordModel>)
    requires
        crate::common::log_wf(log),
    ensures
        all_fit(log),
{
    assert forall|i: int| 0 <= i < log.len() implies data_fits(#[trigger] log[i]) by {
        assert(log[i].bounded());
    }
}

/// Every scanned entry consumes at least a header's worth of bytes, so a scan
/// cannot find more entries than the bytes allow.
pub proof fn lemma_scan_len_bound(b: Seq<u8>, pos: int)
    requires
        0 <= pos <= b.len(),
    ensures
        LOG_ENTRY_HEADER_SIZE * spec_scan_from(b, pos).len() <= b.len() - pos,
    decreases b.len() - pos,
{
    if entry_valid_at(b, pos) {
        lemma_scan_len_bound(b, pos + spec_entry_size_at(b, pos));
    }
}

/// An empty byte sequence scans to nothing.
pub proof fn lemma_scan_empty()
    ensures
        spec_scan(Seq::<u8>::empty()) == Seq::<ScanEntry>::empty(),
{
    assert(!entry_valid_at(Seq::<u8>::empty(), 0));
}

/// How many records of `log` lie entirely within the first `k` encoded bytes.
pub open spec fn spec_full_records(log: Seq<RecordModel>, k: int) -> int
    decreases log.len(),
{
    if log.len() == 0 || k < spec_record_size(log[0]) {
        0
    } else {
        1 + spec_full_records(log.skip(1), k - spec_record_size(log[0]))
    }
}

pub proof fn lemma_full_records_bounds(log: Seq<RecordModel>, k: int)
    ensures
        0 <= spec_full_records(log, k) <= log.len(),
    decreases log.len(),
{
    if log.len() > 0 && k >= spec_record_size(log[0]) {
        lemma_full_records_bounds(log.skip(1), k - spec_record_size(log[0]));
    }
}

/// Cutting an encoded log at an arbitrary byte boundary leaves exactly the
/// records whose bytes lie entirely within the cut; the trailing partial
/// record, if any, is unreadable.
pub proof fn lemma_scan_of_truncated(log: Seq<RecordModel>, k: int)
    requires
        all_fit(log),
        0 <= k <= spec_encode_log(log).len(),
    ensures
        ({
            let s = spec_scan(spec_encode_log(log).take(k));
            let n = spec_full_records(log, k);
            &&& s.len() == n
            &&& forall|i: int|
                0 <= i < n ==> (#[trigger] s[i]).off == spec_log_offset(log, i) && s[i].hdr
                    == spec_record_header(log[i]) && s[i].data == log[i].data && s[i].record()
                    == log[i]
        }),
    decreases log.len(),
{
    let b = spec_encode_log(log).take(k);
    if log.len() == 0 {
        assert(b =~= Seq::<u8>::empty());
        lemma_scan_empty();
    } else {
        let r0 = log[0];
        let sz0 = spec_record_size(r0);
        lemma_encode_record_len(r0);
        let full = spec_encode_record(r0) + spec_encode_log(log.skip(1));
        assert(spec_encode_log(log) == full);
        if k < sz0 {
            if k < LOG_ENTRY_HEADER_SIZE {
                assert(!header_complete_at(b, 0));
                assert(spec_scan(b).len() == 0);
            } else {
                // The header is intact, so its length field is r0's, and the
                // payload cannot fit under the cut.
                lemma_header_bytes_len(spec_record_header(r0));
                lemma_parse_header_roundtrip(spec_record_header(r0));
                assert(b.subrange(0, LOG_ENTRY_HEADER_SIZE as int) =~= spec_header_bytes(
                    spec_record_header(r0),
                ));
                assert(spec_header_at(b, 0) == spec_record_header(r0));
                assert(spec_header_at(b, 0).data_len == r0.data.len());
                assert(!entry_complete_at(b, 0));
                assert(spec_scan(b).len() == 0);
            }
        } else {
            let rest_cut = spec_encode_log(log.skip(1)).take(k - sz0);
            assert(b =~= spec_encode_record(r0) + rest_cut);
            lemma_encoded_entry_at(r0, rest_cut);
            lemma_scan_shift(spec_encode_record(r0), rest_cut, 0);
            lemma_scan_of_truncated(log.skip(1), k - sz0);
            let s = spec_scan(b);
            let sb = spec_scan(rest_cut);
            assert(entry_valid_at(b, 0));
            assert(s == seq![
                ScanEntry { off: 0, hdr: spec_record_header(r0), data: r0.data },
            ] + spec_scan_from(b, sz0));
            let n = spec_full_records(log, k);
            lemma_full_records_bounds(log.skip(1), k - sz0);
            assert forall|i: int| 0 <= i < n implies (#[trigger] s[i]).off == spec_log_offset(
                log,
                i,
            ) && s[i].hdr == spec_record_header(log[i]) && s[i].data == log[i].data && s[i].record()
                == log[i] by {
                if i == 0 {
                    assert(s[0] == (ScanEntry {
                        off: 0,
                        hdr: spec_record_header(r0),
                        data: r0.data,
                    }));
                } else {
                    assert(s[i] == spec_scan_from(b, sz0)[i - 1]);
                    assert(spec_scan_from(b, sz0)[i - 1] == (ScanEntry {
                        off: sz0 + sb[i - 1].off,
                        hdr: sb[i - 1].hdr,
                        data: sb[i - 1].data,
                    }));
                    assert(log.skip(1)[i - 1] == log[i]);
                }
            }
        }
    }
}

// ---------------------------------------------------------------------------
// Executable encode / decode
// ---------------------------------------------------------------------------

/// Encode a redo record into the on-disk header bytes.
/// The last 4 bytes (CRC) are zeroed — the caller fills them in.
pub fn encode_header(record: &RedoRecord) -> (buf: Vec<u8>)
    requires
        data_fits(record@),
    ensures
        buf@ == spec_header_bytes(record_header_with_crc(record@, 0)),
        buf@.len() == LOG_ENTRY_HEADER_SIZE,
{
    let ghost h = record_header_with_crc(record@, 0);
    let data_len: u16 = record.data.len() as u16;
    let flags: u8 = if record.is_mtr_end {
        1
    } else {
        0
    };
    let mut buf: Vec<u8> = Vec::new();
    let mut part = u64_to_le_bytes(record.lsn);
    buf.append(&mut part);
    let mut part = u64_to_le_bytes(record.page_id);
    buf.append(&mut part);
    let mut part = u16_to_le_bytes(record.offset);
    buf.append(&mut part);
    let mut part = u16_to_le_bytes(data_len);
    buf.append(&mut part);
    let mut part = u64_to_le_bytes(record.prev_lsn);
    buf.append(&mut part);
    let mut part = u64_to_le_bytes(record.mtr_id);
    buf.append(&mut part);
    buf.push(flags);
    let mut part = u32_to_le_bytes(0u32);
    buf.append(&mut part);
    proof {
        lemma_header_bytes_len(h);
        assert(buf@ =~= spec_header_bytes(h));
    }
    buf
}

/// Decode a header from raw bytes.
pub fn decode_header(buf: &[u8]) -> (h: LogEntryHeader)
    requires
        buf@.len() == LOG_ENTRY_HEADER_SIZE,
    ensures
        h == spec_parse_header(buf@),
{
    LogEntryHeader {
        lsn: u64_from_le_bytes(&buf[0..8]),
        page_id: u64_from_le_bytes(&buf[8..16]),
        offset: u16_from_le_bytes(&buf[16..18]),
        data_len: u16_from_le_bytes(&buf[18..20]),
        prev_lsn: u64_from_le_bytes(&buf[20..28]),
        mtr_id: u64_from_le_bytes(&buf[28..36]),
        flags: buf[36],
        crc32: u32_from_le_bytes(&buf[37..41]),
    }
}

/// Convert a header + data back into a RedoRecord.
pub fn header_to_record(hdr: &LogEntryHeader, data: Vec<u8>) -> (r: RedoRecord)
    ensures
        r@ == spec_header_to_record(*hdr, data@),
{
    RedoRecord {
        lsn: hdr.lsn,
        page_id: hdr.page_id,
        offset: hdr.offset,
        data: data,
        prev_lsn: hdr.prev_lsn,
        mtr_id: hdr.mtr_id,
        is_mtr_end: hdr.is_mtr_end(),
    }
}

/// Append the full on-disk image of `record` to `out`.
pub fn encode_record_into(out: &mut Vec<u8>, record: &RedoRecord)
    requires
        data_fits(record@),
    ensures
        final(out)@ == old(out)@ + spec_encode_record(record@),
{
    let header_bytes = encode_header(record);
    let crc = compute_crc(&header_bytes.as_slice()[0..LOG_ENTRY_HEADER_SIZE - 4], &record.data);
    proof {
        lemma_header_bytes_len(record_header_with_crc(record@, 0));
        assert(header_bytes@.subrange(0, 37) =~= spec_header_prefix(
            record_header_with_crc(record@, 0),
        ));
        assert(crc == spec_record_crc(record@));
    }
    let mut prefix_part = header_bytes;
    prefix_part.truncate(LOG_ENTRY_HEADER_SIZE - 4);
    out.append(&mut prefix_part);
    let mut crc_part = u32_to_le_bytes(crc);
    out.append(&mut crc_part);
    let mut data_part = record.data.clone();
    out.append(&mut data_part);
    proof {
        let h = spec_record_header(record@);
        assert(spec_header_prefix(h) =~= spec_header_prefix(record_header_with_crc(record@, 0)));
        assert(final(out)@ =~= old(out)@ + spec_encode_record(record@));
    }
}

} // verus!
