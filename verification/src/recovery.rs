//! WAL recovery: scan the log forward, decide the durable prefix, cut the
//! bytes back to it, and rebuild the in-memory indexes from the survivors.

use std::collections::HashMap;
use vstd::prelude::*;

use crate::codec::{
    clean_log_bytes, lemma_encode_log_len, lemma_log_offset_take, lemma_scan_of_encoded,
    lemma_scan_prefix_encodes, lemma_scan_structure, lemma_wf_all_fit, scan_records,
    spec_data_at, spec_encode_log, spec_entry_size_at, spec_header_at, spec_log_offset, spec_scan,
    spec_scan_from, ScanEntry,
};
use crate::common::{
    last_cpl, latest_for, lemma_last_cpl_props, lemma_log_wf_snoc, log_wf, lsns_contiguous,
    DurabilityState, LogEntryHeader, Lsn, PageId, RecordModel, StorageError,
    LOG_ENTRY_HEADER_SIZE, PAGE_SIZE,
};
use crate::reader::{ReadResult, WalReader};

verus! {

broadcast use vstd::std_specs::hash::group_hash_axioms;

/// Some record in the sequence carries this LSN.
pub open spec fn lsn_present(recs: Seq<RecordModel>, l: Lsn) -> bool {
    exists|i: int| 0 <= i < recs.len() && (#[trigger] recs[i]).lsn == l
}

/// Some record in the sequence carries this LSN and closes its MTR.
pub open spec fn cpl_present(recs: Seq<RecordModel>, l: Lsn) -> bool {
    exists|i: int| 0 <= i < recs.len() && (#[trigger] recs[i]).lsn == l && recs[i].is_mtr_end
}

/// Walk upwards from `k` while the next LSN is present.
pub open spec fn spec_vcl_from(recs: Seq<RecordModel>, k: u64) -> u64
    decreases u64::MAX - k,
{
    if k < u64::MAX && lsn_present(recs, (k + 1) as u64) {
        spec_vcl_from(recs, (k + 1) as u64)
    } else {
        k
    }
}

/// The Volume Complete LSN the scanned records justify: the largest N such
/// that every LSN in 1..=N is present.
pub open spec fn spec_vcl(recs: Seq<RecordModel>) -> u64 {
    spec_vcl_from(recs, 0)
}

/// The largest CPL at or below `k`, 0 if there is none.
pub open spec fn spec_max_cpl_le(recs: Seq<RecordModel>, k: u64) -> u64
    decreases k,
{
    if k == 0 {
        0
    } else if cpl_present(recs, k) {
        k
    } else {
        spec_max_cpl_le(recs, (k - 1) as u64)
    }
}

/// The Volume Durable LSN the scanned records justify: the largest CPL ≤ VCL.
pub open spec fn spec_vdl(recs: Seq<RecordModel>) -> u64 {
    spec_max_cpl_le(recs, spec_vcl(recs))
}

/// The records recovery keeps: those up to the VDL.
pub open spec fn spec_survivors(b: Seq<u8>) -> Seq<RecordModel> {
    scan_records(b).take(spec_vdl(scan_records(b)) as int)
}

/// The byte log's decoded prefix supports recovery: the records below the
/// VDL stand in LSN order with correct chains and in-page payloads, their
/// flag bytes are canonical, and the VDL record itself closes an MTR.
/// Every log the engine itself writes satisfies this, even cut off at an
/// arbitrary byte; recovery refuses anything else as corrupt rather than
/// trust its chain pointers.
pub open spec fn recovered_wf(b: Seq<u8>) -> bool {
    let items = spec_scan(b);
    let recs = scan_records(b);
    let vdl = spec_vdl(recs);
    &&& vdl <= recs.len()
    &&& log_wf(recs.take(vdl as int))
    &&& forall|i: int| 0 <= i < vdl ==> (#[trigger] items[i]).hdr.flags <= 1
    &&& vdl > 0 ==> recs[vdl - 1].is_mtr_end
}

/// The VCL is the largest contiguous LSN prefix: everything at or below it is
/// present, and nothing follows it directly (so a gap in the LSN sequence
/// caps the VCL right below the gap).
pub proof fn lemma_vcl_char(recs: Seq<RecordModel>)
    ensures
        forall|l: Lsn| 1 <= l <= spec_vcl(recs) ==> lsn_present(recs, l),
        spec_vcl(recs) == u64::MAX || !lsn_present(recs, (spec_vcl(recs) + 1) as u64),
{
    lemma_vcl_from_char(recs, 0);
}

proof fn lemma_vcl_from_char(recs: Seq<RecordModel>, k: u64)
    ensures
        k <= spec_vcl_from(recs, k),
        forall|l: Lsn| k < l <= spec_vcl_from(recs, k) ==> lsn_present(recs, l),
        spec_vcl_from(recs, k) == u64::MAX || !lsn_present(
            recs,
            (spec_vcl_from(recs, k) + 1) as u64,
        ),
    decreases u64::MAX - k,
{
    if k < u64::MAX && lsn_present(recs, (k + 1) as u64) {
        lemma_vcl_from_char(recs, (k + 1) as u64);
    }
}

/// On a log whose LSNs count 1, 2, 3, … the VCL is the whole log.
pub proof fn lemma_vcl_of_contiguous(recs: Seq<RecordModel>)
    requires
        lsns_contiguous(recs),
        recs.len() < u64::MAX,
    ensures
        spec_vcl(recs) == recs.len(),
{
    lemma_vcl_from_up(recs, 0);
}

proof fn lemma_vcl_from_up(recs: Seq<RecordModel>, k: u64)
    requires
        lsns_contiguous(recs),
        recs.len() < u64::MAX,
        0 <= k <= recs.len(),
    ensures
        spec_vcl_from(recs, k) == recs.len(),
    decreases recs.len() - k,
{
    if k < recs.len() {
        assert(recs[k as int].lsn == k + 1);
        assert(lsn_present(recs, (k + 1) as u64));
        lemma_vcl_from_up(recs, (k + 1) as u64);
    } else {
        assert(!lsn_present(recs, (k + 1) as u64)) by {
            if lsn_present(recs, (k + 1) as u64) {
                let i = choose|i: int|
                    0 <= i < recs.len() && (#[trigger] recs[i]).lsn == (k + 1) as u64;
                assert(recs[i].lsn == i + 1);
            }
        }
    }
}

/// The VDL never exceeds the VCL it was derived from.
pub proof fn lemma_max_cpl_char(recs: Seq<RecordModel>, k: u64)
    ensures
        0 <= spec_max_cpl_le(recs, k) <= k,
        spec_max_cpl_le(recs, k) > 0 ==> cpl_present(recs, spec_max_cpl_le(recs, k)),
        forall|l: Lsn| spec_max_cpl_le(recs, k) < l <= k ==> !cpl_present(recs, l),
    decreases k,
{
    if k > 0 && !cpl_present(recs, k) {
        lemma_max_cpl_char(recs, (k - 1) as u64);
    }
}

/// On a well-formed log the VDL recovery computes is exactly the LSN of the
/// last record that closes an MTR.
pub proof fn lemma_vdl_of_wf(log: Seq<RecordModel>)
    requires
        log_wf(log),
        log.len() < u64::MAX,
    ensures
        spec_vdl(log) == last_cpl(log),
{
    assert(lsns_contiguous(log)) by {
        assert(forall|i: int| 0 <= i < log.len() ==> (#[trigger] log[i]).lsn == i + 1);
    }
    lemma_vcl_of_contiguous(log);
    lemma_max_cpl_char(log, spec_vcl(log));
    lemma_last_cpl_props(log);
    let d = last_cpl(log);
    let r = spec_max_cpl_le(log, spec_vcl(log));
    if d > 0 {
        assert(cpl_present(log, d)) by {
            assert(log[d - 1].is_mtr_end && log[d - 1].lsn == d);
        }
    }
    assert(forall|l: Lsn| d < l <= log.len() ==> !cpl_present(log, l)) by {
        assert forall|l: Lsn| d < l <= log.len() implies !cpl_present(log, l) by {
            if cpl_present(log, l) {
                let i = choose|i: int|
                    0 <= i < log.len() && (#[trigger] log[i]).lsn == l && log[i].is_mtr_end;
                assert(log[i].lsn == i + 1);
                assert(!log[i].is_mtr_end);
            }
        }
    }
    if r > d {
        assert(cpl_present(log, r));
        assert(!cpl_present(log, r));
    }
    if r < d {
        assert(cpl_present(log, d));
        assert(!cpl_present(log, d));
    }
}

/// Round trip: a well-formed log written out and recovered keeps exactly the
/// prefix up to its last CPL; the VDL is the highest CPL, and the observed
/// VCL covers the whole log.
pub proof fn lemma_recover_round_trip(log: Seq<RecordModel>)
    requires
        log_wf(log),
        log.len() < u64::MAX,
    ensures
        recovered_wf(spec_encode_log(log)),
        spec_vcl(scan_records(spec_encode_log(log))) == log.len(),
        spec_vdl(scan_records(spec_encode_log(log))) == last_cpl(log),
        spec_survivors(spec_encode_log(log)) == log.take(last_cpl(log) as int),
{
    lemma_wf_all_fit(log);
    crate::codec::lemma_scan_records_of_encoded(log);
    let b = spec_encode_log(log);
    assert(scan_records(b) == log);
    assert(lsns_contiguous(log)) by {
        assert(forall|i: int| 0 <= i < log.len() ==> (#[trigger] log[i]).lsn == i + 1);
    }
    lemma_vcl_of_contiguous(log);
    lemma_vdl_of_wf(log);
    lemma_last_cpl_props(log);
    crate::common::lemma_log_wf_take(log, last_cpl(log) as int);
    lemma_scan_of_encoded(log, Seq::<u8>::empty());
    assert(spec_encode_log(log) + Seq::<u8>::empty() =~= spec_encode_log(log));
    assert forall|i: int| 0 <= i < spec_vdl(log) implies (#[trigger] spec_scan(b)[i]).hdr.flags
        <= 1 by {
        assert(spec_scan(b)[i].hdr == crate::codec::spec_record_header(log[i]));
    }
    assert(recovered_wf(b));
}

/// Cutting the encoded log at any byte offset and recovering keeps exactly
/// the records that lie entirely within the retained prefix; the VDL is the
/// highest CPL among them.
pub proof fn lemma_recover_after_truncation(log: Seq<RecordModel>, k: int)
    requires
        log_wf(log),
        log.len() < u64::MAX,
        0 <= k <= spec_encode_log(log).len(),
    ensures
        ({
            let b = spec_encode_log(log).take(k);
            let kept = crate::codec::spec_full_records(log, k);
            &&& scan_records(b) == log.take(kept)
            &&& spec_vcl(scan_records(b)) == kept
            &&& spec_vdl(scan_records(b)) == last_cpl(log.take(kept))
            &&& recovered_wf(b)
        }),
{
    lemma_wf_all_fit(log);
    crate::codec::lemma_scan_of_truncated(log, k);
    crate::codec::lemma_full_records_bounds(log, k);
    let b = spec_encode_log(log).take(k);
    let kept = crate::codec::spec_full_records(log, k);
    assert(scan_records(b) =~= log.take(kept));
    let cut = log.take(kept);
    crate::common::lemma_log_wf_take(log, kept);
    assert(lsns_contiguous(cut)) by {
        assert(forall|i: int| 0 <= i < cut.len() ==> (#[trigger] cut[i]).lsn == i + 1);
    }
    lemma_vcl_of_contiguous(cut);
    lemma_vdl_of_wf(cut);
    lemma_last_cpl_props(cut);
    crate::common::lemma_log_wf_take(cut, last_cpl(cut) as int);
    assert forall|i: int| 0 <= i < spec_vdl(cut) implies (#[trigger] spec_scan(b)[i]).hdr.flags
        <= 1 by {
        assert(spec_scan(b)[i].hdr == crate::codec::spec_record_header(log[i]));
        assert(log[i] == cut[i]);
    }
    assert(recovered_wf(b));
}

/// After recovery, no record with an LSN above the VDL exists in the store:
/// every survivor's LSN is at or below it.
pub proof fn lemma_no_records_beyond_vdl(b: Seq<u8>)
    requires
        recovered_wf(b),
    ensures
        forall|i: int|
            0 <= i < spec_survivors(b).len() ==> (#[trigger] spec_survivors(b)[i]).lsn <= spec_vdl(
                scan_records(b),
            ),
{
    let vdl = spec_vdl(scan_records(b));
    let survivors = spec_survivors(b);
    assert forall|i: int| 0 <= i < survivors.len() implies (#[trigger] survivors[i]).lsn
        <= vdl by {
        assert(survivors[i].lsn == i + 1);
    }
}

/// An interrupted batch whose retained part closes no MTR recovers exactly
/// like a clean crash right before the batch: same VDL, same survivors.
pub proof fn lemma_partial_batch_rolls_back(full: Seq<RecordModel>, base_len: int, k: int)
    requires
        log_wf(full),
        full.len() < u64::MAX,
        0 <= base_len <= crate::codec::spec_full_records(full, k) <= full.len(),
        0 <= k <= spec_encode_log(full).len(),
        forall|i: int|
            base_len <= i < crate::codec::spec_full_records(full, k) ==> !(#[trigger] full[
                i
            ]).is_mtr_end,
    ensures
        ({
            let cut = spec_encode_log(full).take(k);
            let base = full.take(base_len);
            &&& spec_vdl(scan_records(cut)) == last_cpl(base)
            &&& spec_survivors(cut) == base.take(last_cpl(base) as int)
        }),
{
    lemma_recover_after_truncation(full, k);
    let kept = crate::codec::spec_full_records(full, k);
    let cutlog = full.take(kept);
    let base = full.take(base_len);
    lemma_last_cpl_extend(full, base_len, kept);
    assert(spec_survivors(spec_encode_log(full).take(k)) =~= base.take(last_cpl(base) as int)) by {
        assert(cutlog.take(last_cpl(cutlog) as int) =~= base.take(last_cpl(base) as int));
    }
}

/// Extending a log with records that close no MTR leaves the last CPL alone.
proof fn lemma_last_cpl_extend(log: Seq<RecordModel>, m: int, j: int)
    requires
        0 <= m <= j <= log.len(),
        forall|i: int| m <= i < j ==> !(#[trigger] log[i]).is_mtr_end,
    ensures
        last_cpl(log.take(j)) == last_cpl(log.take(m)),
    decreases j - m,
{
    if m < j {
        assert(log.take(j).drop_last() =~= log.take(j - 1));
        assert(log.take(j).last() == log[j - 1]);
        lemma_last_cpl_extend(log, m, j - 1);
    }
}

/// An empty WAL recovers to VCL = VDL = 0 with empty indexes.
pub proof fn lemma_recover_empty()
    ensures
        recovered_wf(Seq::<u8>::empty()),
        spec_vcl(scan_records(Seq::<u8>::empty())) == 0,
        spec_vdl(scan_records(Seq::<u8>::empty())) == 0,
        spec_survivors(Seq::<u8>::empty()) == Seq::<RecordModel>::empty(),
{
    crate::codec::lemma_scan_empty();
    assert(scan_records(Seq::<u8>::empty()) =~= Seq::<RecordModel>::empty());
    let recs = scan_records(Seq::<u8>::empty());
    assert(!lsn_present(recs, 1u64));
    assert(spec_vcl(recs) == 0);
    assert(spec_vdl(recs) == 0);
    assert(spec_survivors(Seq::<u8>::empty()) =~= Seq::<RecordModel>::empty());
    assert(recs.take(0) =~= Seq::<RecordModel>::empty());
    assert(log_wf(recs.take(0)));
}

/// Result of WAL recovery: the durable state plus rebuilt indexes.
pub struct RecoveryResult {
    /// Watermarks as observed by the scan; the engine restarts from
    /// `vcl == vdl` since everything beyond the VDL is discarded.
    pub durability: DurabilityState,
    /// Page → latest durable LSN index (only includes records ≤ VDL).
    pub page_index: HashMap<PageId, Lsn>,
    /// LSN → byte offset mapping (only includes records ≤ VDL).
    pub lsn_offsets: HashMap<Lsn, u64>,
}

/// Does any of the scanned headers carry this LSN?
pub(crate) fn contains_lsn(hdrs: &Vec<LogEntryHeader>, l: Lsn, Ghost(recs): Ghost<Seq<RecordModel>>) -> (r:
    bool)
    requires
        recs.len() == hdrs@.len(),
        forall|i: int| 0 <= i < recs.len() ==> (#[trigger] recs[i]).lsn == hdrs@[i].lsn,
    ensures
        r == lsn_present(recs, l),
{
    let n = hdrs.len();
    let mut i: usize = 0;
    while i < n
        invariant
            n == hdrs@.len(),
            recs.len() == hdrs@.len(),
            forall|k: int| 0 <= k < recs.len() ==> (#[trigger] recs[k]).lsn == hdrs@[k].lsn,
            0 <= i <= n,
            forall|k: int| 0 <= k < i ==> (#[trigger] recs[k]).lsn != l,
        decreases n - i,
    {
        if hdrs[i].lsn == l {
            proof {
                assert(recs[i as int].lsn == l);
            }
            return true;
        }
        i = i + 1;
    }
    false
}

/// Does any of the scanned headers carry this LSN and close its MTR?
pub(crate) fn contains_cpl(hdrs: &Vec<LogEntryHeader>, l: Lsn, Ghost(recs): Ghost<Seq<RecordModel>>) -> (r:
    bool)
    requires
        recs.len() == hdrs@.len(),
        forall|i: int|
            0 <= i < recs.len() ==> (#[trigger] recs[i]).lsn == hdrs@[i].lsn
                && recs[i].is_mtr_end == hdrs@[i].spec_is_mtr_end(),
    ensures
        r == cpl_present(recs, l),
{
    let n = hdrs.len();
    let mut i: usize = 0;
    while i < n
        invariant
            n == hdrs@.len(),
            recs.len() == hdrs@.len(),
            forall|k: int|
                0 <= k < recs.len() ==> (#[trigger] recs[k]).lsn == hdrs@[k].lsn
                    && recs[k].is_mtr_end == hdrs@[k].spec_is_mtr_end(),
            0 <= i <= n,
            forall|k: int| 0 <= k < i ==> !((#[trigger] recs[k]).lsn == l && recs[k].is_mtr_end),
        decreases n - i,
    {
        if hdrs[i].lsn == l && hdrs[i].is_mtr_end() {
            proof {
                assert(recs[i as int].lsn == l && recs[i as int].is_mtr_end);
            }
            return true;
        }
        i = i + 1;
    }
    false
}

/// Compute VCL: highest N such that all LSNs 1..=N are present.
pub(crate) fn compute_vcl(hdrs: &Vec<LogEntryHeader>, Ghost(recs): Ghost<Seq<RecordModel>>) -> (r: u64)
    requires
        recs.len() == hdrs@.len(),
        forall|i: int| 0 <= i < recs.len() ==> (#[trigger] recs[i]).lsn == hdrs@[i].lsn,
    ensures
        r == spec_vcl(recs),
{
    let mut n: u64 = 0;
    loop
        invariant
            recs.len() == hdrs@.len(),
            forall|i: int| 0 <= i < recs.len() ==> (#[trigger] recs[i]).lsn == hdrs@[i].lsn,
            spec_vcl(recs) == spec_vcl_from(recs, n),
        ensures
            n == spec_vcl(recs),
        decreases u64::MAX - n,
    {
        if n == u64::MAX {
            break ;
        }
        if !contains_lsn(hdrs, n + 1, Ghost(recs)) {
            break ;
        }
        n = n + 1;
    }
    n
}

/// Compute VDL: the largest CPL at or below `vcl`.
pub(crate) fn compute_vdl(hdrs: &Vec<LogEntryHeader>, vcl: u64, Ghost(recs): Ghost<Seq<RecordModel>>) -> (r:
    u64)
    requires
        recs.len() == hdrs@.len(),
        forall|i: int|
            0 <= i < recs.len() ==> (#[trigger] recs[i]).lsn == hdrs@[i].lsn
                && recs[i].is_mtr_end == hdrs@[i].spec_is_mtr_end(),
    ensures
        r == spec_max_cpl_le(recs, vcl),
{
    let mut d: u64 = vcl;
    loop
        invariant
            recs.len() == hdrs@.len(),
            forall|i: int|
                0 <= i < recs.len() ==> (#[trigger] recs[i]).lsn == hdrs@[i].lsn
                    && recs[i].is_mtr_end == hdrs@[i].spec_is_mtr_end(),
            spec_max_cpl_le(recs, vcl) == spec_max_cpl_le(recs, d),
        ensures
            d == spec_max_cpl_le(recs, vcl),
        decreases d,
    {
        if d == 0 {
            break ;
        }
        if contains_cpl(hdrs, d, Ghost(recs)) {
            break ;
        }
        d = d - 1;
    }
    d
}

/// Perform WAL recovery on a byte log:
/// 1. Scan forward, collecting all valid entries.
/// 2. Compute VCL (highest contiguous LSN).
/// 3. Compute VDL (highest CPL ≤ VCL).
/// 4. Check the surviving prefix and rebuild the page → LSN and LSN → offset
///    indexes from it; refuse an inconsistent prefix as corrupt.
/// 5. Truncate the bytes right after the VDL record (discard incomplete MTRs).
///
/// On success the bytes are exactly the encoding of the surviving records:
/// nothing with an LSN above the VDL remains.
///
/// Step 4 is a defensive check on records the codec already accepted: a
/// record whose `prev_lsn` does not point at the latest earlier record for
/// its page, or whose header sets a flag bit other than the CPL bit, is
/// refused as `Corruption` even though its checksum verifies.
pub fn recover(bytes: &mut Vec<u8>) -> (r: Result<RecoveryResult, StorageError>)
    ensures
        r is Ok <==> recovered_wf(old(bytes)@),
        r matches Err(e) ==> final(bytes)@ == old(bytes)@ && e is Corruption,
        r matches Ok(res) ==> ({
            let recs = scan_records(old(bytes)@);
            let survivors = spec_survivors(old(bytes)@);
            &&& res.durability.vcl == spec_vcl(recs)
            &&& res.durability.vdl == spec_vdl(recs)
            &&& survivors.len() == spec_vdl(recs)
            &&& log_wf(survivors)
            &&& last_cpl(survivors) == spec_vdl(recs)
            &&& final(bytes)@ == crate::codec::spec_encode_log(survivors)
            &&& clean_log_bytes(final(bytes)@)
            &&& scan_records(final(bytes)@) == survivors
            &&& (forall|p: PageId|
                res.page_index@.contains_key(p) <==> latest_for(survivors, p) != 0)
            &&& (forall|p: PageId|
                res.page_index@.contains_key(p) ==> res.page_index@[p] == latest_for(
                    survivors,
                    p,
                ))
            &&& (forall|l: Lsn| res.lsn_offsets@.contains_key(l) <==> 1 <= l <= spec_vdl(recs))
            &&& (forall|l: Lsn|
                1 <= l <= spec_vdl(recs) ==> res.lsn_offsets@[l] == spec_log_offset(
                    survivors,
                    l - 1,
                ))
        }),
{
    let ghost b0 = bytes@;
    let ghost s = spec_scan(b0);
    let ghost recs = scan_records(b0);
    let total_len = bytes.len();
    // Phase 1: scan all valid entries, remembering headers and offsets.
    let mut hdrs: Vec<LogEntryHeader> = Vec::new();
    let mut offs: Vec<u64> = Vec::new();
    {
        let mut reader = WalReader::open(bytes);
        proof {
            assert(s.skip(0) =~= s);
        }
        loop
            invariant
                reader@ == b0,
                s == spec_scan(b0),
                hdrs@.len() == offs@.len(),
                hdrs@.len() <= s.len(),
                0 <= reader.pos <= b0.len(),
                spec_scan_from(b0, reader.pos as int) == s.skip(hdrs@.len() as int),
                forall|k: int| 0 <= k < hdrs@.len() ==> hdrs@[k] == (#[trigger] s[k]).hdr,
                forall|k: int| 0 <= k < offs@.len() ==> offs@[k] == (#[trigger] s[k]).off,
            ensures
                hdrs@.len() == s.len(),
                offs@.len() == s.len(),
                forall|k: int| 0 <= k < s.len() ==> hdrs@[k] == (#[trigger] s[k]).hdr,
                forall|k: int| 0 <= k < s.len() ==> offs@[k] == (#[trigger] s[k]).off,
            decreases s.len() - hdrs@.len(),
        {
            let ghost n0 = hdrs@.len() as int;
            let ghost p0 = reader.pos as int;
            let offset = reader.stream_position();
            match reader.read_entry() {
                ReadResult::Entry(hdr, _data) => {
                    proof {
                        let item = ScanEntry {
                            off: p0,
                            hdr: spec_header_at(b0, p0),
                            data: spec_data_at(b0, p0),
                        };
                        assert(spec_scan_from(b0, p0) == seq![item] + spec_scan_from(
                            b0,
                            p0 + spec_entry_size_at(b0, p0),
                        ));
                        assert(s.skip(n0)[0] == item);
                        assert(s[n0] == item);
                        assert(s.skip(n0).skip(1) =~= s.skip(n0 + 1));
                        assert(spec_scan_from(b0, p0).skip(1) =~= spec_scan_from(
                            b0,
                            p0 + spec_entry_size_at(b0, p0),
                        ));
                    }
                    hdrs.push(hdr);
                    offs.push(offset);
                },
                _ => {
                    proof {
                        assert(!crate::codec::entry_valid_at(b0, p0));
                        assert(spec_scan_from(b0, p0) =~= Seq::<ScanEntry>::empty());
                        assert(s.skip(n0).len() == 0);
                    }
                    break ;
                },
            }
        }
    }
    proof {
        assert(forall|i: int| 0 <= i < s.len() ==> (#[trigger] recs[i]) == s[i].record());
        assert(forall|i: int|
            0 <= i < recs.len() ==> (#[trigger] recs[i]).lsn == hdrs@[i].lsn
                && recs[i].is_mtr_end == hdrs@[i].spec_is_mtr_end());
    }
    // Phase 2: VCL — highest LSN N where all 1..=N are present.
    let vcl = compute_vcl(&hdrs, Ghost(recs));
    // Phase 3: VDL — highest CPL ≤ VCL.
    let vdl = compute_vdl(&hdrs, vcl, Ghost(recs));
    // Phase 4: check the surviving prefix and rebuild the indexes from it.
    let (page_index, lsn_offsets) = match rebuild_indexes(&hdrs, &offs, vdl, Ghost(b0)) {
        Ok(maps) => maps,
        Err(e) => {
            return Err(e);
        },
    };
    // Phase 5: truncate the log right after the VDL record.
    let ghost survivors = recs.take(vdl as int);
    let vdl_us = vdl as usize;
    proof {
        assert(vdl_us == vdl && vdl <= s.len());
    }
    let truncate_at: usize = if vdl_us == 0 {
        0
    } else {
        proof {
            lemma_scan_structure(b0, 0, vdl as int);
            lemma_scan_structure(b0, 0, vdl as int - 1);
        }
        let last_off = offs[vdl_us - 1];
        let dl = hdrs[vdl_us - 1].data_len as usize;
        proof {
            assert(crate::codec::entry_valid_at(b0, s[vdl - 1].off));
            assert(s[vdl - 1].off + LOG_ENTRY_HEADER_SIZE + s[vdl - 1].hdr.data_len <= b0.len());
            assert(b0.len() == total_len);
        }
        (last_off as usize) + LOG_ENTRY_HEADER_SIZE + dl
    };
    proof {
        if vdl_us == 0 {
            assert(survivors =~= Seq::<RecordModel>::empty());
            assert(spec_log_offset(recs, 0) == 0);
        } else {
            lemma_scan_structure(b0, 0, vdl as int);
        }
        assert(truncate_at == spec_log_offset(recs, vdl as int));
        lemma_log_offset_take(recs, vdl as int, vdl as int);
        lemma_encode_log_len(survivors);
        lemma_scan_prefix_encodes(b0, vdl as int);
        assert(truncate_at <= b0.len());
        assert(b0.subrange(0, truncate_at as int) == crate::codec::spec_encode_log(survivors));
    }
    bytes.truncate(truncate_at);
    proof {
        assert(bytes@ =~= b0.subrange(0, truncate_at as int));
        lemma_wf_all_fit(survivors);
        lemma_scan_of_encoded(survivors, Seq::<u8>::empty());
        assert(crate::codec::spec_encode_log(survivors) + Seq::<u8>::empty()
            =~= crate::codec::spec_encode_log(survivors));
        assert(scan_records(bytes@) =~= survivors);
        assert(clean_log_bytes(bytes@));
        if vdl > 0 {
            assert(survivors.last() == recs[vdl - 1]);
            assert(survivors.last().lsn == vdl);
            assert(last_cpl(survivors) == vdl);
        }
    }
    Ok(
        RecoveryResult {
            durability: DurabilityState { vcl, vdl },
            page_index,
            lsn_offsets,
        },
    )
}

/// Validate the survivors and rebuild the page and LSN indexes from them.
/// A survivor set that is not a well-formed chain is refused as corrupt
/// rather than trusted.
#[verifier::rlimit(100)]
#[verifier::spinoff_prover]
fn rebuild_indexes(
    hdrs: &Vec<LogEntryHeader>,
    offs: &Vec<u64>,
    vdl: u64,
    Ghost(b0): Ghost<Seq<u8>>,
) -> (r: Result<(HashMap<PageId, Lsn>, HashMap<Lsn, u64>), StorageError>)
    requires
        hdrs@.len() == spec_scan(b0).len(),
        offs@.len() == spec_scan(b0).len(),
        forall|i: int|
            0 <= i < spec_scan(b0).len() ==> hdrs@[i] == (#[trigger] spec_scan(b0)[i]).hdr,
        forall|i: int|
            0 <= i < spec_scan(b0).len() ==> offs@[i] == (#[trigger] spec_scan(b0)[i]).off,
        vdl == spec_vdl(scan_records(b0)),
    ensures
        r is Ok <==> recovered_wf(b0),
        r matches Err(e) ==> e is Corruption,
        r matches Ok(maps) ==> ({
            let recs = scan_records(b0);
            let survivors = recs.take(vdl as int);
            &&& log_wf(survivors)
            &&& survivors.len() == vdl
            &&& (forall|p: PageId|
                maps.0@.contains_key(p) <==> latest_for(survivors, p) != 0)
            &&& (forall|p: PageId|
                maps.0@.contains_key(p) ==> maps.0@[p] == latest_for(survivors, p))
            &&& (forall|l: Lsn| maps.1@.contains_key(l) <==> 1 <= l <= vdl)
            &&& (forall|l: Lsn|
                1 <= l <= vdl ==> maps.1@[l] == spec_log_offset(survivors, l - 1))
        }),
{
    let ghost s = spec_scan(b0);
    let ghost recs = scan_records(b0);
    proof {
        assert(recs.len() == s.len());
        assert(forall|i: int| 0 <= i < s.len() ==> (#[trigger] recs[i]) == s[i].record());
    }
    let n = hdrs.len();
    if vdl > n as u64 {
        proof {
            assert(!recovered_wf(b0)) by {
                if recovered_wf(b0) {
                    assert(spec_vdl(recs) <= recs.len());
                    assert(false);
                }
            }
        }
        return Err(StorageError::Corruption("durable LSN beyond scanned records".to_owned()));
    }
    let vdl_us = vdl as usize;
    let mut page_index: HashMap<PageId, Lsn> = HashMap::new();
    let mut lsn_offsets: HashMap<Lsn, u64> = HashMap::new();
    let mut i: usize = 0;
    proof {
        assert(recs.take(0) =~= Seq::<RecordModel>::empty());
    }
    while i < vdl_us
        invariant
            hdrs@.len() == s.len(),
            offs@.len() == s.len(),
            s == spec_scan(b0),
            recs == scan_records(b0),
            forall|k: int| 0 <= k < s.len() ==> hdrs@[k] == (#[trigger] s[k]).hdr,
            forall|k: int| 0 <= k < s.len() ==> offs@[k] == (#[trigger] s[k]).off,
            forall|k: int| 0 <= k < s.len() ==> (#[trigger] recs[k]) == s[k].record(),
            n == hdrs@.len(),
            vdl_us == vdl,
            vdl <= n,
            vdl == spec_vdl(recs),
            0 <= i <= vdl_us,
            log_wf(recs.take(i as int)),
            forall|k: int| 0 <= k < i ==> (#[trigger] s[k]).hdr.flags <= 1,
            forall|p: PageId|
                page_index@.contains_key(p) <==> latest_for(recs.take(i as int), p) != 0,
            forall|p: PageId|
                page_index@.contains_key(p) ==> page_index@[p] == latest_for(
                    recs.take(i as int),
                    p,
                ),
            forall|l: Lsn| lsn_offsets@.contains_key(l) <==> 1 <= l <= i,
            forall|l: Lsn| 1 <= l <= i ==> lsn_offsets@[l] == spec_log_offset(recs, l - 1),
        decreases vdl_us - i,
    {
        let ghost ii = i as int;
        let ghost m = recs[ii];
        proof {
            assert(m.lsn == s[ii].hdr.lsn && m.page_id == s[ii].hdr.page_id && m.prev_lsn
                == s[ii].hdr.prev_lsn && m.offset == s[ii].hdr.offset && m.is_mtr_end
                == s[ii].hdr.spec_is_mtr_end());
            assert(m.data == s[ii].data);
            lemma_scan_structure(b0, 0, ii);
            assert(m.data.len() == s[ii].hdr.data_len) by {
                assert(crate::codec::entry_valid_at(b0, s[ii].off));
                assert(s[ii].data == spec_data_at(b0, s[ii].off));
            }
        }
        let hdr_lsn = hdrs[i].lsn;
        if hdr_lsn != (i as u64) + 1 {
            proof {
                assert(!recovered_wf(b0)) by {
                    if recovered_wf(b0) {
                        assert(log_wf(recs.take(vdl as int)));
                        assert(recs.take(vdl as int)[ii] == recs[ii]);
                        assert(recs[ii].lsn == ii + 1);
                        assert(false);
                    }
                }
            }
            return Err(StorageError::Corruption("log sequence numbers out of order".to_owned()));
        }
        if hdrs[i].flags > 1 {
            proof {
                assert(!recovered_wf(b0)) by {
                    if recovered_wf(b0) {
                        assert((s[ii]).hdr.flags <= 1);
                        assert(false);
                    }
                }
            }
            return Err(StorageError::Corruption("unknown record flags".to_owned()));
        }
        if hdrs[i].offset as usize + hdrs[i].data_len as usize > PAGE_SIZE {
            proof {
                assert(!recovered_wf(b0)) by {
                    if recovered_wf(b0) {
                        assert(log_wf(recs.take(vdl as int)));
                        assert(recs.take(vdl as int)[ii] == recs[ii]);
                        assert(recs[ii].bounded());
                        assert(!m.bounded());
                        assert(false);
                    }
                }
            }
            return Err(StorageError::Corruption("record payload overflows its page".to_owned()));
        }
        let expected_prev: u64 = match page_index.get(&hdrs[i].page_id) {
            Some(v) => *v,
            None => 0,
        };
        proof {
            assert(expected_prev == latest_for(recs.take(ii), m.page_id));
        }
        if hdrs[i].prev_lsn != expected_prev {
            proof {
                assert(!recovered_wf(b0)) by {
                    if recovered_wf(b0) {
                        assert(log_wf(recs.take(vdl as int)));
                        assert(recs.take(vdl as int)[ii] == recs[ii]);
                        assert(recs.take(vdl as int).take(ii) =~= recs.take(ii));
                        assert(recs[ii].prev_lsn == latest_for(recs.take(ii), recs[ii].page_id));
                        assert(false);
                    }
                }
            }
            return Err(StorageError::Corruption("broken per-page chain".to_owned()));
        }
        lsn_offsets.insert(hdr_lsn, offs[i]);
        page_index.insert(hdrs[i].page_id, hdr_lsn);
        proof {
            lemma_log_wf_snoc(recs.take(ii), m);
            assert(recs.take(ii).push(m) =~= recs.take(ii + 1));
            assert(recs.take(ii + 1).drop_last() =~= recs.take(ii));
            assert(recs.take(ii + 1).last() == m);
            assert(forall|p: PageId|
                latest_for(recs.take(ii + 1), p) == if m.page_id == p {
                    m.lsn
                } else {
                    latest_for(recs.take(ii), p)
                });
        }
        i = i + 1;
    }
    if vdl_us > 0 && !hdrs[vdl_us - 1].is_mtr_end() {
        proof {
            assert(recs[vdl - 1].is_mtr_end == s[vdl - 1].hdr.spec_is_mtr_end());
            assert(!recovered_wf(b0)) by {
                if recovered_wf(b0) {
                    assert(scan_records(b0)[spec_vdl(scan_records(b0)) - 1].is_mtr_end);
                    assert(false);
                }
            }
        }
        return Err(StorageError::Corruption("durable point is not an MTR end".to_owned()));
    }
    proof {
        let survivors = recs.take(vdl as int);
        assert(recovered_wf(b0));
        assert forall|l: Lsn| 1 <= l <= vdl implies #[trigger] spec_log_offset(survivors, l - 1)
            == spec_log_offset(recs, l - 1) by {
            lemma_log_offset_take(recs, vdl as int, l - 1);
        }
    }
    Ok((page_index, lsn_offsets))
}

} // verus!
