//! Core types shared by every component: records, watermarks, errors.

use vstd::prelude::*;

verus! {

/// Monotonically increasing log sequence number (1-based; 0 means "no LSN").
pub type Lsn = u64;

/// Logical page identifier.
pub type PageId = u64;

/// 8 KiB page — matches typical database page size.
pub const PAGE_SIZE: usize = 8192;

/// A fixed-size page image, always exactly `PAGE_SIZE` bytes long.
pub type Page = Vec<u8>;

/// The all-zero page image every materialization starts from.
pub open spec fn spec_zero_page() -> Seq<u8> {
    Seq::new(PAGE_SIZE as nat, |i: int| 0u8)
}

/// Return a zeroed page (blank slate for materialization).
pub fn empty_page() -> (p: Page)
    ensures
        p@ == spec_zero_page(),
{
    let p: Vec<u8> = vec![0u8; PAGE_SIZE];
    proof {
        assert(p@ =~= spec_zero_page());
    }
    p
}

/// Duplicate a page image byte by byte.
pub fn copy_page(src: &Page) -> (r: Page)
    ensures
        r@ == src@,
{
    let n = src.len();
    let mut out: Vec<u8> = Vec::new();
    let mut i: usize = 0;
    while i < n
        invariant
            n == src@.len(),
            0 <= i <= n,
            out@ == src@.take(i as int),
        decreases n - i,
    {
        out.push(src[i]);
        proof {
            assert(out@ =~= src@.take(i + 1));
        }
        i = i + 1;
    }
    proof {
        assert(src@.take(n as int) =~= src@);
    }
    out
}

/// Physical redo record: write `data` at `offset` of `page_id`.
pub struct RedoRecord {
    /// Log sequence number assigned at write time.
    pub lsn: Lsn,
    /// Which page this record modifies.
    pub page_id: PageId,
    /// Byte offset within the page where `data` should be written.
    pub offset: u16,
    /// Payload — the bytes to write at `offset`.
    pub data: Vec<u8>,
    /// Previous LSN that touched this same page (forms a per-page chain).
    pub prev_lsn: Lsn,
    /// Mini-transaction group identifier.
    pub mtr_id: u64,
    /// When `true`, this record is the Consistency Point LSN (CPL) of its MTR.
    pub is_mtr_end: bool,
}

/// The mathematical image of a redo record: the same fields with the payload
/// as a byte sequence.
pub ghost struct RecordModel {
    pub lsn: Lsn,
    pub page_id: PageId,
    pub offset: u16,
    pub data: Seq<u8>,
    pub prev_lsn: Lsn,
    pub mtr_id: u64,
    pub is_mtr_end: bool,
}

impl RecordModel {
    /// The record's payload stays within the page.
    pub open spec fn bounded(self) -> bool {
        self.offset + self.data.len() <= PAGE_SIZE
    }
}

impl View for RedoRecord {
    type V = RecordModel;

    open spec fn view(&self) -> RecordModel {
        RecordModel {
            lsn: self.lsn,
            page_id: self.page_id,
            offset: self.offset,
            data: self.data@,
            prev_lsn: self.prev_lsn,
            mtr_id: self.mtr_id,
            is_mtr_end: self.is_mtr_end,
        }
    }
}

/// The models of a sequence of records.
pub open spec fn views_of(rs: Seq<RedoRecord>) -> Seq<RecordModel> {
    rs.map_values(|r: RedoRecord| r@)
}

/// The LSN of the last record in `log` that targets page `p`, 0 if none does.
pub open spec fn latest_for(log: Seq<RecordModel>, p: PageId) -> Lsn
    decreases log.len(),
{
    if log.len() == 0 {
        0
    } else if log.last().page_id == p {
        log.last().lsn
    } else {
        latest_for(log.drop_last(), p)
    }
}

/// LSNs count 1, 2, 3, … from the start of the log.
pub open spec fn lsns_contiguous(log: Seq<RecordModel>) -> bool {
    forall|i: int| 0 <= i < log.len() ==> (#[trigger] log[i]).lsn == i + 1
}

/// A well-formed log: contiguous LSNs, every record's `prev_lsn` names the
/// previous record touching the same page, and payloads stay within the page.
pub open spec fn log_wf(log: Seq<RecordModel>) -> bool {
    forall|i: int|
        0 <= i < log.len() ==> {
            &&& (#[trigger] log[i]).lsn == i + 1
            &&& log[i].prev_lsn == latest_for(log.take(i), log[i].page_id)
            &&& log[i].bounded()
        }
}

/// The records of page `p` visible at read point `r`, oldest first.
pub open spec fn visible_records(log: Seq<RecordModel>, p: PageId, r: Lsn) -> Seq<RecordModel>
    decreases log.len(),
{
    if log.len() == 0 {
        Seq::<RecordModel>::empty()
    } else {
        let rest = visible_records(log.drop_last(), p, r);
        if log.last().page_id == p && log.last().lsn <= r {
            rest.push(log.last())
        } else {
            rest
        }
    }
}

/// The LSN of the latest CPL in the log, 0 if there is none.
pub open spec fn last_cpl(log: Seq<RecordModel>) -> Lsn
    decreases log.len(),
{
    if log.len() == 0 {
        0
    } else if log.last().is_mtr_end {
        log.last().lsn
    } else {
        last_cpl(log.drop_last())
    }
}

/// Where `latest_for` points: at the last record of the page, beyond which no
/// record targets it.
pub proof fn lemma_latest_for_bounds(log: Seq<RecordModel>, p: PageId)
    requires
        lsns_contiguous(log),
    ensures
        0 <= latest_for(log, p) <= log.len(),
        latest_for(log, p) == 0 ==> forall|j: int|
            0 <= j < log.len() ==> (#[trigger] log[j]).page_id != p,
        latest_for(log, p) > 0 ==> log[latest_for(log, p) - 1].page_id == p,
        latest_for(log, p) > 0 ==> forall|j: int|
            latest_for(log, p) <= j < log.len() ==> (#[trigger] log[j]).page_id != p,
    decreases log.len(),
{
    if log.len() > 0 {
        let prefix = log.drop_last();
        assert(forall|i: int| 0 <= i < prefix.len() ==> #[trigger] prefix[i] == log[i]);
        assert(lsns_contiguous(prefix));
        lemma_latest_for_bounds(prefix, p);
        let v = latest_for(log, p);
        if log.last().page_id == p {
            assert(log.last().lsn == log.len());
        } else {
            assert(v == latest_for(prefix, p));
            if v == 0 {
                assert forall|j: int| 0 <= j < log.len() implies (#[trigger] log[j]).page_id
                    != p by {
                    if j < log.len() - 1 {
                        assert(prefix[j] == log[j]);
                    }
                }
            } else {
                assert(prefix[v - 1] == log[v - 1]);
                assert forall|j: int| v <= j < log.len() implies (#[trigger] log[j]).page_id
                    != p by {
                    if j < log.len() - 1 {
                        assert(prefix[j] == log[j]);
                    }
                }
            }
        }
    }
}

/// A page nothing targets has no visible records.
pub proof fn lemma_visible_none(log: Seq<RecordModel>, p: PageId, r: Lsn)
    requires
        forall|j: int| 0 <= j < log.len() ==> (#[trigger] log[j]).page_id != p,
    ensures
        visible_records(log, p, r) == Seq::<RecordModel>::empty(),
    decreases log.len(),
{
    if log.len() > 0 {
        let prefix = log.drop_last();
        assert(forall|j: int| 0 <= j < prefix.len() ==> #[trigger] prefix[j] == log[j]);
        lemma_visible_none(prefix, p, r);
    }
}

/// Records above the read point do not change what is visible: cutting the
/// log anywhere at or beyond `r` leaves the visible records alone.
pub proof fn lemma_visible_take_stable(log: Seq<RecordModel>, p: PageId, r: Lsn, j: int)
    requires
        lsns_contiguous(log),
        r <= j <= log.len(),
    ensures
        visible_records(log.take(j), p, r) == visible_records(log, p, r),
    decreases log.len(),
{
    if j < log.len() {
        let prefix = log.drop_last();
        assert(lsns_contiguous(prefix)) by {
            assert(forall|i: int| 0 <= i < prefix.len() ==> #[trigger] prefix[i] == log[i]);
        }
        assert(log.last().lsn == log.len() > r);
        lemma_visible_take_stable(prefix, p, r, j);
        assert(prefix.take(j) =~= log.take(j));
    } else {
        assert(log.take(j) =~= log);
    }
}

/// Records of other pages do not change what is visible: the cut can skip
/// from `j` back to `v` when no record in between targets the page.
pub proof fn lemma_visible_skip_gap(log: Seq<RecordModel>, p: PageId, r: Lsn, v: int, j: int)
    requires
        0 <= v <= j <= log.len(),
        forall|x: int| v <= x < j ==> (#[trigger] log[x]).page_id != p,
    ensures
        visible_records(log.take(j), p, r) == visible_records(log.take(v), p, r),
    decreases j - v,
{
    if v < j {
        assert(log.take(j).drop_last() =~= log.take(j - 1));
        assert(log.take(j).last() == log[j - 1]);
        lemma_visible_skip_gap(log, p, r, v, j - 1);
    }
}

/// Visible records are records of the log, so they inherit its bounds.
pub proof fn lemma_visible_bounded(log: Seq<RecordModel>, p: PageId, r: Lsn)
    requires
        forall|i: int| 0 <= i < log.len() ==> (#[trigger] log[i]).bounded(),
    ensures
        forall|i: int|
            0 <= i < visible_records(log, p, r).len() ==> (#[trigger] visible_records(
                log,
                p,
                r,
            )[i]).bounded(),
    decreases log.len(),
{
    if log.len() > 0 {
        let prefix = log.drop_last();
        assert(forall|i: int| 0 <= i < prefix.len() ==> #[trigger] prefix[i] == log[i]);
        lemma_visible_bounded(prefix, p, r);
        let v = visible_records(log, p, r);
        let vp = visible_records(prefix, p, r);
        assert forall|i: int| 0 <= i < v.len() implies (#[trigger] v[i]).bounded() by {
            if log.last().page_id == p && log.last().lsn <= r {
                assert(v == vp.push(log.last()));
                if i < vp.len() {
                    assert(v[i] == vp[i]);
                } else {
                    assert(v[i] == log.last());
                    assert(log.last() == log[log.len() - 1]);
                }
            } else {
                assert(v == vp);
            }
        }
    }
}

/// The last CPL is the LSN of a record that closes its MTR, beyond which no
/// record does.
pub proof fn lemma_last_cpl_props(log: Seq<RecordModel>)
    requires
        lsns_contiguous(log),
    ensures
        0 <= last_cpl(log) <= log.len(),
        last_cpl(log) > 0 ==> log[last_cpl(log) - 1].is_mtr_end && log[last_cpl(log) - 1].lsn
            == last_cpl(log),
        forall|j: int|
            last_cpl(log) <= j < log.len() ==> !(#[trigger] log[j]).is_mtr_end,
    decreases log.len(),
{
    if log.len() > 0 {
        let prefix = log.drop_last();
        assert(forall|i: int| 0 <= i < prefix.len() ==> #[trigger] prefix[i] == log[i]);
        assert(log.last().lsn == log.len());
        lemma_last_cpl_props(prefix);
        let v = last_cpl(log);
        if !log.last().is_mtr_end {
            assert forall|j: int| v <= j < log.len() implies !(#[trigger] log[j]).is_mtr_end by {
                if j < log.len() - 1 {
                    assert(prefix[j] == log[j]);
                }
            }
            if v > 0 {
                assert(prefix[v - 1] == log[v - 1]);
            }
        }
    }
}

/// A prefix of a well-formed log is well-formed.
pub proof fn lemma_log_wf_take(log: Seq<RecordModel>, m: int)
    requires
        log_wf(log),
        0 <= m <= log.len(),
    ensures
        log_wf(log.take(m)),
{
    let t = log.take(m);
    assert forall|i: int|
        0 <= i < t.len() implies {
        &&& (#[trigger] t[i]).lsn == i + 1
        &&& t[i].prev_lsn == latest_for(t.take(i), t[i].page_id)
        &&& t[i].bounded()
    } by {
        assert(t[i] == log[i]);
        assert(t.take(i) =~= log.take(i));
    }
}

/// Appending a record whose LSN, chain pointer and bounds are right keeps the
/// log well-formed.
pub proof fn lemma_log_wf_snoc(log: Seq<RecordModel>, r: RecordModel)
    requires
        log_wf(log),
        r.lsn == log.len() + 1,
        r.prev_lsn == latest_for(log, r.page_id),
        r.bounded(),
    ensures
        log_wf(log.push(r)),
{
    let l2 = log.push(r);
    assert forall|i: int|
        0 <= i < l2.len() implies {
        &&& (#[trigger] l2[i]).lsn == i + 1
        &&& l2[i].prev_lsn == latest_for(l2.take(i), l2[i].page_id)
        &&& l2[i].bounded()
    } by {
        if i < log.len() {
            assert(l2[i] == log[i]);
            assert(l2.take(i) =~= log.take(i));
        } else {
            assert(l2[i] == r);
            assert(l2.take(i) =~= log);
        }
    }
}

/// One step of a backwards chain walk: following `prev_lsn` from the record
/// with LSN `c` skips only records of other pages, and collecting the record
/// itself extends the visible prefix exactly when its LSN is within reach.
pub proof fn lemma_chain_step(log: Seq<RecordModel>, p: PageId, t: Lsn, c: int)
    requires
        log_wf(log),
        1 <= c <= log.len(),
        log[c - 1].page_id == p,
    ensures
        log[c - 1].lsn == c,
        0 <= log[c - 1].prev_lsn < c,
        log[c - 1].prev_lsn > 0 ==> log[log[c - 1].prev_lsn - 1].page_id == p,
        visible_records(log.take(c - 1), p, t) == visible_records(
            log.take(log[c - 1].prev_lsn as int),
            p,
            t,
        ),
        log[c - 1].lsn <= t ==> visible_records(log.take(c), p, t) == visible_records(
            log.take(c - 1),
            p,
            t,
        ).push(log[c - 1]),
        log[c - 1].lsn > t ==> visible_records(log.take(c), p, t) == visible_records(
            log.take(c - 1),
            p,
            t,
        ),
{
    let prev = log[c - 1].prev_lsn;
    let prefix = log.take(c - 1);
    assert(forall|i: int| 0 <= i < prefix.len() ==> #[trigger] prefix[i] == log[i]);
    assert(lsns_contiguous(prefix));
    assert(prev == latest_for(prefix, p));
    lemma_latest_for_bounds(prefix, p);
    assert forall|x: int| prev <= x < c - 1 implies (#[trigger] log[x]).page_id != p by {
        assert(prefix[x] == log[x]);
    }
    lemma_visible_skip_gap(log, p, t, prev as int, c - 1);
    if prev > 0 {
        assert(prefix[prev - 1] == log[prev - 1]);
    }
    assert(log.take(c).drop_last() =~= log.take(c - 1));
    assert(log.take(c).last() == log[c - 1]);
}

/// Read points at or beyond every LSN in the log see the same records.
pub proof fn lemma_visible_eq_high(log: Seq<RecordModel>, p: PageId, r1: Lsn, r2: Lsn)
    requires
        lsns_contiguous(log),
        log.len() <= r1,
        log.len() <= r2,
    ensures
        visible_records(log, p, r1) == visible_records(log, p, r2),
    decreases log.len(),
{
    if log.len() > 0 {
        let prefix = log.drop_last();
        assert(forall|i: int| 0 <= i < prefix.len() ==> #[trigger] prefix[i] == log[i]);
        assert(log.last().lsn == log.len());
        lemma_visible_eq_high(prefix, p, r1, r2);
    }
}

/// Earlier read points see a prefix of what later ones see.
pub proof fn lemma_visible_monotone(log: Seq<RecordModel>, p: PageId, r1: Lsn, r2: Lsn)
    requires
        lsns_contiguous(log),
        r1 <= r2,
    ensures
        visible_records(log, p, r1) == visible_records(log, p, r2).take(
            visible_records(log, p, r1).len() as int,
        ),
        visible_records(log, p, r1).len() <= visible_records(log, p, r2).len(),
    decreases log.len(),
{
    if log.len() > 0 {
        let prefix = log.drop_last();
        assert(forall|i: int| 0 <= i < prefix.len() ==> #[trigger] prefix[i] == log[i]);
        assert(lsns_contiguous(prefix));
        lemma_visible_monotone(prefix, p, r1, r2);
        let last = log.last();
        assert(last.lsn == log.len());
        let v1 = visible_records(log, p, r1);
        let v2 = visible_records(log, p, r2);
        if last.page_id == p && last.lsn <= r1 {
            lemma_visible_eq_high(prefix, p, r1, r2);
            assert(v1 =~= v2.take(v1.len() as int));
        } else {
            assert(v1 =~= v2.take(v1.len() as int));
        }
    }
}

/// Fixed-size header written before each redo payload in the WAL.
///
/// Layout (little-endian):
///   lsn       : u64  (8)
///   page_id   : u64  (8)
///   offset    : u16  (2)
///   data_len  : u16  (2)
///   prev_lsn  : u64  (8)
///   mtr_id    : u64  (8)
///   flags     : u8   (1)   — bit 0 = is_mtr_end
///   crc32     : u32  (4)   — CRC of header bytes (excl. crc field) + data
pub const LOG_ENTRY_HEADER_SIZE: usize = 41;

pub struct LogEntryHeader {
    pub lsn: Lsn,
    pub page_id: PageId,
    pub offset: u16,
    pub data_len: u16,
    pub prev_lsn: Lsn,
    pub mtr_id: u64,
    pub flags: u8,
    pub crc32: u32,
}

impl LogEntryHeader {
    pub open spec fn spec_is_mtr_end(self) -> bool {
        self.flags & 1 != 0
    }

    /// Whether this entry closes its mini-transaction (bit 0 of `flags`).
    pub fn is_mtr_end(&self) -> (r: bool)
        ensures
            r == self.spec_is_mtr_end(),
    {
        self.flags & 1 != 0
    }
}

/// Durability watermarks that track how far the log is trustworthy.
pub struct DurabilityState {
    /// Volume Complete LSN — highest LSN where all prior LSNs are present.
    pub vcl: Lsn,
    /// Volume Durable LSN — highest CPL (MTR-end) whose LSN ≤ VCL.
    pub vdl: Lsn,
}

impl Clone for DurabilityState {
    fn clone(&self) -> (r: Self)
        ensures
            r == *self,
    {
        DurabilityState { vcl: self.vcl, vdl: self.vdl }
    }
}

impl Default for DurabilityState {
    fn default() -> (r: Self)
        ensures
            r.vcl == 0 && r.vdl == 0,
    {
        DurabilityState { vcl: 0, vdl: 0 }
    }
}

/// Every failure a storage operation can surface.
#[derive(Debug)]
pub enum StorageError {
    /// An input/output failure reported by the host.
    Io(String),
    /// The log bytes are not a trustworthy record sequence.
    Corruption(String),
    /// No record at or below the requested LSN targets this page.
    PageNotFound { page_id: PageId, lsn: Lsn },
    /// The requested read-point exceeds the durable LSN.
    LsnBeyondDurable { requested: Lsn, durable: Lsn },
    /// A record's payload would run past the end of its page.
    PageOverflow { offset: u16, len: usize },
    /// Anything else.
    Other(String),
}

} // verus!
