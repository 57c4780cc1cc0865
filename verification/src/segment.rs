//! Segmented WAL with hot/cold tiering: multiple segment byte logs and a
//! manifest that is the source of truth for segment tier and sealed-ness.
//! Persisting segments and the manifest (write-temp-then-rename) is the
//! host's concern.

use vstd::prelude::*;

use crate::codec::{
    clean_log_bytes, data_fits, lemma_encode_log_len, lemma_encode_log_snoc, lemma_log_offset_take,
    lemma_parse_at_offset, lemma_scan_of_encoded, lemma_wf_all_fit, scan_records, spec_encode_log,
    spec_log_offset, spec_record_header,
};
use crate::common::{LogEntryHeader, Lsn, PageId, RecordModel, RedoRecord, StorageError,
    LOG_ENTRY_HEADER_SIZE};
use crate::reader::{ReadResult, WalReader};
use crate::writer::WalWriter;

verus! {

pub type SegmentId = u32;

/// A segment's placement; cold reads are expected to be slow.
#[derive(Clone, Copy, Debug, PartialEq, Eq, Structural)]
pub enum Tier {
    Hot,
    Cold,
}

/// Where a record lives: which segment, and at which byte offset within it.
#[derive(Clone, Copy, Debug)]
pub struct LsnLocation {
    pub segment_id: SegmentId,
    pub file_offset: u64,
}

/// One manifest entry describing a segment.
#[derive(Clone, Copy, Debug)]
pub struct SegmentMeta {
    pub id: SegmentId,
    pub tier: Tier,
    pub lsn_range: (Lsn, Lsn),
    pub size_bytes: u64,
    pub sealed: bool,
}

/// Durable catalog of segments and the currently active segment id.
pub struct Manifest {
    pub segments: Vec<SegmentMeta>,
    /// The ID of the currently active (unsealed) segment.
    pub active_segment_id: SegmentId,
}

impl Manifest {
    pub fn new() -> (r: Self)
        ensures
            r.segments@.len() == 0,
            r.active_segment_id == 1,
    {
        Manifest { segments: Vec::new(), active_segment_id: 1 }
    }
}

/// The records held by the first `i` of the given segments, in order.
pub open spec fn segs_concat(segs: Seq<WalWriter>, i: int) -> Seq<RecordModel>
    decreases i,
{
    if i <= 0 {
        Seq::<RecordModel>::empty()
    } else {
        segs_concat(segs, i - 1) + scan_records(segs[i - 1]@)
    }
}

pub proof fn lemma_segs_concat_index(segs: Seq<WalWriter>, i: int, k: int)
    requires
        0 <= i < k <= segs.len(),
    ensures
        segs_concat(segs, i).len() + scan_records(segs[i]@).len() <= segs_concat(segs, k).len(),
        forall|j: int|
            0 <= j < scan_records(segs[i]@).len() ==> segs_concat(segs, k)[segs_concat(
                segs,
                i,
            ).len() + j] == #[trigger] scan_records(segs[i]@)[j],
    decreases k,
{
    if k == i + 1 {
    } else {
        lemma_segs_concat_index(segs, i, k - 1);
    }
}




pub proof fn lemma_segs_concat_push(segs: Seq<WalWriter>, w: WalWriter, i: int)
    requires
        0 <= i <= segs.len(),
    ensures
        segs_concat(segs.push(w), i) == segs_concat(segs, i),
    decreases i,
{
    if i > 0 {
        assert(segs.push(w)[i - 1] == segs[i - 1]);
        lemma_segs_concat_push(segs, w, i - 1);
    }
}

/// The segment respects the rotation bound: it stays within the configured
/// size, unless it holds a single record that is larger than the whole bound
/// on its own (rotation happens before a write, never splits a record).
pub open spec fn seg_size_ok(b: Seq<u8>, max: u64) -> bool {
    b.len() <= max || scan_records(b).len() <= 1
}

/// The records a list of segment byte logs holds: the first `i` logs' scans,
/// in order.
pub open spec fn scans_concat(bytes: Seq<Vec<u8>>, i: int) -> Seq<RecordModel>
    decreases i,
{
    if i <= 0 {
        Seq::<RecordModel>::empty()
    } else {
        scans_concat(bytes, i - 1) + scan_records(bytes[i - 1]@)
    }
}

/// The catalog lines up with a list of segment byte logs: ids count up from
/// 1, every listed segment is sealed, and the active segment follows them as
/// the last byte log.
pub open spec fn image_ok(manifest: Manifest, segment_count: int) -> bool {
    &&& segment_count == manifest.segments@.len() + 1
    &&& manifest.segments@.len() + 2 < u32::MAX
    &&& manifest.active_segment_id as int == manifest.segments@.len() + 1
    &&& (forall|i: int|
        0 <= i < manifest.segments@.len() ==> (#[trigger] manifest.segments@[i]).id == i + 1
            && manifest.segments@[i].sealed)
}

/// The byte logs of a well-formed store: every segment is exactly an encoded
/// record sequence and respects the rotation bound; the last (active) one may
/// exceed it only once segment ids are exhausted.
pub open spec fn image_bytes_wf(bytes: Seq<Vec<u8>>, max: u64) -> bool {
    &&& bytes.len() >= 1
    &&& (forall|i: int| 0 <= i < bytes.len() ==> clean_log_bytes((#[trigger] bytes[i])@))
    &&& (forall|i: int| 0 <= i < bytes.len() - 1 ==> seg_size_ok((#[trigger] bytes[i])@, max))
    &&& (seg_size_ok(bytes[bytes.len() - 1]@, max) || bytes.len() + 2 >= u32::MAX)
}

/// Sealed hot segments among the first `i` catalog entries.
pub open spec fn hot_sealed_count(s: Seq<SegmentMeta>, i: int) -> int
    decreases i,
{
    if i <= 0 {
        0
    } else {
        hot_sealed_count(s, i - 1) + if s[i - 1].sealed && s[i - 1].tier is Hot {
            1int
        } else {
            0int
        }
    }
}

/// Writers over the same bytes hold the same records.
proof fn lemma_scans_match(segs: Seq<WalWriter>, bytes: Seq<Vec<u8>>, i: int)
    requires
        0 <= i <= segs.len(),
        i <= bytes.len(),
        forall|k: int| 0 <= k < i ==> (#[trigger] bytes[k])@ == segs[k]@,
    ensures
        segs_concat(segs, i) == scans_concat(bytes, i),
    decreases i,
{
    if i > 0 {
        lemma_scans_match(segs, bytes, i - 1);
        assert(scan_records(bytes[i - 1]@) == scan_records(segs[i - 1]@));
    }
}

/// No prefix holds more sealed hot segments than entries.
pub proof fn lemma_hot_count_mono(s: Seq<SegmentMeta>, i: int)
    requires
        0 <= i,
    ensures
        0 <= hot_sealed_count(s, i),
        hot_sealed_count(s, i) <= i,
    decreases i,
{
    if i > 0 {
        lemma_hot_count_mono(s, i - 1);
    }
}

/// Manages multiple WAL segment files with hot/cold tiering.
pub struct SegmentManager {
    manifest: Manifest,
    sealed: Vec<WalWriter>,
    active: WalWriter,
    active_first_lsn: Lsn,
    max_segment_bytes: u64,
    cold_latency_ms: u64,
}

impl SegmentManager {
    /// All records in the store: sealed segments in id order, active last.
    pub closed spec fn records(self) -> Seq<RecordModel> {
        segs_concat(self.sealed@, self.sealed@.len() as int) + scan_records(self.active@)
    }

    /// Structural invariant over the catalog: segment ids count up from 1 and
    /// the active segment follows the sealed ones.
    pub closed spec fn ids_wf(self) -> bool {
        &&& self.manifest.segments@.len() == self.sealed@.len()
        &&& self.sealed@.len() + 2 < u32::MAX
        &&& (forall|i: int|
            0 <= i < self.sealed@.len() ==> (#[trigger] self.manifest.segments@[i]).id == i + 1
                && self.manifest.segments@[i].sealed)
        &&& self.manifest.active_segment_id as int == self.sealed@.len() + 1
    }

    /// Full invariant: the catalog is sound and every segment's bytes are
    /// exactly the encoding of its records.
    pub closed spec fn wf(self) -> bool {
        &&& self.ids_wf()
        &&& (forall|i: int|
            0 <= i < self.sealed@.len() ==> clean_log_bytes((#[trigger] self.sealed@[i])@))
        &&& clean_log_bytes(self.active@)
        &&& (forall|i: int|
            0 <= i < self.sealed@.len() ==> seg_size_ok(
                (#[trigger] self.sealed@[i])@,
                self.max_segment_bytes,
            ))
        &&& (seg_size_ok(self.active@, self.max_segment_bytes) || self.sealed@.len() + 3
            >= u32::MAX)
    }

    /// The location names the record at position `pos` of the store.
    pub closed spec fn loc_ok(self, pos: int, loc: LsnLocation) -> bool {
        let n = self.sealed@.len() as int;
        let sid = loc.segment_id as int;
        &&& 1 <= sid <= n + 1
        &&& (sid <= n ==> {
            let base = segs_concat(self.sealed@, sid - 1).len();
            &&& base <= pos < base + scan_records(self.sealed@[sid - 1]@).len()
            &&& loc.file_offset == spec_log_offset(
                scan_records(self.sealed@[sid - 1]@),
                pos - base,
            )
        })
        &&& (sid == n + 1 ==> {
            let base = segs_concat(self.sealed@, n).len();
            &&& base <= pos < base + scan_records(self.active@).len()
            &&& loc.file_offset == spec_log_offset(scan_records(self.active@), pos - base)
        })
    }

    /// The configured rotation threshold.
    pub closed spec fn spec_max_segment_bytes(self) -> u64 {
        self.max_segment_bytes
    }

    /// The catalog's entries, in order.
    pub closed spec fn catalog(self) -> Seq<SegmentMeta> {
        self.manifest.segments@
    }

    /// The active segment's id.
    pub closed spec fn active_id(self) -> SegmentId {
        self.manifest.active_segment_id
    }

    /// The first LSN written to the active segment; 0 while it is empty.
    pub closed spec fn spec_active_first_lsn(self) -> Lsn {
        self.active_first_lsn
    }

    /// The catalog entry a rotation writes for the segment being sealed.
    pub open spec fn sealed_meta(self) -> SegmentMeta {
        SegmentMeta {
            id: self.active_id(),
            tier: Tier::Hot,
            lsn_range: (self.spec_active_first_lsn(), self.spec_active_first_lsn()),
            size_bytes: self.seg_bytes(self.active_id() as int).len() as u64,
            sealed: true,
        }
    }

    /// Appending this record forces a rotation first: the active segment is
    /// non-empty, another segment id is available, and the record would push
    /// the segment past the configured size.
    pub open spec fn spec_needs_rotation(self, r: RecordModel) -> bool {
        &&& self.seg_bytes(self.active_id() as int).len() > 0
        &&& self.sealed_count() + 3 < u32::MAX
        &&& self.seg_bytes(self.active_id() as int).len() + crate::codec::spec_record_size(r)
            > self.spec_max_segment_bytes()
    }

    /// How many sealed segments the store holds.
    pub closed spec fn sealed_count(self) -> int {
        self.sealed@.len() as int
    }

    /// Open a fresh, empty segmented store.
    pub fn new_empty(max_segment_bytes: u64, cold_latency_ms: u64) -> (r: SegmentManager)
        ensures
            r.wf(),
            r.ids_wf(),
            r.records() == Seq::<RecordModel>::empty(),
            r.spec_max_segment_bytes() == max_segment_bytes,
            r.catalog() == Seq::<SegmentMeta>::empty(),
            r.active_id() == 1,
    {
        let r = SegmentManager {
            manifest: Manifest::new(),
            sealed: Vec::new(),
            active: WalWriter::open(Vec::new()),
            active_first_lsn: 0,
            max_segment_bytes,
            cold_latency_ms,
        };
        proof {
            crate::codec::lemma_scan_empty();
            assert(scan_records(r.active@) =~= Seq::<RecordModel>::empty());
            assert(r.records() =~= Seq::<RecordModel>::empty());
            assert(clean_log_bytes(r.active@)) by {
                assert(spec_encode_log(scan_records(r.active@)) =~= r.active@);
            }
            assert(r.catalog() =~= Seq::<SegmentMeta>::empty());
        }
        r
    }

    /// The artificial latency a cold read should incur, in milliseconds.
    pub fn cold_latency(&self) -> u64 {
        self.cold_latency_ms
    }

    /// The catalog: the source of truth for segment tier and sealed-ness.
    pub fn manifest(&self) -> (r: &Manifest)
        ensures
            r.segments@ == self.catalog(),
            r.active_segment_id == self.active_id(),
    {
        &self.manifest
    }

    /// Seal the current segment and open a new one.
    /// Returns (sealed_id, new_id).
    pub fn rotate(&mut self) -> (r: (SegmentId, SegmentId))
        requires
            old(self).wf(),
            old(self).sealed_count() + 3 < u32::MAX,
        ensures
            final(self).wf(),
            final(self).records() == old(self).records(),
            final(self).spec_max_segment_bytes() == old(self).spec_max_segment_bytes(),
            final(self).sealed_count() == old(self).sealed_count() + 1,
            forall|pos: int, loc: LsnLocation|
                old(self).loc_ok(pos, loc) ==> #[trigger] final(self).loc_ok(pos, loc),
            r.1 == r.0 + 1,
            r.0 == old(self).active_id(),
            final(self).active_id() == r.1,
            final(self).catalog() == old(self).catalog().push(old(self).sealed_meta()),
            forall|sid: int|
                1 <= sid <= r.0 ==> #[trigger] final(self).seg_bytes(sid) == old(self).seg_bytes(
                    sid,
                ),
            final(self).seg_bytes(r.1 as int) == Seq::<u8>::empty(),
            final(self).spec_active_first_lsn() == 0,
    {
        let sealed_id = self.manifest.active_segment_id;
        let first_lsn = self.active_first_lsn;
        let size = self.active.len();
        let meta = SegmentMeta {
            id: sealed_id,
            tier: Tier::Hot,
            lsn_range: (first_lsn, first_lsn),
            size_bytes: size as u64,
            sealed: true,
        };
        self.manifest.segments.push(meta);
        let mut fresh = WalWriter::open(Vec::new());
        core::mem::swap(&mut self.active, &mut fresh);
        self.sealed.push(fresh);
        let new_id = sealed_id + 1;
        self.manifest.active_segment_id = new_id;
        self.active_first_lsn = 0;
        proof {
            let segs0 = old(self).sealed@;
            let n = segs0.len() as int;
            let oldact = old(self).active;
            assert(self.sealed@ =~= segs0.push(oldact));
            assert(self.manifest.segments@ =~= old(self).manifest.segments@.push(meta));
            assert forall|i: int|
                0 <= i < self.sealed@.len() implies (#[trigger] self.manifest.segments@[i]).id == i
                + 1 && self.manifest.segments@[i].sealed by {
                if i < n {
                    assert(self.manifest.segments@[i] == old(self).manifest.segments@[i]);
                }
            }
            assert forall|i: int|
                0 <= i < self.sealed@.len() implies clean_log_bytes(
                (#[trigger] self.sealed@[i])@,
            ) by {
                if i < n {
                    assert(self.sealed@[i] == segs0[i]);
                } else {
                    assert(self.sealed@[i] == oldact);
                }
            }
            lemma_segs_concat_push(segs0, oldact, n);
            assert(segs_concat(self.sealed@, n + 1) == segs_concat(self.sealed@, n) + scan_records(
                self.sealed@[n]@,
            ));
            assert(self.sealed@[n] == oldact);
            crate::codec::lemma_scan_empty();
            assert(scan_records(self.active@) =~= Seq::<RecordModel>::empty());
            assert(clean_log_bytes(self.active@)) by {
                assert(spec_encode_log(scan_records(self.active@)) =~= self.active@);
            }
            assert(self.records() =~= old(self).records());
            assert(size as u64 == old(self).seg_bytes(sealed_id as int).len() as u64);
            assert(meta == old(self).sealed_meta());
            assert(self.catalog() =~= old(self).catalog().push(meta));
            assert forall|sid: int|
                1 <= sid <= sealed_id implies #[trigger] self.seg_bytes(sid) == old(
                self,
            ).seg_bytes(sid) by {
                if sid <= n {
                    assert(self.sealed@[sid - 1] == segs0[sid - 1]);
                } else {
                    assert(self.sealed@[sid - 1] == oldact);
                }
            }
            assert forall|pos: int, loc: LsnLocation|
                old(self).loc_ok(pos, loc) implies #[trigger] self.loc_ok(pos, loc) by {
                let sid = loc.segment_id as int;
                if sid <= n {
                    assert(self.sealed@[sid - 1] == segs0[sid - 1]);
                    lemma_segs_concat_push(segs0, oldact, sid - 1);
                } else {
                    lemma_segs_concat_push(segs0, oldact, n);
                }
            }
        }
        (sealed_id, new_id)
    }

    /// Append one record, rotating first when it would push the non-empty
    /// active segment past the configured size — so a sealed segment never
    /// exceeds the bound unless a single record does on its own.  Returns
    /// where the record went: the rotation opens segment id+1 and the record
    /// starts it at offset 0; otherwise the record lands at the end of the
    /// current active segment.
    #[verifier::rlimit(100)]
    #[verifier::spinoff_prover]
    pub fn append_record(&mut self, record: &RedoRecord) -> (loc: LsnLocation)
        requires
            old(self).wf(),
            data_fits(record@),
        ensures
            final(self).wf(),
            final(self).records() == old(self).records().push(record@),
            final(self).spec_max_segment_bytes() == old(self).spec_max_segment_bytes(),
            final(self).loc_ok(old(self).records().len() as int, loc),
            forall|pos: int, l2: LsnLocation|
                old(self).loc_ok(pos, l2) ==> #[trigger] final(self).loc_ok(pos, l2),
            loc.segment_id as int == if old(self).spec_needs_rotation(record@) {
                old(self).active_id() + 1
            } else {
                old(self).active_id() as int
            },
            loc.file_offset == if old(self).spec_needs_rotation(record@) {
                0
            } else {
                old(self).seg_bytes(old(self).active_id() as int).len()
            },
            final(self).active_id() == loc.segment_id,
            final(self).sealed_count() == old(self).sealed_count() + if old(
                self,
            ).spec_needs_rotation(record@) {
                1int
            } else {
                0int
            },
            final(self).catalog() == if old(self).spec_needs_rotation(record@) {
                old(self).catalog().push(old(self).sealed_meta())
            } else {
                old(self).catalog()
            },
            final(self).seg_bytes(loc.segment_id as int) == (if old(self).spec_needs_rotation(
                record@,
            ) {
                Seq::<u8>::empty()
            } else {
                old(self).seg_bytes(old(self).active_id() as int)
            }) + crate::codec::spec_encode_record(record@),
            final(self).spec_active_first_lsn() == if old(self).spec_needs_rotation(record@)
                || old(self).seg_bytes(old(self).active_id() as int).len() == 0 {
                record@.lsn
            } else {
                old(self).spec_active_first_lsn()
            },
    {
        let active_len = self.active.len();
        let needs = active_len > 0 && self.manifest.active_segment_id < u32::MAX - 2 && (
        self.max_segment_bytes < active_len as u64 || (LOG_ENTRY_HEADER_SIZE
            + record.data.len()) as u64 > self.max_segment_bytes - active_len as u64);
        proof {
            crate::codec::lemma_encode_record_len(record@);
            assert(needs == old(self).spec_needs_rotation(record@));
        }
        if needs {
            self.rotate();
        }
        let ghost mid = *self;
        if self.active.len() == 0 {
            self.active_first_lsn = record.lsn;
        }
        let off = self.active.len();
        let ghost act_recs = scan_records(self.active@);
        proof {
            assert(self.active@ == spec_encode_log(act_recs));
            lemma_encode_log_len(act_recs);
        }
        let sid = self.manifest.active_segment_id;
        self.active.append(record);
        proof {
            let act2 = act_recs.push(record@);
            lemma_encode_log_snoc(act_recs, record@);
            assert(self.active@ == spec_encode_log(act2));
            assert forall|i: int| 0 <= i < act2.len() implies data_fits(#[trigger] act2[i]) by {
                if i < act_recs.len() {
                    clean_fit_helper(mid.active@, i);
                }
            }
            lemma_scan_of_encoded(act2, Seq::<u8>::empty());
            assert(spec_encode_log(act2) + Seq::<u8>::empty() =~= spec_encode_log(act2));
            assert(scan_records(self.active@) =~= act2);
            let n = self.sealed@.len() as int;
            assert(self.records() =~= mid.records().push(record@));
            assert(mid.records() == old(self).records());
            // The new record's location.
            assert(off == spec_log_offset(act_recs, act_recs.len() as int));
            assert(act2.take(act_recs.len() as int) =~= act_recs);
            lemma_log_offset_take(act2, act_recs.len() as int, act_recs.len() as int);
            // Older locations stay valid: sealed segments are untouched, and
            // offsets within the active segment only depend on the records
            // before them.
            assert forall|pos: int, l2: LsnLocation|
                mid.loc_ok(pos, l2) implies #[trigger] self.loc_ok(pos, l2) by {
                let sid2 = l2.segment_id as int;
                if sid2 == n + 1 {
                    let base = segs_concat(self.sealed@, n).len();
                    lemma_log_offset_take(act2, act_recs.len() as int, pos - base);
                }
            }
            // The size bound: within the bound, a lone first record, or ids
            // exhausted.
            assert(seg_size_ok(self.active@, self.max_segment_bytes) || self.sealed@.len() + 3
                >= u32::MAX) by {
                crate::codec::lemma_encode_record_len(record@);
                if act_recs.len() == 0 {
                    assert(scan_records(self.active@).len() == 1);
                } else {
                    assert(!needs);
                    assert(active_len > 0);
                    if self.sealed@.len() + 3 < u32::MAX {
                        assert(mid.active@.len() + crate::codec::spec_record_size(record@)
                            <= self.max_segment_bytes);
                    }
                }
            }
            assert(self.seg_bytes(sid as int) == self.active@);
        }
        LsnLocation { segment_id: sid, file_offset: off as u64 }
    }

    /// Append a batch of records, rotating segments as needed.
    /// Returns a location for each record, in input order.
    pub fn append_batch(&mut self, records: &Vec<RedoRecord>) -> (locs: Vec<LsnLocation>)
        requires
            old(self).wf(),
            forall|i: int| 0 <= i < records@.len() ==> data_fits((#[trigger] records@[i])@),
        ensures
            final(self).wf(),
            final(self).records() == old(self).records() + crate::common::views_of(records@),
            final(self).spec_max_segment_bytes() == old(self).spec_max_segment_bytes(),
            locs@.len() == records@.len(),
            forall|i: int|
                0 <= i < records@.len() ==> #[trigger] final(self).loc_ok(
                    old(self).records().len() + i,
                    locs@[i],
                ),
    {
        let ghost models = crate::common::views_of(records@);
        let n = records.len();
        let mut locs: Vec<LsnLocation> = Vec::new();
        let mut i: usize = 0;
        proof {
            assert(old(self).records() + models.take(0) =~= old(self).records());
        }
        while i < n
            invariant
                n == records@.len(),
                models == crate::common::views_of(records@),
                forall|k: int| 0 <= k < records@.len() ==> data_fits((#[trigger] records@[k])@),
                0 <= i <= n,
                locs@.len() == i,
                self.wf(),
                self.spec_max_segment_bytes() == old(self).spec_max_segment_bytes(),
                self.records() == old(self).records() + models.take(i as int),
                forall|k: int|
                    0 <= k < i ==> #[trigger] self.loc_ok(old(self).records().len() + k, locs@[k]),
            decreases n - i,
        {
            let ghost before = *self;
            let loc = self.append_record(&records[i]);
            locs.push(loc);
            proof {
                assert(models.take(i as int).push(models[i as int]) =~= models.take(i + 1));
                assert(self.records() =~= old(self).records() + models.take(i + 1));
                assert(before.records().len() == old(self).records().len() + i);
            }
            i = i + 1;
        }
        proof {
            assert(models.take(n as int) =~= models);
        }
        locs
    }
}

impl SegmentManager {
    /// The bytes of segment `sid` (sealed segments by id, the active one last).
    pub closed spec fn seg_bytes(self, sid: int) -> Seq<u8> {
        if sid <= self.sealed@.len() {
            self.sealed@[sid - 1]@
        } else {
            self.active@
        }
    }

    /// The tier of segment `sid`; the active segment is always hot.
    pub closed spec fn spec_tier(self, sid: int) -> Tier {
        if sid <= self.sealed@.len() {
            self.manifest.segments@[sid - 1].tier
        } else {
            Tier::Hot
        }
    }

    /// What a well-formed store's public surface shows: the catalog ids
    /// count up from 1, every segment's bytes are exactly an encoded record
    /// sequence, and the rotation bound holds of them.
    pub proof fn lemma_wf_public_facts(self)
        requires
            self.wf(),
        ensures
            self.ids_wf(),
            self.catalog().len() == self.sealed_count(),
            self.sealed_count() + 2 < u32::MAX,
            self.active_id() as int == self.sealed_count() + 1,
            forall|i: int|
                0 <= i < self.catalog().len() ==> (#[trigger] self.catalog()[i]).id == i + 1
                    && self.catalog()[i].sealed,
            forall|sid: int|
                1 <= sid <= self.sealed_count() + 1 ==> clean_log_bytes(
                    #[trigger] self.seg_bytes(sid),
                ),
            forall|sid: int|
                1 <= sid <= self.sealed_count() ==> seg_size_ok(
                    #[trigger] self.seg_bytes(sid),
                    self.spec_max_segment_bytes(),
                ),
            seg_size_ok(self.seg_bytes(self.sealed_count() + 1), self.spec_max_segment_bytes())
                || self.sealed_count() + 3 >= u32::MAX,
    {
    }

    /// A store's records are exactly what its image's byte logs hold.
    pub proof fn lemma_records_of_image(self, bytes: Seq<Vec<u8>>)
        requires
            bytes.len() == self.sealed_count() + 1,
            forall|i: int| 0 <= i < bytes.len() ==> (#[trigger] bytes[i])@ == self.seg_bytes(i + 1),
        ensures
            scans_concat(bytes, bytes.len() as int) == self.records(),
    {
        let n = self.sealed@.len() as int;
        assert(forall|k: int| 0 <= k < n ==> (#[trigger] bytes[k])@ == self.sealed@[k]@);
        lemma_scans_match(self.sealed@, bytes, n);
        assert(bytes[n]@ == self.active@);
        assert(scans_concat(bytes, bytes.len() as int) == scans_concat(bytes, n) + scan_records(
            bytes[n]@,
        ));
    }

    /// Read the entry recorded at a location.
    pub(crate) fn read_at(&self, loc: LsnLocation, Ghost(pos): Ghost<int>) -> (r: (
        LogEntryHeader,
        Vec<u8>,
    ))
        requires
            self.wf(),
            0 <= pos < self.records().len(),
            self.loc_ok(pos, loc),
        ensures
            r.0 == spec_record_header(self.records()[pos]),
            r.1@ == self.records()[pos].data,
    {
        let n = self.sealed.len();
        let sid = loc.segment_id as usize;
        let bytes: &Vec<u8> = if sid <= n {
            self.sealed[sid - 1].log_bytes()
        } else {
            self.active.log_bytes()
        };
        let byte_len = bytes.len();
        let ghost seg_recs = scan_records(bytes@);
        let ghost base = if sid <= n {
            segs_concat(self.sealed@, sid as int - 1).len() as int
        } else {
            segs_concat(self.sealed@, n as int).len() as int
        };
        let ghost local = pos - base;
        proof {
            assert(clean_log_bytes(bytes@));
            assert(bytes@ == spec_encode_log(seg_recs));
            assert forall|i: int| 0 <= i < seg_recs.len() implies data_fits(
                #[trigger] seg_recs[i],
            ) by {
                clean_fit_helper(bytes@, i);
            }
            lemma_encode_log_len(seg_recs);
            crate::codec::lemma_log_offset_nonneg(seg_recs, local);
            crate::codec::lemma_log_offset_mono(seg_recs, local, seg_recs.len() as int);
            lemma_parse_at_offset(seg_recs, local);
            if sid <= n {
                lemma_segs_concat_index(self.sealed@, sid as int - 1, n as int);
                assert(segs_concat(self.sealed@, n as int)[base + local] == seg_recs[local]);
                assert(self.records()[pos] == segs_concat(self.sealed@, n as int)[pos]);
            } else {
                assert(self.records()[pos] == seg_recs[local]);
            }
        }
        let mut rd = WalReader::open(bytes);
        rd.seek_to(loc.file_offset);
        match rd.read_entry() {
            ReadResult::Entry(h, d) => (h, d),
            _ => {
                proof {
                    assert(false);
                }
                (
                    LogEntryHeader {
                        lsn: 0,
                        page_id: 0,
                        offset: 0,
                        data_len: 0,
                        prev_lsn: 0,
                        mtr_id: 0,
                        flags: 0,
                        crc32: 0,
                    },
                    Vec::new(),
                )
            },
        }
    }

    /// Open a reader for a given segment.  Returns the reader and its tier.
    pub fn open_segment_reader(&self, segment_id: SegmentId) -> (r: Result<
        (WalReader, Tier),
        StorageError,
    >)
        ensures
            self.wf() ==> (r is Ok <==> 1 <= segment_id <= self.sealed_count() + 1),
            self.wf() ==> (r matches Ok(p) ==> p.0@ == self.seg_bytes(segment_id as int)
                && p.0.pos == 0 && p.1 == self.spec_tier(segment_id as int)),
    {
        if segment_id == self.manifest.active_segment_id {
            return Ok((WalReader::open(self.active.log_bytes()), Tier::Hot));
        }
        let mut i: usize = 0;
        let n = self.manifest.segments.len();
        while i < n
            invariant
                n == self.manifest.segments@.len(),
                0 <= i <= n,
                self.wf() ==> forall|j: int|
                    0 <= j < i ==> (#[trigger] self.manifest.segments@[j]).id != segment_id,
            decreases n - i,
        {
            if self.manifest.segments[i].id == segment_id {
                if i < self.sealed.len() {
                    let tier = self.manifest.segments[i].tier;
                    return Ok((WalReader::open(self.sealed[i].log_bytes()), tier));
                } else {
                    return Err(StorageError::Corruption("catalog out of step".to_owned()));
                }
            }
            i = i + 1;
        }
        Err(StorageError::Other("no such segment".to_owned()))
    }

    /// Update the LSN range on a sealed segment: the catalog entries carrying
    /// `segment_id` get the given range; nothing else changes.
    pub fn update_sealed_lsn_range(&mut self, segment_id: SegmentId, lsn_range: (Lsn, Lsn))
        requires
            old(self).wf(),
        ensures
            final(self).wf(),
            final(self).records() == old(self).records(),
            final(self).sealed_count() == old(self).sealed_count(),
            final(self).spec_max_segment_bytes() == old(self).spec_max_segment_bytes(),
            final(self).active_id() == old(self).active_id(),
            final(self).spec_active_first_lsn() == old(self).spec_active_first_lsn(),
            forall|pos: int, l2: LsnLocation|
                old(self).loc_ok(pos, l2) ==> #[trigger] final(self).loc_ok(pos, l2),
            forall|sid: int| #[trigger] final(self).seg_bytes(sid) == old(self).seg_bytes(sid),
            final(self).catalog().len() == old(self).catalog().len(),
            forall|i: int|
                0 <= i < old(self).catalog().len() ==> #[trigger] final(self).catalog()[i] == (
                if old(self).catalog()[i].id == segment_id {
                    SegmentMeta { lsn_range, ..old(self).catalog()[i] }
                } else {
                    old(self).catalog()[i]
                }),
    {
        let n = self.manifest.segments.len();
        let mut i: usize = 0;
        while i < n
            invariant
                n == self.manifest.segments@.len(),
                0 <= i <= n,
                self.sealed == old(self).sealed,
                self.active == old(self).active,
                self.active_first_lsn == old(self).active_first_lsn,
                self.max_segment_bytes == old(self).max_segment_bytes,
                self.cold_latency_ms == old(self).cold_latency_ms,
                self.manifest.segments@.len() == old(self).manifest.segments@.len(),
                self.manifest.active_segment_id == old(self).manifest.active_segment_id,
                forall|j: int|
                    0 <= j < n ==> #[trigger] self.manifest.segments@[j] == (if j < i && old(
                        self,
                    ).manifest.segments@[j].id == segment_id {
                        SegmentMeta { lsn_range, ..old(self).manifest.segments@[j] }
                    } else {
                        old(self).manifest.segments@[j]
                    }),
                old(self).wf(),
            decreases n - i,
        {
            if self.manifest.segments[i].id == segment_id {
                let mut meta = self.manifest.segments[i];
                meta.lsn_range = lsn_range;
                self.manifest.segments[i] = meta;
            }
            i = i + 1;
        }
    }

    /// Move the oldest sealed hot segments to the cold tier, keeping the most
    /// recent `keep_hot` of them hot: with `n` sealed hot segments before the
    /// call, exactly the first `n - keep_hot` of them (in catalog order) turn
    /// cold, and their ids come back in that order; with `n <= keep_hot`
    /// nothing changes.  Moving the files is the host's concern.
    pub fn cool_segments(&mut self, keep_hot: usize) -> (cooled: Vec<SegmentId>)
        requires
            old(self).wf(),
        ensures
            final(self).wf(),
            final(self).records() == old(self).records(),
            final(self).sealed_count() == old(self).sealed_count(),
            final(self).spec_max_segment_bytes() == old(self).spec_max_segment_bytes(),
            final(self).active_id() == old(self).active_id(),
            final(self).spec_active_first_lsn() == old(self).spec_active_first_lsn(),
            forall|pos: int, l2: LsnLocation|
                old(self).loc_ok(pos, l2) ==> #[trigger] final(self).loc_ok(pos, l2),
            forall|sid: int| #[trigger] final(self).seg_bytes(sid) == old(self).seg_bytes(sid),
            ({
                let cat = old(self).catalog();
                let n_hot = hot_sealed_count(cat, cat.len() as int);
                let cooled_n = if n_hot <= keep_hot {
                    0int
                } else {
                    n_hot - keep_hot
                };
                &&& cooled@.len() == cooled_n
                &&& final(self).catalog().len() == cat.len()
                &&& (forall|i: int|
                    0 <= i < cat.len() ==> #[trigger] final(self).catalog()[i] == (if cat[
                        i
                    ].sealed && cat[i].tier is Hot && hot_sealed_count(cat, i + 1) <= cooled_n {
                        SegmentMeta { tier: Tier::Cold, ..cat[i] }
                    } else {
                        cat[i]
                    }))
                &&& (forall|k: int|
                    0 <= k < cooled@.len() ==> exists|i: int|
                        0 <= i < cat.len() && (#[trigger] cooled@[k]) == cat[i].id && cat[i].sealed
                            && cat[i].tier is Hot && hot_sealed_count(cat, i + 1) == k + 1)
            }),
    {
        let ghost cat = self.manifest.segments@;
        let n = self.manifest.segments.len();
        // Count the sealed hot segments.
        let mut hot: usize = 0;
        let mut i: usize = 0;
        while i < n
            invariant
                *self == *old(self),
                cat == self.manifest.segments@,
                n == self.manifest.segments@.len(),
                0 <= i <= n,
                hot <= i,
                hot as int == hot_sealed_count(cat, i as int),
            decreases n - i,
        {
            if self.manifest.segments[i].sealed && self.manifest.segments[i].tier == Tier::Hot {
                hot = hot + 1;
            }
            i = i + 1;
        }
        let mut cooled: Vec<SegmentId> = Vec::new();
        if hot <= keep_hot {
            proof {
                assert forall|i2: int|
                    0 <= i2 < cat.len() implies !(cat[i2].sealed && cat[i2].tier is Hot
                    && hot_sealed_count(cat, i2 + 1) <= 0) by {
                    if cat[i2].sealed && cat[i2].tier is Hot {
                        lemma_hot_count_mono(cat, i2);
                        assert(hot_sealed_count(cat, i2 + 1) == hot_sealed_count(cat, i2) + 1);
                    }
                }
            }
            return cooled;
        }
        let cooled_n = hot - keep_hot;
        let mut to_cool = cooled_n;
        let mut j: usize = 0;
        while j < n
            invariant
                n == self.manifest.segments@.len(),
                cat == old(self).manifest.segments@,
                cat.len() == n,
                0 <= j <= n,
                cooled_n as int == hot_sealed_count(cat, n as int) - keep_hot,
                0 < cooled_n,
                hot_sealed_count(cat, n as int) <= n,
                self.sealed == old(self).sealed,
                self.active == old(self).active,
                self.active_first_lsn == old(self).active_first_lsn,
                self.max_segment_bytes == old(self).max_segment_bytes,
                self.cold_latency_ms == old(self).cold_latency_ms,
                self.manifest.active_segment_id == old(self).manifest.active_segment_id,
                cooled@.len() == if hot_sealed_count(cat, j as int) <= cooled_n as int {
                    hot_sealed_count(cat, j as int)
                } else {
                    cooled_n as int
                },
                to_cool as int == cooled_n - cooled@.len(),
                forall|x: int|
                    0 <= x < n ==> #[trigger] self.manifest.segments@[x] == (if x < j && cat[
                        x
                    ].sealed && cat[x].tier is Hot && hot_sealed_count(cat, x + 1) <= cooled_n {
                        SegmentMeta { tier: Tier::Cold, ..cat[x] }
                    } else {
                        cat[x]
                    }),
                forall|k: int|
                    0 <= k < cooled@.len() ==> exists|i2: int|
                        0 <= i2 < cat.len() && (#[trigger] cooled@[k]) == cat[i2].id && cat[
                            i2
                        ].sealed && cat[i2].tier is Hot && hot_sealed_count(cat, i2 + 1) == k + 1,
                old(self).wf(),
            decreases n - j,
        {
            let ghost prior = cooled@;
            let is_hot_sealed = self.manifest.segments[j].sealed && self.manifest.segments[j].tier
                == Tier::Hot;
            proof {
                if j < n {
                    assert(self.manifest.segments@[j as int] == cat[j as int]) by {
                        assert(hot_sealed_count(cat, j as int + 1) >= hot_sealed_count(
                            cat,
                            j as int,
                        ));
                    }
                }
            }
            if to_cool > 0 && is_hot_sealed {
                let mut meta = self.manifest.segments[j];
                meta.tier = Tier::Cold;
                self.manifest.segments[j] = meta;
                cooled.push(meta.id);
                to_cool = to_cool - 1;
                proof {
                    assert(hot_sealed_count(cat, j as int + 1) == hot_sealed_count(cat, j as int)
                        + 1);
                    assert(cooled@ =~= prior.push(meta.id));
                    assert forall|k: int|
                        0 <= k < cooled@.len() implies exists|i2: int|
                        0 <= i2 < cat.len() && (#[trigger] cooled@[k]) == cat[i2].id && cat[
                            i2
                        ].sealed && cat[i2].tier is Hot && hot_sealed_count(cat, i2 + 1) == k
                        + 1 by {
                        if k < cooled@.len() - 1 {
                            assert(cooled@[k] == prior[k]);
                        } else {
                            assert(cooled@[k] == cat[j as int].id);
                            assert(hot_sealed_count(cat, j as int + 1) == k + 1);
                        }
                    }
                }
            } else {
                proof {
                    if is_hot_sealed {
                        assert(hot_sealed_count(cat, j as int + 1) == hot_sealed_count(
                            cat,
                            j as int,
                        ) + 1);
                        assert(hot_sealed_count(cat, j as int) >= cooled_n as int);
                    } else {
                        assert(hot_sealed_count(cat, j as int + 1) == hot_sealed_count(
                            cat,
                            j as int,
                        ));
                    }
                }
            }
            j = j + 1;
        }
        proof {
            lemma_hot_count_mono(cat, n as int);
            assert forall|x: int|
                0 <= x < self.sealed@.len() implies (#[trigger] self.manifest.segments@[x]).id == x
                + 1 && self.manifest.segments@[x].sealed by {
                assert(self.manifest.segments@[x].id == cat[x].id && self.manifest.segments@[
                    x
                ].sealed == cat[x].sealed);
            }
            assert(self.wf());
            assert(self.records() == old(self).records());
        }
        cooled
    }

    /// Open a segmented store over a catalog and the bytes of its segments:    /// Open a segmented store over a catalog and the bytes of its segments:
    /// sealed segments in id order, the active segment last.  A catalog that
    /// does not line up with the bytes is refused.  The store must be
    /// recovered before it is appended to.
    pub fn open(
        manifest: Manifest,
        segment_bytes: Vec<Vec<u8>>,
        max_segment_bytes: u64,
        cold_latency_ms: u64,
    ) -> (r: Result<SegmentManager, StorageError>)
        ensures
            r is Ok <==> image_ok(manifest, segment_bytes@.len() as int),
            r matches Err(e) ==> e is Corruption,
            r matches Ok(m) ==> ({
                &&& m.ids_wf()
                &&& m.spec_max_segment_bytes() == max_segment_bytes
                &&& m.catalog() == manifest.segments@
                &&& m.active_id() == manifest.active_segment_id
                &&& m.sealed_count() + 1 == segment_bytes@.len()
                &&& (forall|i: int|
                    0 <= i < segment_bytes@.len() ==> m.seg_bytes(i + 1) == (
                    #[trigger] segment_bytes@[i])@)
                &&& m.records() == scans_concat(segment_bytes@, segment_bytes@.len() as int)
                &&& (image_bytes_wf(segment_bytes@, max_segment_bytes) ==> m.wf())
            }),
    {
        let ghost sb = segment_bytes@;
        let n = manifest.segments.len();
        if segment_bytes.len() == 0 || segment_bytes.len() - 1 != n || (n as u64) >= (u32::MAX
            as u64) - 2 || manifest.active_segment_id as u64 != (n as u64) + 1 {
            proof {
                assert(!image_ok(manifest, sb.len() as int));
            }
            return Err(
                StorageError::Corruption("catalog does not match the segments".to_owned()),
            );
        }
        let mut i: usize = 0;
        while i < n
            invariant
                n == manifest.segments@.len(),
                0 <= i <= n,
                (n as u64) + 2 < u32::MAX,
                sb.len() == n + 1,
                manifest.active_segment_id as int == n + 1,
                forall|j: int|
                    0 <= j < i ==> (#[trigger] manifest.segments@[j]).id == j + 1
                        && manifest.segments@[j].sealed,
            decreases n - i,
        {
            if manifest.segments[i].id != (i as u32) + 1 || !manifest.segments[i].sealed {
                proof {
                    assert(!image_ok(manifest, sb.len() as int));
                }
                return Err(StorageError::Corruption("catalog ids out of order".to_owned()));
            }
            i = i + 1;
        }
        proof {
            assert(image_ok(manifest, sb.len() as int));
        }
        // Turn the byte lists into writers: sealed first, active last.
        let mut input = segment_bytes;
        let active_bytes = match input.pop() {
            Some(b) => b,
            None => {
                proof {
                    assert(false);
                }
                Vec::new()
            },
        };
        proof {
            assert(active_bytes@ == sb[n as int]@);
            assert(forall|k: int| 0 <= k < n ==> #[trigger] input@[k] == sb[k]);
        }
        let mut stack: Vec<Vec<u8>> = Vec::new();
        loop
            invariant
                sb.len() == n + 1,
                input@.len() + stack@.len() == n,
                forall|k: int| 0 <= k < input@.len() ==> #[trigger] input@[k] == sb[k],
                forall|k: int|
                    0 <= k < stack@.len() ==> (#[trigger] stack@[k])@ == sb[n - 1 - k]@,
            ensures
                stack@.len() == n,
                forall|k: int|
                    0 <= k < stack@.len() ==> (#[trigger] stack@[k])@ == sb[n - 1 - k]@,
            decreases input@.len(),
        {
            match input.pop() {
                Some(b) => stack.push(b),
                None => {
                    break ;
                },
            }
        }
        let mut sealed: Vec<WalWriter> = Vec::new();
        loop
            invariant
                sb.len() == n + 1,
                stack@.len() + sealed@.len() == n,
                forall|k: int|
                    0 <= k < stack@.len() ==> (#[trigger] stack@[k])@ == sb[n - 1 - k]@,
                forall|k: int| 0 <= k < sealed@.len() ==> (#[trigger] sealed@[k])@ == sb[k]@,
            ensures
                sealed@.len() == n,
                forall|k: int| 0 <= k < sealed@.len() ==> (#[trigger] sealed@[k])@ == sb[k]@,
            decreases stack@.len(),
        {
            match stack.pop() {
                Some(b) => sealed.push(WalWriter::open(b)),
                None => {
                    break ;
                },
            }
        }
        let m = SegmentManager {
            manifest,
            sealed,
            active: WalWriter::open(active_bytes),
            active_first_lsn: 0,
            max_segment_bytes,
            cold_latency_ms,
        };
        proof {
            assert(forall|i2: int|
                0 <= i2 < sb.len() ==> m.seg_bytes(i2 + 1) == (#[trigger] sb[i2])@);
            lemma_scans_match(m.sealed@, sb.map_values(|v: Vec<u8>| v), n as int);
            assert(sb.map_values(|v: Vec<u8>| v) =~= sb);
            assert(scans_concat(sb, sb.len() as int) == scans_concat(sb, n as int) + scan_records(
                sb[n as int]@,
            ));
            assert(m.records() == scans_concat(sb, sb.len() as int));
            if image_bytes_wf(sb, max_segment_bytes) {
                assert(m.wf()) by {
                    assert(forall|i2: int|
                        0 <= i2 < m.sealed@.len() ==> clean_log_bytes(
                            (#[trigger] m.sealed@[i2])@,
                        ));
                    assert(clean_log_bytes(m.active@));
                    assert(forall|i2: int|
                        0 <= i2 < m.sealed@.len() ==> seg_size_ok(
                            (#[trigger] m.sealed@[i2])@,
                            max_segment_bytes,
                        ));
                    assert(seg_size_ok(sb[sb.len() - 1]@, max_segment_bytes) || sb.len() + 2
                        >= u32::MAX);
                }
            }
        }
        Ok(m)
    }

    /// Give up the catalog and every segment's bytes (sealed in id order, the
    /// active segment last), e.g. so the host can persist them.
    pub fn into_image(self) -> (r: (Manifest, Vec<Vec<u8>>))
        ensures
            r.0.segments@ == self.catalog(),
            r.0.active_segment_id == self.active_id(),
            r.1@.len() == self.sealed_count() + 1,
            forall|i: int| 0 <= i < r.1@.len() ==> (#[trigger] r.1@[i])@ == self.seg_bytes(i + 1),
    {
        let ghost me = self;
        let SegmentManager { manifest, sealed: mut sealed, active, .. } = self;
        let ghost n = sealed@.len() as int;
        proof {
            assert(forall|k: int| 0 <= k < n ==> #[trigger] me.seg_bytes(k + 1) == sealed@[k]@);
        }
        let mut stack: Vec<Vec<u8>> = Vec::new();
        loop
            invariant
                n == me.sealed@.len(),
                sealed@.len() + stack@.len() == n,
                forall|k: int| 0 <= k < sealed@.len() ==> #[trigger] sealed@[k] == me.sealed@[k],
                forall|k: int|
                    0 <= k < stack@.len() ==> (#[trigger] stack@[k])@ == me.seg_bytes(n - k),
            ensures
                stack@.len() == n,
                forall|k: int|
                    0 <= k < stack@.len() ==> (#[trigger] stack@[k])@ == me.seg_bytes(n - k),
            decreases sealed@.len(),
        {
            let ghost pre = sealed@;
            match sealed.pop() {
                Some(w) => {
                    let ghost idx = sealed@.len() as int;
                    proof {
                        assert(0 <= idx < n);
                        assert(n == me.sealed@.len());
                        assert(pre[idx] == me.sealed@[idx]);
                        assert(w@ == me.sealed@[idx]@);
                    }
                    stack.push(w.into_bytes());
                    proof {
                        assert(me.seg_bytes(idx + 1) == me.sealed@[idx]@);
                    }
                },
                None => {
                    break ;
                },
            }
        }
        let mut bytes: Vec<Vec<u8>> = Vec::new();
        loop
            invariant
                n == me.sealed@.len(),
                stack@.len() + bytes@.len() == n,
                forall|k: int|
                    0 <= k < stack@.len() ==> (#[trigger] stack@[k])@ == me.seg_bytes(n - k),
                forall|k: int|
                    0 <= k < bytes@.len() ==> (#[trigger] bytes@[k])@ == me.seg_bytes(k + 1),
            ensures
                bytes@.len() == n,
                forall|k: int|
                    0 <= k < bytes@.len() ==> (#[trigger] bytes@[k])@ == me.seg_bytes(k + 1),
            decreases stack@.len(),
        {
            match stack.pop() {
                Some(b) => {
                    bytes.push(b);
                },
                None => {
                    break ;
                },
            }
        }
        bytes.push(active.into_bytes());
        proof {
            assert(me.seg_bytes(n + 1) == me.active@);
            assert(forall|i: int|
                0 <= i < bytes@.len() ==> (#[trigger] bytes@[i])@ == me.seg_bytes(i + 1));
        }
        (manifest, bytes)
    }
}

/// Every record of a clean byte log fits its header's length field/// Every record of a clean byte log fits its header's length field: its
/// payload was decoded from a 16-bit length to begin with.
proof fn clean_fit_helper(b: Seq<u8>, i: int)
    requires
        0 <= i < scan_records(b).len(),
    ensures
        data_fits(scan_records(b)[i]),
{
    crate::codec::lemma_scan_structure(b, 0, i);
    let s = crate::codec::spec_scan(b);
    assert(crate::codec::entry_valid_at(b, s[i].off));
    assert(s[i].data == crate::codec::spec_data_at(b, s[i].off));
    assert(scan_records(b)[i] == s[i].record());
}



/// Recovery does not trust stored chain pointers: each record's `prev_lsn` is
/// rebuilt as the latest earlier record of its page, which is what the chain
/// discipline demands of it.
pub open spec fn spec_rechain(recs: Seq<RecordModel>) -> Seq<RecordModel>
    decreases recs.len(),
{
    if recs.len() == 0 {
        Seq::<RecordModel>::empty()
    } else {
        let prefix = spec_rechain(recs.drop_last());
        prefix.push(
            RecordModel {
                prev_lsn: crate::common::latest_for(prefix, recs.last().page_id),
                ..recs.last()
            },
        )
    }
}

/// On a log whose chains are already right, re-chaining changes nothing.
pub proof fn lemma_rechain_id(recs: Seq<RecordModel>)
    requires
        crate::common::log_wf(recs),
    ensures
        spec_rechain(recs) == recs,
    decreases recs.len(),
{
    if recs.len() > 0 {
        let prefix = recs.drop_last();
        crate::common::lemma_log_wf_take(recs, recs.len() - 1);
        assert(prefix =~= recs.take(recs.len() - 1));
        lemma_rechain_id(prefix);
        assert(recs.last().prev_lsn == crate::common::latest_for(
            prefix,
            recs.last().page_id,
        ));
        assert(spec_rechain(recs) =~= recs);
    }
}

/// Data returned from segment recovery.
pub struct RecoveryData {
    /// Watermarks as observed by the scan.
    pub durability: crate::common::DurabilityState,
    /// Page → latest durable LSN index (only includes records ≤ VDL).
    pub page_index: std::collections::HashMap<PageId, Lsn>,
    /// LSN → location mapping (only includes records ≤ VDL).
    pub lsn_offsets: std::collections::HashMap<Lsn, LsnLocation>,
}


impl SegmentManager {
    /// Recover: scan all segments in id order (active last), decide the
    /// durable prefix, discard everything beyond it, and rebuild the indexes
    /// from the survivors.  The surviving records are re-laid into a single
    /// fresh active segment, so the recovered store always starts from one
    /// hot segment; appends then rotate as usual.  A surviving prefix that is
    /// not a well-formed chain is refused as corrupt rather than trusted.
    pub fn recover(&mut self) -> (r: Result<RecoveryData, StorageError>)
        requires
            old(self).ids_wf(),
        ensures
            r matches Err(e) ==> e is Corruption,
            r matches Ok(data) ==> ({
                &&& final(self).wf()
                &&& crate::common::log_wf(final(self).records())
                &&& final(self).records().len() == data.durability.vdl
                &&& crate::common::last_cpl(final(self).records()) == data.durability.vdl
                &&& data.durability.vdl <= data.durability.vcl
                &&& data.durability.vdl < u64::MAX
                &&& final(self).spec_max_segment_bytes() == old(self).spec_max_segment_bytes()
                &&& (forall|p: PageId|
                    #[trigger] data.page_index@.contains_key(p) <==> crate::common::latest_for(
                        final(self).records(),
                        p,
                    ) != 0)
                &&& (forall|p: PageId|
                    data.page_index@.contains_key(p) ==> #[trigger] data.page_index@[p]
                        == crate::common::latest_for(final(self).records(), p))
                &&& (forall|l: Lsn|
                    #[trigger] data.lsn_offsets@.contains_key(l) <==> 1 <= l
                        <= data.durability.vdl)
                &&& (forall|l: Lsn|
                    1 <= l <= data.durability.vdl ==> final(self).loc_ok(
                        l - 1,
                        #[trigger] data.lsn_offsets@[l],
                    ))
            }),
            (old(self).wf() && crate::common::log_wf(old(self).records())
                && old(self).records().len() < u64::MAX) ==> (r matches Ok(data)
                && data.durability.vcl == old(self).records().len() && data.durability.vdl
                == crate::common::last_cpl(old(self).records()) && final(self).records() == old(
                self,
            ).records().take(crate::common::last_cpl(old(self).records()) as int)),
    {
        let ghost init = *self;
        // Lay every segment's bytes out back to back, in scan order.
        let n = self.sealed.len();
        let mut all: Vec<u8> = Vec::new();
        let mut si: usize = 0;
        proof {
            assert(all@ =~= Seq::<u8>::empty());
            assert(init.wf() ==> all@ == spec_encode_log(segs_concat(self.sealed@, 0))) by {
                assert(spec_encode_log(segs_concat(self.sealed@, 0)) =~= Seq::<u8>::empty());
            }
        }
        while si < n
            invariant
                *self == init,
                init.ids_wf(),
                n == self.sealed@.len(),
                0 <= si <= n,
                init.wf() ==> all@ == spec_encode_log(segs_concat(self.sealed@, si as int)),
            decreases n - si,
        {
            all.extend_from_slice(self.sealed[si].log_bytes().as_slice());
            proof {
                if init.wf() {
                    let prev = segs_concat(self.sealed@, si as int);
                    let segr = scan_records(self.sealed@[si as int]@);
                    crate::codec::lemma_encode_log_concat(prev, segr);
                    assert(segs_concat(self.sealed@, si + 1) == prev + segr);
                    assert(self.sealed@[si as int]@ == spec_encode_log(segr));
                    assert(all@ =~= spec_encode_log(prev + segr));
                }
            }
            si = si + 1;
        }
        all.extend_from_slice(self.active.log_bytes().as_slice());
        proof {
            if init.wf() {
                let prev = segs_concat(self.sealed@, n as int);
                let actr = scan_records(self.active@);
                crate::codec::lemma_encode_log_concat(prev, actr);
                assert(self.active@ == spec_encode_log(actr));
                assert(all@ =~= spec_encode_log(prev + actr));
                assert(prev + actr == init.records());
            }
        }
        // Rebuild every record's chain pointer from the records before it:
        // the stored pointers are not trusted.
        let ghost raw_models = scan_records(all@);
        let entries = {
            let mut rd = WalReader::open(&all);
            rd.scan_all()
        };
        proof {
            let s_all = crate::codec::spec_scan(all@);
            assert(raw_models =~= s_all.map_values(|e: crate::codec::ScanEntry| e.record()));
            assert forall|i: int| 0 <= i < s_all.len() implies (#[trigger] entries@[i]).1@.len()
                == entries@[i].0.data_len && entries@[i].0 == s_all[i].hdr && entries@[i].1@
                == s_all[i].data by {
                crate::codec::lemma_scan_structure(all@, 0, i);
                assert(s_all[i].data == crate::codec::spec_data_at(all@, s_all[i].off));
            }
        }
        let mut stack: Vec<(LogEntryHeader, Vec<u8>)> = Vec::new();
        let mut input = entries;
        let ghost total = raw_models.len() as int;
        loop
            invariant
                input@.len() + stack@.len() == total,
                forall|i: int|
                    0 <= i < input@.len() ==> {
                        let e = #[trigger] input@[i];
                        &&& e.1@.len() == e.0.data_len
                        &&& crate::codec::spec_header_to_record(e.0, e.1@) == raw_models[i]
                    },
                forall|i: int|
                    0 <= i < stack@.len() ==> {
                        let e = #[trigger] stack@[i];
                        &&& e.1@.len() == e.0.data_len
                        &&& crate::codec::spec_header_to_record(e.0, e.1@) == raw_models[total - 1
                            - i]
                    },
            ensures
                stack@.len() == total,
                forall|i: int|
                    0 <= i < stack@.len() ==> {
                        let e = #[trigger] stack@[i];
                        &&& e.1@.len() == e.0.data_len
                        &&& crate::codec::spec_header_to_record(e.0, e.1@) == raw_models[total - 1
                            - i]
                    },
            decreases input@.len(),
        {
            let ghost input0 = input@;
            match input.pop() {
                Some(e) => {
                    stack.push(e);
                },
                None => {
                    break ;
                },
            }
        }
        let mut fixed: Vec<u8> = Vec::new();
        let mut last_for_page: std::collections::HashMap<PageId, Lsn> =
            std::collections::HashMap::new();
        let ghost mut k: int = 0;
        proof {
            assert(fixed@ =~= spec_encode_log(spec_rechain(raw_models.take(0))));
            assert(spec_rechain(raw_models.take(0)) =~= Seq::<RecordModel>::empty());
        }
        loop
            invariant
                0 <= k <= total,
                total == raw_models.len(),
                stack@.len() == total - k,
                forall|i: int|
                    0 <= i < stack@.len() ==> {
                        let e = #[trigger] stack@[i];
                        &&& e.1@.len() == e.0.data_len
                        &&& crate::codec::spec_header_to_record(e.0, e.1@) == raw_models[total - 1
                            - i]
                    },
                fixed@ == spec_encode_log(spec_rechain(raw_models.take(k))),
                forall|p: PageId|
                    #[trigger] last_for_page@.contains_key(p) ==> last_for_page@[p]
                        == crate::common::latest_for(spec_rechain(raw_models.take(k)), p),
                forall|p: PageId|
                    !(#[trigger] last_for_page@.contains_key(p)) ==> crate::common::latest_for(
                        spec_rechain(raw_models.take(k)),
                        p,
                    ) == 0,
            ensures
                k == total,
                fixed@ == spec_encode_log(spec_rechain(raw_models)),
            decreases stack@.len(),
        {
            let ghost out0 = spec_rechain(raw_models.take(k));
            match stack.pop() {
                Some((hdr, data)) => {
                    let prev: Lsn = match last_for_page.get(&hdr.page_id) {
                        Some(v) => *v,
                        None => 0,
                    };
                    let lsn = hdr.lsn;
                    let page_id = hdr.page_id;
                    let is_end = hdr.is_mtr_end();
                    let rec = RedoRecord {
                        lsn,
                        page_id,
                        offset: hdr.offset,
                        data,
                        prev_lsn: prev,
                        mtr_id: hdr.mtr_id,
                        is_mtr_end: is_end,
                    };
                    proof {
                        assert(crate::codec::spec_header_to_record(hdr, rec.data@)
                            == raw_models[k]);
                        assert(rec@ == RecordModel {
                            prev_lsn: crate::common::latest_for(out0, raw_models[k].page_id),
                            ..raw_models[k]
                        });
                        assert(crate::codec::data_fits(rec@));
                    }
                    crate::codec::encode_record_into(&mut fixed, &rec);
                    last_for_page.insert(page_id, lsn);
                    proof {
                        assert(raw_models.take(k + 1).drop_last() =~= raw_models.take(k));
                        assert(raw_models.take(k + 1).last() == raw_models[k]);
                        let out1 = spec_rechain(raw_models.take(k + 1));
                        assert(out1 == out0.push(rec@));
                        crate::codec::lemma_encode_log_snoc(out0, rec@);
                        assert(out1.drop_last() =~= out0);
                        assert(out1.last() == rec@);
                        assert(forall|p: PageId|
                            crate::common::latest_for(out1, p) == (if rec@.page_id == p {
                                rec@.lsn
                            } else {
                                crate::common::latest_for(out0, p)
                            }));
                        k = k + 1;
                    }
                },
                None => {
                    proof {
                        assert(raw_models.take(k) =~= raw_models);
                    }
                    break ;
                },
            }
        }
        let mut all = fixed;
        proof {
            if init.wf() && crate::common::log_wf(init.records()) && init.records().len()
                < u64::MAX {
                lemma_wf_all_fit(init.records());
                crate::codec::lemma_scan_records_of_encoded(init.records());
                assert(raw_models == init.records());
                lemma_rechain_id(raw_models);
                assert(all@ == spec_encode_log(init.records()));
            }
        }
        let ghost all0 = all@;
        proof {
            if init.wf() && crate::common::log_wf(init.records()) && init.records().len()
                < u64::MAX {
                crate::recovery::lemma_recover_round_trip(init.records());
            }
        }
        // Decide the durable prefix and cut the bytes back to it.
        let rr = match crate::recovery::recover(&mut all) {
            Ok(rr) => rr,
            Err(e) => {
                proof {
                    if init.wf() && crate::common::log_wf(init.records()) && init.records().len()
                        < u64::MAX {
                        assert(crate::recovery::recovered_wf(all0));
                        assert(false);
                    }
                }
                return Err(e);
            },
        };
        let ghost survivors = crate::recovery::spec_survivors(all0);
        let vdl = rr.durability.vdl;
        let flen = all.len();
        proof {
            crate::codec::lemma_scan_len_bound(all@, 0);
            assert(survivors.len() == vdl);
            assert(vdl < u64::MAX);
            crate::recovery::lemma_max_cpl_char(
                crate::codec::scan_records(all0),
                crate::recovery::spec_vcl(crate::codec::scan_records(all0)),
            );
            lemma_wf_all_fit(survivors);
        }
        // Decode the survivors back into records.
        let entries = {
            let mut rd = WalReader::open(&all);
            rd.scan_all()
        };
        let ghost s_all = crate::codec::spec_scan(all@);
        proof {
            lemma_scan_of_encoded(survivors, Seq::<u8>::empty());
            assert(spec_encode_log(survivors) + Seq::<u8>::empty() =~= spec_encode_log(survivors));
            assert(s_all.len() == survivors.len());
            assert forall|i: int| 0 <= i < s_all.len() implies crate::codec::spec_header_to_record(
                (#[trigger] entries@[i]).0,
                entries@[i].1@,
            ) == survivors[i] && data_fits(survivors[i]) by {
                crate::codec::lemma_encoded_entry_at(survivors[i], Seq::<u8>::empty());
                assert(crate::codec::spec_encode_record(survivors[i]) + Seq::<u8>::empty()
                    =~= crate::codec::spec_encode_record(survivors[i]));
                assert(entries@[i].0 == s_all[i].hdr);
                assert(entries@[i].1@ == s_all[i].data);
            }
        }
        let mut stack: Vec<(LogEntryHeader, Vec<u8>)> = Vec::new();
        let mut input = entries;
        let ghost total = survivors.len() as int;
        loop
            invariant
                input@.len() + stack@.len() == total,
                forall|i: int|
                    0 <= i < input@.len() ==> crate::codec::spec_header_to_record(
                        (#[trigger] input@[i]).0,
                        input@[i].1@,
                    ) == survivors[i],
                forall|k: int|
                    0 <= k < stack@.len() ==> crate::codec::spec_header_to_record(
                        (#[trigger] stack@[k]).0,
                        stack@[k].1@,
                    ) == survivors[total - 1 - k],
            ensures
                stack@.len() == total,
                forall|k: int|
                    0 <= k < stack@.len() ==> crate::codec::spec_header_to_record(
                        (#[trigger] stack@[k]).0,
                        stack@[k].1@,
                    ) == survivors[total - 1 - k],
            decreases input@.len(),
        {
            match input.pop() {
                Some(e) => {
                    stack.push(e);
                },
                None => {
                    break ;
                },
            }
        }
        let mut recs_vec: Vec<RedoRecord> = Vec::new();
        loop
            invariant
                stack@.len() + recs_vec@.len() == total,
                forall|k: int|
                    0 <= k < stack@.len() ==> crate::codec::spec_header_to_record(
                        (#[trigger] stack@[k]).0,
                        stack@[k].1@,
                    ) == survivors[total - 1 - k],
                forall|i: int|
                    0 <= i < recs_vec@.len() ==> (#[trigger] recs_vec@[i])@ == survivors[i],
            ensures
                recs_vec@.len() == total,
                forall|i: int|
                    0 <= i < recs_vec@.len() ==> (#[trigger] recs_vec@[i])@ == survivors[i],
            decreases stack@.len(),
        {
            match stack.pop() {
                Some((hdr, data)) => {
                    let rec = crate::codec::header_to_record(&hdr, data);
                    recs_vec.push(rec);
                },
                None => {
                    break ;
                },
            }
        }
        // Start from a fresh store and re-append the survivors through the
        // normal path, so the rebuilt segments honor the rotation bound.
        self.manifest = Manifest::new();
        self.sealed = Vec::new();
        self.active = WalWriter::open(Vec::new());
        self.active_first_lsn = 0;
        proof {
            crate::codec::lemma_scan_empty();
            assert(scan_records(self.active@) =~= Seq::<RecordModel>::empty());
            assert(clean_log_bytes(self.active@)) by {
                assert(spec_encode_log(scan_records(self.active@)) =~= self.active@);
            }
            assert(self.records() =~= Seq::<RecordModel>::empty());
            assert(self.wf());
            assert(crate::common::views_of(recs_vec@) =~= survivors);
            assert forall|i: int| 0 <= i < recs_vec@.len() implies data_fits(
                (#[trigger] recs_vec@[i])@,
            ) by {
                assert(recs_vec@[i]@ == survivors[i]);
            }
        }
        let ghost fresh = *self;
        let locs = self.append_batch(&recs_vec);
        let ghost me = *self;
        proof {
            assert(self.records() =~= survivors);
            assert forall|i: int| 0 <= i < locs@.len() implies #[trigger] me.loc_ok(
                i,
                locs@[i],
            ) by {
                assert(self.loc_ok(fresh.records().len() + i, locs@[i]));
                assert(fresh.records().len() == 0);
            }
        }
        // Key the location index by LSN.
        let mut lsn_offsets: std::collections::HashMap<Lsn, LsnLocation> =
            std::collections::HashMap::new();
        let vdl_us = vdl as usize;
        let mut l: usize = 0;
        while l < vdl_us
            invariant
                *self == me,
                vdl_us == vdl,
                locs@.len() == vdl,
                forall|i: int| 0 <= i < locs@.len() ==> #[trigger] me.loc_ok(i, locs@[i]),
                0 <= l <= vdl_us,
                forall|k: Lsn| #[trigger] lsn_offsets@.contains_key(k) <==> 1 <= k <= l,
                forall|k: Lsn| 1 <= k <= l ==> #[trigger] lsn_offsets@[k] == locs@[k - 1],
            decreases vdl_us - l,
        {
            lsn_offsets.insert((l as u64) + 1, locs[l]);
            l = l + 1;
        }
        proof {
            assert forall|k: Lsn| 1 <= k <= vdl implies self.loc_ok(
                k - 1,
                #[trigger] lsn_offsets@[k],
            ) by {
                assert(lsn_offsets@[k] == locs@[k - 1]);
                assert(me.loc_ok(k - 1, locs@[k - 1]));
            }
        }
        Ok(
            RecoveryData {
                durability: rr.durability,
                page_index: rr.page_index,
                lsn_offsets,
            },
        )
    }
}

} // verus!
