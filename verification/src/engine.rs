//! The storage engine: owns the WAL store and the in-memory indexes, assigns
//! LSNs, maintains the durability watermarks, and materializes pages by chain
//! walk + redo replay, fronted by an LSN-keyed page cache.

use std::collections::HashMap;
use vstd::prelude::*;

use crate::codec::{
    clean_log_bytes, lemma_encode_log_len, lemma_encode_log_snoc, lemma_log_offset_take,
    lemma_scan_of_encoded, lemma_scan_len_bound, lemma_wf_all_fit, scan_records, spec_encode_log,
    spec_log_offset,
};
use crate::common::{
    last_cpl, latest_for, lemma_last_cpl_props, lemma_latest_for_bounds, lemma_log_wf_snoc,
    lemma_visible_bounded, lemma_visible_none, lemma_visible_take_stable, log_wf, lsns_contiguous,
    views_of, visible_records, DurabilityState, Lsn, Page, PageId, RecordModel, RedoRecord,
    StorageError, PAGE_SIZE,
};
use crate::materialize::{materialize_page, page_at, replay};
use crate::page_cache::PageCache;
use crate::reader::WalReader;
use crate::config::{StoragePreset, TieredConfig};
use crate::recovery::{recover, recovered_wf, spec_survivors, spec_vdl, RecoveryResult};
use crate::segment::{LsnLocation, Manifest, SegmentManager};
use crate::writer::WalWriter;

verus! {

broadcast use vstd::std_specs::hash::group_hash_axioms;

/// How one batch of records enters the log: each record in order gets the
/// next LSN, and its `prev_lsn` is the latest record of its page so far —
/// including records assigned earlier in the same batch.
pub open spec fn assign_batch(log: Seq<RecordModel>, batch: Seq<RecordModel>) -> Seq<RecordModel>
    decreases batch.len(),
{
    if batch.len() == 0 {
        log
    } else {
        let m = batch[0];
        let assigned = RecordModel {
            lsn: (log.len() + 1) as u64,
            prev_lsn: latest_for(log, m.page_id),
            ..m
        };
        assign_batch(log.push(assigned), batch.skip(1))
    }
}

pub proof fn lemma_assign_batch_len(log: Seq<RecordModel>, batch: Seq<RecordModel>)
    ensures
        assign_batch(log, batch).len() == log.len() + batch.len(),
    decreases batch.len(),
{
    if batch.len() > 0 {
        let m = batch[0];
        let assigned = RecordModel {
            lsn: (log.len() + 1) as u64,
            prev_lsn: latest_for(log, m.page_id),
            ..m
        };
        lemma_assign_batch_len(log.push(assigned), batch.skip(1));
    }
}

/// Assignment processes the batch front to back: adding one more record to
/// the batch appends its assigned form at the end.
pub proof fn lemma_assign_batch_snoc(log: Seq<RecordModel>, batch: Seq<RecordModel>, m: RecordModel)
    ensures
        ({
            let base = assign_batch(log, batch);
            assign_batch(log, batch.push(m)) == base.push(
                RecordModel {
                    lsn: (base.len() + 1) as u64,
                    prev_lsn: latest_for(base, m.page_id),
                    ..m
                },
            )
        }),
    decreases batch.len(),
{
    lemma_assign_batch_len(log, batch);
    if batch.len() == 0 {
        let a0 = RecordModel {
            lsn: (log.len() + 1) as u64,
            prev_lsn: latest_for(log, m.page_id),
            ..m
        };
        assert(batch.push(m)[0] == m);
        assert(batch.push(m).skip(1) =~= Seq::<RecordModel>::empty());
        assert(assign_batch(log, batch.push(m)) == assign_batch(
            log.push(a0),
            Seq::<RecordModel>::empty(),
        ));
        assert(assign_batch(log.push(a0), Seq::<RecordModel>::empty()) == log.push(a0));
        assert(assign_batch(log, batch) == log);
    } else {
        assert(batch.push(m)[0] == batch[0]);
        assert(batch.push(m).skip(1) =~= batch.skip(1).push(m));
        let first = RecordModel {
            lsn: (log.len() + 1) as u64,
            prev_lsn: latest_for(log, batch[0].page_id),
            ..batch[0]
        };
        assert(assign_batch(log, batch.push(m)) == assign_batch(
            log.push(first),
            batch.skip(1).push(m),
        ));
        assert(assign_batch(log, batch) == assign_batch(log.push(first), batch.skip(1)));
        lemma_assign_batch_snoc(log.push(first), batch.skip(1), m);
    }
}

/// What assignment does and does not touch: old records stay put, and each
/// batch record keeps its page, payload and MTR marking while receiving the
/// next LSN in order.
pub proof fn lemma_assign_batch_props(log: Seq<RecordModel>, batch: Seq<RecordModel>)
    requires
        log.len() + batch.len() < u64::MAX,
    ensures
        ({
            let l2 = assign_batch(log, batch);
            &&& l2.len() == log.len() + batch.len()
            &&& (forall|i: int| 0 <= i < log.len() ==> #[trigger] l2[i] == log[i])
            &&& (forall|i: int|
                0 <= i < batch.len() ==> {
                    let m = #[trigger] l2[log.len() + i];
                    &&& m.page_id == batch[i].page_id
                    &&& m.offset == batch[i].offset
                    &&& m.data == batch[i].data
                    &&& m.mtr_id == batch[i].mtr_id
                    &&& m.is_mtr_end == batch[i].is_mtr_end
                    &&& m.lsn == log.len() + i + 1
                })
        }),
    decreases batch.len(),
{
    let l2 = assign_batch(log, batch);
    lemma_assign_batch_len(log, batch);
    if batch.len() > 0 {
        let bprefix = batch.take(batch.len() - 1);
        let last = batch.last();
        assert(bprefix.push(last) =~= batch);
        lemma_assign_batch_snoc(log, bprefix, last);
        lemma_assign_batch_props(log, bprefix);
        lemma_assign_batch_len(log, bprefix);
        let base = assign_batch(log, bprefix);
        let assigned = RecordModel {
            lsn: (base.len() + 1) as u64,
            prev_lsn: latest_for(base, last.page_id),
            ..last
        };
        assert(l2 == base.push(assigned));
        assert forall|i: int| 0 <= i < log.len() implies #[trigger] l2[i] == log[i] by {
            assert(l2[i] == base[i]);
        }
        assert forall|i: int|
            0 <= i < batch.len() implies {
            let m = #[trigger] l2[log.len() + i];
            &&& m.page_id == batch[i].page_id
            &&& m.offset == batch[i].offset
            &&& m.data == batch[i].data
            &&& m.mtr_id == batch[i].mtr_id
            &&& m.is_mtr_end == batch[i].is_mtr_end
            &&& m.lsn == log.len() + i + 1
        } by {
            if i < batch.len() - 1 {
                assert(l2[log.len() + i] == base[log.len() + i]);
                assert(bprefix[i] == batch[i]);
            } else {
                assert(l2[log.len() + i] == assigned);
            }
        }
    }
}

/// The write-ahead log store behind the engine, with its location index.
enum WalBackend {
    /// A single append-only byte log.
    SingleFile { writer: WalWriter, lsn_offsets: HashMap<Lsn, u64> },
    /// Multiple segment byte logs with hot/cold tiering.
    Segmented { manager: SegmentManager, lsn_offsets: HashMap<Lsn, LsnLocation> },
}

impl WalBackend {
    /// The records the store holds.
    pub closed spec fn records(self) -> Seq<RecordModel> {
        match self {
            WalBackend::SingleFile { writer, .. } => scan_records(writer@),
            WalBackend::Segmented { manager, .. } => manager.records(),
        }
    }

    /// The store's bytes are exactly the encoding of its records, and the
    /// location index knows every LSN in them.
    pub closed spec fn wf(self) -> bool {
        match self {
            WalBackend::SingleFile { writer, lsn_offsets } => {
                &&& clean_log_bytes(writer@)
                &&& (forall|l: Lsn|
                    #[trigger] lsn_offsets@.contains_key(l) <==> 1 <= l <= scan_records(
                        writer@,
                    ).len())
                &&& (forall|l: Lsn|
                    1 <= l <= scan_records(writer@).len() ==> #[trigger] lsn_offsets@[l]
                        == spec_log_offset(scan_records(writer@), l - 1))
            },
            WalBackend::Segmented { manager, lsn_offsets } => {
                &&& manager.wf()
                &&& (forall|l: Lsn|
                    #[trigger] lsn_offsets@.contains_key(l) <==> 1 <= l
                        <= manager.records().len())
                &&& (forall|l: Lsn|
                    1 <= l <= manager.records().len() ==> manager.loc_ok(
                        l - 1,
                        #[trigger] lsn_offsets@[l],
                    ))
            },
        }
    }

    /// Append one record whose LSN and chain pointer have been assigned.
    fn append_assigned(&mut self, record: &RedoRecord)
        requires
            old(self).wf(),
            log_wf(old(self).records().push(record@)),
            record@.lsn == old(self).records().len() + 1,
        ensures
            final(self).wf(),
            final(self).records() == old(self).records().push(record@),
    {
        match self {
            WalBackend::SingleFile { writer, lsn_offsets } => {
                let ghost cur = scan_records(writer@);
                let ghost cur2 = cur.push(record@);
                proof {
                    assert(cur2[cur.len() as int] == record@);
                    assert(record@.bounded());
                    assert(crate::codec::data_fits(record@));
                }
                let off = writer.len();
                proof {
                    assert(writer@ == spec_encode_log(cur));
                    lemma_encode_log_len(cur);
                    assert(off == spec_log_offset(cur, cur.len() as int));
                }
                writer.append(record);
                lsn_offsets.insert(record.lsn, off as u64);
                proof {
                    lemma_encode_log_snoc(cur, record@);
                    assert(writer@ == spec_encode_log(cur2));
                    lemma_wf_all_fit(cur2);
                    lemma_scan_of_encoded(cur2, Seq::<u8>::empty());
                    assert(spec_encode_log(cur2) + Seq::<u8>::empty() =~= spec_encode_log(cur2));
                    assert(scan_records(writer@) =~= cur2);
                    assert(cur2.take(cur.len() as int) =~= cur);
                    assert forall|l: Lsn| 1 <= l <= cur2.len() implies #[trigger] lsn_offsets@[l]
                        == spec_log_offset(cur2, l - 1) by {
                        lemma_log_offset_take(cur2, cur.len() as int, l - 1);
                        if l <= cur.len() {
                            assert(lsn_offsets@[l] == spec_log_offset(cur, l - 1));
                            assert(spec_log_offset(cur2.take(cur.len() as int), l - 1)
                                == spec_log_offset(cur2, l - 1));
                            assert(spec_log_offset(cur, l - 1) == spec_log_offset(cur2, l - 1));
                        } else {
                            assert(l == cur.len() + 1);
                            assert(spec_log_offset(cur2.take(cur.len() as int), cur.len() as int)
                                == spec_log_offset(cur2, cur.len() as int));
                        }
                    }
                }
            },
            WalBackend::Segmented { manager, lsn_offsets } => {
                let ghost cur = manager.records();
                proof {
                    assert(cur.push(record@)[cur.len() as int] == record@);
                    assert(record@.bounded());
                    assert(crate::codec::data_fits(record@));
                }
                let loc = manager.append_record(record);
                lsn_offsets.insert(record.lsn, loc);
                proof {
                    let cur2 = cur.push(record@);
                    assert(manager.records() == cur2);
                    assert forall|l: Lsn|
                        1 <= l <= cur2.len() implies manager.loc_ok(
                        l - 1,
                        #[trigger] lsn_offsets@[l],
                    ) by {
                        if l <= cur.len() {
                            assert(old(self)->Segmented_manager.loc_ok(l - 1, lsn_offsets@[l]));
                        } else {
                            assert(l - 1 == cur.len());
                        }
                    }
                }
            },
        }
    }

    /// Walk a page's chain backwards from `start_lsn` and return the records
    /// with LSN ≤ `target_lsn`, oldest first.
    fn collect_chain(&self, page_id: PageId, start_lsn: Lsn, target_lsn: Lsn) -> (r: Result<
        Vec<RedoRecord>,
        StorageError,
    >)
        requires
            self.wf(),
            log_wf(self.records()),
            start_lsn == latest_for(self.records(), page_id),
        ensures
            r matches Ok(chain) && views_of(chain@) == visible_records(
                self.records(),
                page_id,
                target_lsn,
            ),
    {
        match self {
            WalBackend::SingleFile { writer, lsn_offsets } => {
                let mut rd = WalReader::open(writer.log_bytes());
                rd.collect_page_chain(page_id, start_lsn, target_lsn, lsn_offsets)
            },
            WalBackend::Segmented { manager, lsn_offsets } => {
                collect_segmented_chain(page_id, start_lsn, target_lsn, lsn_offsets, manager)
            },
        }
    }
}

/// Walk the prev_lsn chain across segments to collect the redo records of a
/// page with LSN ≤ `target_lsn`, oldest first.
#[verifier::rlimit(100)]
#[verifier::spinoff_prover]
fn collect_segmented_chain(
    page_id: PageId,
    start_lsn: Lsn,
    target_lsn: Lsn,
    lsn_offsets: &HashMap<Lsn, LsnLocation>,
    manager: &SegmentManager,
) -> (r: Result<Vec<RedoRecord>, StorageError>)
    requires
        manager.wf(),
        log_wf(manager.records()),
        forall|l: Lsn|
            #[trigger] lsn_offsets@.contains_key(l) <==> 1 <= l <= manager.records().len(),
        forall|l: Lsn|
            1 <= l <= manager.records().len() ==> manager.loc_ok(l - 1, #[trigger] lsn_offsets@[l]),
        start_lsn == latest_for(manager.records(), page_id),
    ensures
        r matches Ok(chain) && views_of(chain@) == visible_records(
            manager.records(),
            page_id,
            target_lsn,
        ),
{
    let ghost log = manager.records();
    let ghost vis = visible_records(log, page_id, target_lsn);
    proof {
        lemma_latest_for_bounds(log, page_id);
    }
    let mut chain: Vec<RedoRecord> = Vec::new();
    let mut current_lsn: Lsn = start_lsn;
    let ghost mut cut: int = start_lsn as int;
    proof {
        if start_lsn == 0 {
            lemma_visible_none(log, page_id, target_lsn);
            assert(log.take(0) =~= Seq::<RecordModel>::empty());
        } else {
            crate::common::lemma_visible_skip_gap(
                log,
                page_id,
                target_lsn,
                start_lsn as int,
                log.len() as int,
            );
            assert(log.take(log.len() as int) =~= log);
        }
        assert(views_of(chain@).reverse() =~= Seq::<RecordModel>::empty());
        assert(vis =~= visible_records(log.take(cut), page_id, target_lsn) + views_of(
            chain@,
        ).reverse());
    }
    while current_lsn != 0
        invariant
            manager.wf(),
            log == manager.records(),
            vis == visible_records(log, page_id, target_lsn),
            log_wf(log),
            forall|l: Lsn|
                #[trigger] lsn_offsets@.contains_key(l) <==> 1 <= l <= log.len(),
            forall|l: Lsn|
                1 <= l <= log.len() ==> manager.loc_ok(l - 1, #[trigger] lsn_offsets@[l]),
            0 <= cut <= log.len(),
            current_lsn != 0 ==> cut == current_lsn && 1 <= current_lsn <= log.len() && log[
                current_lsn - 1
            ].page_id == page_id,
            current_lsn == 0 ==> visible_records(log.take(cut), page_id, target_lsn)
                == Seq::<RecordModel>::empty(),
            vis == visible_records(log.take(cut), page_id, target_lsn) + views_of(
                chain@,
            ).reverse(),
        decreases current_lsn,
    {
        let c = current_lsn;
        let ghost ci = c as int;
        proof {
            crate::common::lemma_chain_step(log, page_id, target_lsn, ci);
        }
        let loc: LsnLocation = match lsn_offsets.get(&c) {
            Some(l2) => *l2,
            None => {
                proof {
                    assert(false);
                }
                LsnLocation { segment_id: 1, file_offset: 0 }
            },
        };
        let (hdr, data) = manager.read_at(loc, Ghost(ci - 1));
        let prev = hdr.prev_lsn;
        proof {
            assert(hdr == crate::codec::spec_record_header(log[ci - 1]));
            assert(prev == log[ci - 1].prev_lsn);
            if prev == 0 {
                assert(log.take(0) =~= Seq::<RecordModel>::empty());
            }
        }
        if c > target_lsn {
            proof {
                cut = prev as int;
            }
            current_lsn = prev;
        } else {
            let record = crate::codec::header_to_record(&hdr, data);
            let ghost chain0 = chain@;
            proof {
                assert(log[ci - 1].bounded());
                assert(crate::codec::data_fits(log[ci - 1]));
                crate::codec::lemma_encoded_entry_at(log[ci - 1], Seq::<u8>::empty());
                assert(record@ == log[ci - 1]);
            }
            chain.push(record);
            proof {
                let m = log[ci - 1];
                assert(views_of(chain@) =~= views_of(chain0).push(m));
                assert(views_of(chain@).reverse() =~= seq![m] + views_of(chain0).reverse());
                cut = prev as int;
                assert(vis =~= visible_records(log.take(cut), page_id, target_lsn) + views_of(
                    chain@,
                ).reverse());
            }
            current_lsn = prev;
        }
    }
    let mut out: Vec<RedoRecord> = Vec::new();
    proof {
        assert(views_of(out@) =~= Seq::<RecordModel>::empty());
        assert(log.take(0) =~= Seq::<RecordModel>::empty());
        assert(vis =~= views_of(out@) + views_of(chain@).reverse());
    }
    loop
        invariant
            vis == views_of(out@) + views_of(chain@).reverse(),
        ensures
            chain@.len() == 0,
            vis == views_of(out@) + views_of(chain@).reverse(),
        decreases chain@.len(),
    {
        let ghost chain0 = chain@;
        let ghost out0 = out@;
        match chain.pop() {
            Some(rec) => {
                let ghost m = rec@;
                out.push(rec);
                proof {
                    assert(views_of(chain0).reverse() =~= seq![m] + views_of(chain@).reverse());
                    assert(views_of(out@) =~= views_of(out0).push(m));
                    assert(views_of(out0) + (seq![m] + views_of(chain@).reverse()) =~= views_of(
                        out@,
                    ) + views_of(chain@).reverse());
                }
            },
            None => {
                break ;
            },
        }
    }
    proof {
        assert(views_of(chain@).reverse() =~= Seq::<RecordModel>::empty());
        assert(views_of(out@) =~= vis);
    }
    Ok(out)
}

/// Storage engine combining the WAL and the page store.
pub struct StorageEngine {
    backend: WalBackend,
    /// Page → latest LSN that touched this page.
    page_index: HashMap<PageId, Lsn>,
    /// Next LSN to assign.
    next_lsn: Lsn,
    /// Current durability state.
    durability: DurabilityState,
    /// In-memory page cache.
    page_cache: PageCache,
}

impl StorageEngine {
    /// The authoritative state: the record sequence the log holds.
    pub closed spec fn log(self) -> Seq<RecordModel> {
        self.backend.records()
    }

    /// Whether the engine runs on the single-file store.
    pub closed spec fn is_single_file(self) -> bool {
        self.backend is SingleFile
    }

    /// Volume Complete LSN.
    pub closed spec fn vcl(self) -> Lsn {
        self.durability.vcl
    }

    /// Volume Durable LSN: the horizon of visible reads.
    pub closed spec fn vdl(self) -> Lsn {
        self.durability.vdl
    }

    /// The page → latest-LSN index, as a map.
    pub closed spec fn page_index_map(self) -> Map<PageId, Lsn> {
        self.page_index@
    }

    /// The LSN → location index, as the set of LSNs it knows.
    pub closed spec fn indexed_lsns(self) -> Set<Lsn> {
        match self.backend {
            WalBackend::SingleFile { lsn_offsets, .. } => lsn_offsets@.dom(),
            WalBackend::Segmented { lsn_offsets, .. } => lsn_offsets@.dom(),
        }
    }

    /// The engine's invariant, which every operation preserves:
    /// the bytes on the log are exactly the encoding of the records; LSNs
    /// count 1, 2, 3, …; every chain pointer is right; VCL covers the whole
    /// log; VDL is the last CPL; the indexes agree with the log; and every
    /// cached page equals the replay its key demands.
    pub closed spec fn wf(self) -> bool {
        &&& self.backend.wf()
        &&& log_wf(self.log())
        &&& self.durability.vcl == self.log().len()
        &&& self.durability.vdl == last_cpl(self.log())
        &&& self.next_lsn == self.durability.vcl + 1
        &&& (forall|p: PageId|
            #[trigger] self.page_index@.contains_key(p) <==> latest_for(self.log(), p) != 0)
        &&& (forall|p: PageId|
            self.page_index@.contains_key(p) ==> #[trigger] self.page_index@[p] == latest_for(
                self.log(),
                p,
            ))
        &&& (forall|k: (u64, u64)|
            #[trigger] self.page_cache.entries().dom().contains(k) ==> k.1 <= self.vdl()
                && visible_records(self.log(), k.0, k.1).len() > 0
                && self.page_cache.entries()[k] == page_at(self.log(), k.0, k.1))
    }

    /// Open a storage engine over the bytes of a single WAL file.
    /// Performs recovery: the surviving records become the engine's log, and
    /// both watermarks restart at the recovered VDL.
    pub fn open(wal_bytes: Vec<u8>) -> (r: Result<StorageEngine, StorageError>)
        ensures
            r is Ok <==> recovered_wf(wal_bytes@),
            r matches Err(e) ==> e is Corruption,
            r matches Ok(engine) ==> {
                &&& engine.wf()
                &&& engine.is_single_file()
                &&& engine.log() == spec_survivors(wal_bytes@)
                &&& engine.vdl() == spec_vdl(scan_records(wal_bytes@))
                &&& engine.vcl() == engine.vdl()
            },
    {
        let mut bytes = wal_bytes;
        let result = match recover(&mut bytes) {
            Ok(result) => result,
            Err(e) => {
                return Err(e);
            },
        };
        let RecoveryResult { durability, page_index, lsn_offsets } = result;
        let byte_len = bytes.len();
        proof {
            lemma_scan_len_bound(bytes@, 0);
        }
        let vdl = durability.vdl;
        let next_lsn = if vdl == 0 {
            1
        } else {
            vdl + 1
        };
        let engine = StorageEngine {
            backend: WalBackend::SingleFile { writer: WalWriter::open(bytes), lsn_offsets },
            page_index,
            next_lsn,
            durability: DurabilityState { vcl: vdl, vdl },
            page_cache: PageCache::new(1024),
        };
        proof {
            assert(engine.wf());
        }
        Ok(engine)
    }

    /// Borrow the single-file WAL bytes, e.g. so the host can persist them
    /// after a write.  The segmented store hands its image out via the
    /// segment manager instead.
    pub fn wal_bytes(&self) -> (r: Option<&Vec<u8>>)
        ensures
            self.wf() && self.is_single_file() ==> (r matches Some(b) && b@ == spec_encode_log(
                self.log(),
            )),
    {
        match &self.backend {
            WalBackend::SingleFile { writer, .. } => Some(writer.log_bytes()),
            WalBackend::Segmented { .. } => None,
        }
    }

    /// Hand the engine's WAL bytes back, e.g. so the host can persist them.
    pub fn into_wal_bytes(self) -> (b: Vec<u8>)
        ensures
            self.wf() && self.is_single_file() ==> b@ == spec_encode_log(self.log()),
    {
        match self.backend {
            WalBackend::SingleFile { writer, .. } => writer.into_bytes(),
            WalBackend::Segmented { .. } => Vec::new(),
        }
    }

    /// Append a batch of redo records as one durable write.  Each record in
    /// order receives the next LSN and the chain pointer of its page —
    /// records in the same batch chain to each other.  A record whose payload
    /// would overflow its page is rejected before any state changes.
    /// Returns the new VDL.
    #[verifier::rlimit(100)]
    #[verifier::spinoff_prover]
    pub fn append_redo(&mut self, records: Vec<RedoRecord>) -> (r: Result<Lsn, StorageError>)
        requires
            old(self).wf(),
            old(self).log().len() + records@.len() < u64::MAX,
        ensures
            r is Err <==> (exists|i: int|
                0 <= i < records@.len() && !(#[trigger] records@[i])@.bounded()),
            r is Err ==> *final(self) == *old(self) && (r matches Err(e) && e is PageOverflow),
            r matches Ok(vdl) ==> {
                &&& final(self).wf()
                &&& final(self).log() == assign_batch(old(self).log(), views_of(records@))
                &&& final(self).vcl() == old(self).log().len() + records@.len()
                &&& final(self).vdl() == last_cpl(final(self).log())
                &&& old(self).vdl() <= final(self).vdl()
                &&& vdl == final(self).vdl()
            },
    {
        let ghost log0 = self.log();
        let ghost batch = views_of(records@);
        proof {
            assert(forall|i: int| 0 <= i < batch.len() ==> #[trigger] batch[i] == (records@[i])@);
        }
        // Reject page overflow before any other work — before any state changes.
        let n = records.len();
        let mut i: usize = 0;
        while i < n
            invariant
                n == records@.len(),
                0 <= i <= n,
                forall|j: int| 0 <= j < i ==> (#[trigger] records@[j])@.bounded(),
            decreases n - i,
        {
            if records[i].data.len() > PAGE_SIZE || records[i].offset as usize > PAGE_SIZE
                - records[i].data.len() {
                return Err(
                    StorageError::PageOverflow {
                        offset: records[i].offset,
                        len: records[i].data.len(),
                    },
                );
            }
            i = i + 1;
        }
        proof {
            assert(forall|j: int| 0 <= j < batch.len() ==> (#[trigger] batch[j]).bounded());
        }
        // Reverse the batch so records can be taken off in input order.
        let mut input = records;
        let mut rev: Vec<RedoRecord> = Vec::new();
        proof {
            assert(views_of(rev@).reverse() =~= Seq::<RecordModel>::empty());
            assert(views_of(input@) + views_of(rev@).reverse() =~= batch);
        }
        loop
            invariant
                views_of(input@) + views_of(rev@).reverse() == batch,
            ensures
                views_of(rev@).reverse() == batch,
            decreases input@.len(),
        {
            let ghost input0 = input@;
            let ghost rev0 = rev@;
            match input.pop() {
                Some(rec) => {
                    let ghost m = rec@;
                    rev.push(rec);
                    proof {
                        assert(views_of(rev@) =~= views_of(rev0).push(m));
                        assert(views_of(input@) =~= views_of(input0).drop_last());
                        assert(views_of(input0).last() == m);
                        assert(views_of(input@) + views_of(rev@).reverse() =~= views_of(input0)
                            + views_of(rev0).reverse());
                    }
                },
                None => {
                    proof {
                        assert(views_of(input@) =~= Seq::<RecordModel>::empty());
                        assert(views_of(input@) + views_of(rev@).reverse() =~= views_of(
                            rev@,
                        ).reverse());
                    }
                    break ;
                },
            }
        }
        // Assign, write and index each record, oldest first.
        let ghost mut k: int = 0;
        let mut cur_vdl: Lsn = self.durability.vdl;
        proof {
            assert(batch.take(0) =~= Seq::<RecordModel>::empty());
            assert(batch.skip(0) =~= batch);
        }
        loop
            invariant
                0 <= k <= batch.len(),
                batch.len() == n,
                log0.len() + n < u64::MAX,
                forall|j: int| 0 <= j < batch.len() ==> (#[trigger] batch[j]).bounded(),
                views_of(rev@).reverse() == batch.skip(k),
                self.backend.wf(),
                self.backend.records() == assign_batch(log0, batch.take(k)),
                self.backend.records().len() == log0.len() + k,
                log_wf(self.backend.records()),
                self.next_lsn == self.backend.records().len() + 1,
                cur_vdl == last_cpl(self.backend.records()),
                old(self).vdl() <= cur_vdl,
                forall|p: PageId|
                    #[trigger] self.page_index@.contains_key(p) <==> latest_for(
                        self.backend.records(),
                        p,
                    ) != 0,
                forall|p: PageId|
                    self.page_index@.contains_key(p) ==> #[trigger] self.page_index@[p]
                        == latest_for(self.backend.records(), p),
                self.page_cache == old(self).page_cache,
                self.durability == old(self).durability,
                log0 == old(self).log(),
                old(self).wf(),
            ensures
                k == batch.len(),
                self.backend.wf(),
                self.backend.records() == assign_batch(log0, batch),
                self.backend.records().len() == log0.len() + batch.len(),
                log_wf(self.backend.records()),
                self.next_lsn == self.backend.records().len() + 1,
                cur_vdl == last_cpl(self.backend.records()),
                old(self).vdl() <= cur_vdl,
                forall|p: PageId|
                    #[trigger] self.page_index@.contains_key(p) <==> latest_for(
                        self.backend.records(),
                        p,
                    ) != 0,
                forall|p: PageId|
                    self.page_index@.contains_key(p) ==> #[trigger] self.page_index@[p]
                        == latest_for(self.backend.records(), p),
                self.page_cache == old(self).page_cache,
                self.durability == old(self).durability,
            decreases batch.len() - k,
        {
            let ghost cur = self.backend.records();
            let ghost rev0 = rev@;
            match rev.pop() {
                Some(popped) => {
                    proof {
                        assert(rev0.len() > 0);
                        assert(views_of(rev0).len() == rev0.len());
                        assert(views_of(rev0).reverse().len() == rev0.len());
                        assert(batch.skip(k).len() == batch.len() - k);
                        assert(k < batch.len());
                    }
                    let ghost bk = batch[k];
                    proof {
                        assert(views_of(rev0).len() > 0);
                        assert(views_of(rev0).reverse()[0] == views_of(rev0)[views_of(
                            rev0,
                        ).len() - 1]);
                        assert(popped@ == views_of(rev0)[rev0.len() - 1]);
                        assert(batch.skip(k)[0] == batch[k]);
                        assert(popped@ == bk);
                        assert(views_of(rev@) =~= views_of(rev0).drop_last());
                        assert(views_of(rev@).reverse() =~= views_of(rev0).reverse().skip(1));
                        assert(batch.skip(k).skip(1) =~= batch.skip(k + 1));
                    }
                    let mut rec = popped;
                    let lsn = self.next_lsn;
                    let prev: Lsn = match self.page_index.get(&rec.page_id) {
                        Some(v) => *v,
                        None => 0,
                    };
                    proof {
                        assert(prev == latest_for(cur, rec@.page_id));
                    }
                    rec.lsn = lsn;
                    rec.prev_lsn = prev;
                    proof {
                        assert(rec@ == RecordModel {
                            lsn: (cur.len() + 1) as u64,
                            prev_lsn: latest_for(cur, bk.page_id),
                            ..bk
                        });
                        lemma_log_wf_snoc(cur, rec@);
                        lemma_assign_batch_snoc(log0, batch.take(k), bk);
                        assert(batch.take(k).push(bk) =~= batch.take(k + 1));
                    }
                    self.backend.append_assigned(&rec);
                    self.page_index.insert(rec.page_id, lsn);
                    if rec.is_mtr_end {
                        proof {
                            lemma_last_cpl_props(log0);
                        }
                        cur_vdl = lsn;
                    }
                    self.next_lsn = self.next_lsn + 1;
                    proof {
                        let cur2 = cur.push(rec@);
                        assert(self.backend.records() == cur2);
                        assert(cur2.drop_last() =~= cur);
                        assert(cur2.last() == rec@);
                        assert(cur_vdl == last_cpl(cur2));
                        assert(forall|p: PageId|
                            latest_for(cur2, p) == (if rec@.page_id == p {
                                rec@.lsn
                            } else {
                                latest_for(cur, p)
                            }));
                        k = k + 1;
                    }
                },
                None => {
                    proof {
                        assert(views_of(rev@).len() == 0);
                        assert(batch.skip(k).len() == 0);
                        assert(batch.take(k) =~= batch);
                    }
                    break ;
                },
            }
        }
        let new_vcl = self.next_lsn - 1;
        self.durability.vcl = new_vcl;
        self.durability.vdl = cur_vdl;
        proof {
            let new_log = self.backend.records();
            lemma_last_cpl_props(new_log);
            lemma_last_cpl_props(log0);
            assert(new_log.take(log0.len() as int) =~= log0) by {
                lemma_assign_batch_props(log0, batch);
            }
            assert forall|key: (u64, u64)|
                #[trigger] self.page_cache.entries().dom().contains(key) implies key.1
                <= self.vdl() && visible_records(self.log(), key.0, key.1).len() > 0
                && self.page_cache.entries()[key] == page_at(self.log(), key.0, key.1) by {
                assert(key.1 <= old(self).vdl());
                lemma_visible_take_stable(new_log, key.0, key.1, log0.len() as int);
                assert(visible_records(new_log, key.0, key.1) == visible_records(
                    log0,
                    key.0,
                    key.1,
                ));
            }
            assert(self.wf());
        }
        Ok(cur_vdl)
    }

    /// Read a page materialized up to the given read-point LSN: the replay of
    /// every record of the page with LSN ≤ `read_point`, oldest first, onto a
    /// zeroed page.  Fails with `LsnBeyondDurable` beyond the VDL and with
    /// `PageNotFound` when no record of the page is visible at the read point.
    #[verifier::rlimit(100)]
    #[verifier::spinoff_prover]
    pub fn get_page(&mut self, page_id: PageId, read_point: Lsn) -> (r: Result<Page, StorageError>)
        requires
            old(self).wf(),
        ensures
            final(self).wf(),
            final(self).log() == old(self).log(),
            final(self).vcl() == old(self).vcl(),
            final(self).vdl() == old(self).vdl(),
            read_point > old(self).vdl() ==> (r matches Err(e)
                && e matches StorageError::LsnBeyondDurable { requested, durable } && requested
                == read_point && durable == old(self).vdl()),
            read_point <= old(self).vdl() && visible_records(
                old(self).log(),
                page_id,
                read_point,
            ).len() == 0 ==> (r matches Err(e) && e matches StorageError::PageNotFound {
                page_id: pid,
                lsn,
            } && pid == page_id && lsn == read_point),
            read_point <= old(self).vdl() && visible_records(
                old(self).log(),
                page_id,
                read_point,
            ).len() > 0 ==> (r matches Ok(page) && page@ == page_at(
                old(self).log(),
                page_id,
                read_point,
            ) && page@.len() == PAGE_SIZE),
    {
        if read_point > self.durability.vdl {
            return Err(
                StorageError::LsnBeyondDurable {
                    requested: read_point,
                    durable: self.durability.vdl,
                },
            );
        }
        // Page cache first: a hit is exactly the replay its key demands.
        let cached = self.page_cache.get(page_id, read_point);
        proof {
            assert forall|key: (u64, u64)|
                #[trigger] self.page_cache.entries().dom().contains(key) implies key.1
                <= self.vdl() && visible_records(self.log(), key.0, key.1).len() > 0
                && self.page_cache.entries()[key] == page_at(self.log(), key.0, key.1) by {
                assert(old(self).page_cache.entries().dom().contains(key));
                assert(self.page_cache.entries()[key] == old(self).page_cache.entries()[key]);
            }
            assert(self.wf());
        }
        match cached {
            Some(page) => {
                proof {
                    assert(old(self).page_cache.entries().dom().contains((page_id, read_point)));
                    crate::materialize::lemma_replay_onto_len(
                        crate::common::spec_zero_page(),
                        visible_records(self.log(), page_id, read_point),
                    );
                }
                return Ok(page);
            },
            None => {},
        }
        let ghost cache1 = self.page_cache;
        // Find the head of the page's chain.
        let latest_lsn: Lsn = match self.page_index.get(&page_id) {
            Some(v) => *v,
            None => 0,
        };
        if latest_lsn == 0 {
            proof {
                lemma_latest_for_bounds(self.log(), page_id);
                lemma_visible_none(self.log(), page_id, read_point);
            }
            return Err(StorageError::PageNotFound { page_id, lsn: read_point });
        }
        proof {
            assert(latest_lsn == latest_for(self.log(), page_id));
        }
        // Chain walk, newest to oldest, then reverse.
        let chain = match self.backend.collect_chain(page_id, latest_lsn, read_point) {
            Ok(c) => c,
            Err(e) => {
                proof {
                    assert(false);
                }
                return Err(e);
            },
        };
        if chain.len() == 0 {
            return Err(StorageError::PageNotFound { page_id, lsn: read_point });
        }
        // Replay the chain onto a zeroed page.
        proof {
            assert(forall|i: int|
                0 <= i < self.log().len() ==> (#[trigger] self.log()[i]).bounded());
            lemma_visible_bounded(self.log(), page_id, read_point);
            assert(forall|i: int|
                0 <= i < chain@.len() ==> (#[trigger] chain@[i])@ == views_of(chain@)[i]);
            assert(forall|i: int|
                0 <= i < chain@.len() ==> ((#[trigger] chain@[i])@).bounded());
        }
        let page = match materialize_page(page_id, &chain) {
            Ok(p) => p,
            Err(e) => {
                proof {
                    assert(false);
                }
                return Err(e);
            },
        };
        // Remember the materialization for this exact read point.
        self.page_cache.insert(page_id, read_point, &page);
        proof {
            assert forall|key: (u64, u64)|
                #[trigger] self.page_cache.entries().dom().contains(key) implies key.1
                <= self.vdl() && visible_records(self.log(), key.0, key.1).len() > 0
                && self.page_cache.entries()[key] == page_at(self.log(), key.0, key.1) by {
                let inserted = cache1.entries().insert((page_id, read_point), page@);
                assert(inserted.dom().contains(key));
                assert(self.page_cache.entries()[key] == inserted[key]);
                if key != ((page_id, read_point)) {
                    assert(cache1.entries().dom().contains(key));
                    assert(inserted[key] == cache1.entries()[key]);
                }
            }
            assert(self.wf());
        }
        Ok(page)
    }

    /// Open a storage engine with the specified preset.
    pub fn open_with_preset(preset: StoragePreset) -> (r: Result<StorageEngine, StorageError>)
        ensures
            r matches Ok(engine) ==> engine.wf() && engine.log()
                == Seq::<RecordModel>::empty() && engine.vcl() == 0 && engine.vdl() == 0
                && (engine.is_single_file() <==> preset is Base),
    {
        match preset {
            StoragePreset::Base => {
                let empty: Vec<u8> = Vec::new();
                proof {
                    crate::recovery::lemma_recover_empty();
                    assert(empty@ =~= Seq::<u8>::empty());
                }
                Self::open(empty)
            },
            StoragePreset::Tiered(config) => Self::open_tiered(config),
        }
    }

    /// Open a storage engine with a fresh segmented WAL and hot/cold tiering.
    pub fn open_tiered(config: TieredConfig) -> (r: Result<StorageEngine, StorageError>)
        ensures
            r matches Ok(engine) ==> engine.wf() && engine.log()
                == Seq::<RecordModel>::empty() && engine.vcl() == 0 && engine.vdl() == 0
                && !engine.is_single_file(),
    {
        let manager = SegmentManager::new_empty(config.segment_size_bytes, config.cold_latency_ms);
        let ghost m0 = manager;
        proof {
            crate::common::lemma_last_cpl_props(manager.records());
        }
        let r = Self::from_recovered_manager(manager);
        proof {
            assert(m0.records().take(last_cpl(m0.records()) as int)
                =~= Seq::<RecordModel>::empty());
        }
        r
    }

    /// Open a storage engine over a previously persisted segmented WAL: a
    /// catalog and the bytes of its segments, sealed first, active last.
    /// Performs recovery.
    pub fn open_tiered_from(
        config: TieredConfig,
        manifest: Manifest,
        segment_bytes: Vec<Vec<u8>>,
    ) -> (r: Result<StorageEngine, StorageError>)
        ensures
            r matches Err(e) ==> e is Corruption,
            r matches Ok(engine) ==> {
                &&& engine.wf()
                &&& engine.vcl() == engine.vdl()
                &&& !engine.is_single_file()
            },
    {
        let manager = match SegmentManager::open(
            manifest,
            segment_bytes,
            config.segment_size_bytes,
            config.cold_latency_ms,
        ) {
            Ok(m) => m,
            Err(e) => {
                return Err(e);
            },
        };
        Self::from_recovered_manager(manager)
    }

    /// Recover a segmented store and stand an engine up over it.
    fn from_recovered_manager(manager: SegmentManager) -> (r: Result<StorageEngine, StorageError>)
        requires
            manager.ids_wf(),
        ensures
            r matches Err(e) ==> e is Corruption,
            r matches Ok(engine) ==> {
                &&& engine.wf()
                &&& engine.vcl() == engine.vdl()
                &&& !engine.is_single_file()
            },
            (manager.wf() && log_wf(manager.records()) && manager.records().len()
                < u64::MAX) ==> (r matches Ok(engine) && engine.log() == manager.records().take(
                last_cpl(manager.records()) as int,
            )),
    {
        let mut manager = manager;
        let data = match manager.recover() {
            Ok(d) => d,
            Err(e) => {
                return Err(e);
            },
        };
        let vdl = data.durability.vdl;
        let next_lsn = if vdl == 0 {
            1
        } else {
            vdl + 1
        };
        let engine = StorageEngine {
            backend: WalBackend::Segmented { manager, lsn_offsets: data.lsn_offsets },
            page_index: data.page_index,
            next_lsn,
            durability: DurabilityState { vcl: vdl, vdl },
            page_cache: PageCache::new(1024),
        };
        proof {
            assert(engine.wf());
        }
        Ok(engine)
    }

    /// The durability watermarks are a tiny state machine: `0 ≤ VDL ≤ VCL`,
    /// VDL is the LSN of a CPL record or 0, VCL covers the whole log, and the
    /// log's LSNs count 1, 2, 3, … — these hold in every reachable state.
    pub proof fn lemma_watermarks(self)
        requires
            self.wf(),
        ensures
            0 <= self.vdl() <= self.vcl(),
            self.vcl() == self.log().len(),
            self.vdl() == last_cpl(self.log()),
            self.vdl() > 0 ==> self.log()[self.vdl() - 1].is_mtr_end && self.log()[self.vdl()
                - 1].lsn == self.vdl(),
            log_wf(self.log()),
            lsns_contiguous(self.log()),
    {
        assert(lsns_contiguous(self.log())) by {
            assert(forall|i: int|
                0 <= i < self.log().len() ==> (#[trigger] self.log()[i]).lsn == i + 1);
        }
        lemma_last_cpl_props(self.log());
    }

    /// The LSN location index holds exactly the LSNs 1..=VCL: those recovery
    /// rebuilt, and those appended since.
    pub proof fn lemma_lsn_index_exact(self)
        requires
            self.wf(),
        ensures
            forall|l: Lsn| #[trigger] self.indexed_lsns().contains(l) <==> 1 <= l <= self.vcl(),
    {
    }

    /// For every page in the page index, its entry is the largest LSN ≤ VDL
    /// targeting that page — the head of the page's chain — whenever the
    /// engine stands at a consistency point (VDL == VCL), as it does after
    /// recovery and after every append whose batch ends on a CPL.  An append
    /// whose final record closes no MTR leaves the index ahead of the VDL
    /// until the next CPL arrives.
    pub proof fn lemma_page_index_heads(self, p: PageId)
        requires
            self.wf(),
            self.vdl() == self.vcl(),
        ensures
            self.page_index_map().contains_key(p) ==> ({
                let l = self.page_index_map()[p];
                &&& 1 <= l <= self.vdl()
                &&& self.log()[l - 1].page_id == p
                &&& forall|j: int|
                    0 <= j < self.log().len() && (#[trigger] self.log()[j]).page_id == p
                        ==> self.log()[j].lsn <= l
            }),
            !self.page_index_map().contains_key(p) ==> forall|j: int|
                0 <= j < self.log().len() ==> (#[trigger] self.log()[j]).page_id != p,
    {
        self.lemma_watermarks();
        lemma_latest_for_bounds(self.log(), p);
        if self.page_index_map().contains_key(p) {
            let l = self.page_index_map()[p];
            assert(l == latest_for(self.log(), p));
            assert forall|j: int|
                0 <= j < self.log().len() && (#[trigger] self.log()[j]).page_id == p implies self
                .log()[j].lsn <= l by {
                assert(self.log()[j].lsn == j + 1);
            }
        }
    }

    /// The segmented store's rotation threshold; 0 on the single-file store.
    pub closed spec fn spec_segment_size_bytes(self) -> u64 {
        match self.backend {
            WalBackend::SingleFile { .. } => 0,
            WalBackend::Segmented { manager, .. } => manager.spec_max_segment_bytes(),
        }
    }

    /// Give up the segmented store's catalog and segment bytes — a catalog
    /// that lines up with the byte logs, byte logs that are exactly encoded
    /// record sequences holding the engine's log — e.g. so the host can
    /// persist them.  The single-file store hands its bytes out via
    /// `into_wal_bytes` instead.
    pub fn into_segment_image(self) -> (r: Option<(Manifest, Vec<Vec<u8>>)>)
        ensures
            self.wf() && !self.is_single_file() ==> (r matches Some(img) && ({
                &&& crate::segment::image_ok(img.0, img.1@.len() as int)
                &&& crate::segment::image_bytes_wf(img.1@, self.spec_segment_size_bytes())
                &&& crate::segment::scans_concat(img.1@, img.1@.len() as int) == self.log()
            })),
    {
        let ghost me = self;
        match self.backend {
            WalBackend::SingleFile { .. } => None,
            WalBackend::Segmented { manager, .. } => {
                let ghost mg = manager;
                let img = manager.into_image();
                proof {
                    if me.wf() {
                        mg.lemma_wf_public_facts();
                        mg.lemma_records_of_image(img.1@);
                        assert(crate::segment::image_ok(img.0, img.1@.len() as int));
                        assert(crate::segment::image_bytes_wf(
                            img.1@,
                            mg.spec_max_segment_bytes(),
                        )) by {
                            assert(forall|i: int|
                                0 <= i < img.1@.len() ==> (#[trigger] img.1@[i])@ == mg.seg_bytes(
                                    i + 1,
                                ));
                            assert(forall|i: int|
                                0 <= i < img.1@.len() ==> clean_log_bytes(
                                    (#[trigger] img.1@[i])@,
                                ));
                            assert(forall|i: int|
                                0 <= i < img.1@.len() - 1 ==> crate::segment::seg_size_ok(
                                    (#[trigger] img.1@[i])@,
                                    mg.spec_max_segment_bytes(),
                                ));
                        }
                    }
                }
                Some(img)
            },
        }
    }

    /// Get the current VDL.
    pub fn current_vdl(&self) -> (r: Lsn)
        ensures
            r == self.vdl(),
    {
        self.durability.vdl
    }

    /// Get current durability state (VCL, VDL).
    pub fn get_durability_state(&self) -> (r: Result<DurabilityState, StorageError>)
        ensures
            r matches Ok(d) && d.vcl == self.vcl() && d.vdl == self.vdl(),
    {
        Ok(self.durability.clone())
    }
}

} // verus!
