//! Reads and iterates over WAL entries held in a byte log.

use std::collections::HashMap;
use vstd::prelude::*;

use crate::codec::{
    clean_log_bytes, data_fits, entry_complete_at, entry_valid_at, lemma_log_offset_mono,
    lemma_log_offset_nonneg, lemma_parse_at_offset, scan_records, spec_data_at, spec_entry_size_at,
    spec_header_at, spec_log_offset, spec_scan, spec_scan_from, ScanEntry,
};
use crate::common::{
    latest_for, lemma_chain_step, lemma_latest_for_bounds, lemma_visible_none,
    lemma_visible_skip_gap, log_wf, views_of, visible_records, LogEntryHeader, Lsn, PageId,
    RecordModel, RedoRecord, StorageError, LOG_ENTRY_HEADER_SIZE,
};
use crate::crc::compute_crc;

verus! {

broadcast use vstd::std_specs::hash::group_hash_axioms;

/// Outcome of trying to read one log entry.
pub enum ReadResult {
    /// Successfully decoded an entry.
    Entry(LogEntryHeader, Vec<u8>),
    /// Hit the end of the bytes or an incomplete entry (truncated).
    Eof,
    /// CRC mismatch — corruption detected.
    Corrupted { file_offset: u64 },
}

/// A cursor over a byte log in the on-disk WAL format.
pub struct WalReader<'a> {
    pub bytes: &'a Vec<u8>,
    pub pos: usize,
}

impl<'a> View for WalReader<'a> {
    type V = Seq<u8>;

    open spec fn view(&self) -> Seq<u8> {
        self.bytes@
    }
}

impl<'a> WalReader<'a> {
    /// Open a reader over a byte log, positioned at its start.
    pub fn open(bytes: &'a Vec<u8>) -> (r: Self)
        ensures
            r@ == bytes@,
            r.pos == 0,
    {
        WalReader { bytes, pos: 0 }
    }

    /// Move the cursor to a specific byte offset.
    pub fn seek_to(&mut self, offset: u64)
        requires
            offset <= usize::MAX,
        ensures
            final(self).bytes == old(self).bytes,
            final(self).pos == offset,
    {
        self.pos = offset as usize;
    }

    /// Move the cursor back to the start.
    pub fn seek_start(&mut self)
        ensures
            final(self).bytes == old(self).bytes,
            final(self).pos == 0,
    {
        self.pos = 0;
    }

    /// Where the cursor stands.
    pub fn stream_position(&self) -> (r: u64)
        ensures
            r == self.pos,
    {
        self.pos as u64
    }

    /// Read one entry starting at the cursor.  The cursor advances past the
    /// entry exactly when the entry is complete and its CRC checks out.
    pub fn read_entry(&mut self) -> (r: ReadResult)
        ensures
            final(self).bytes == old(self).bytes,
            entry_valid_at(old(self)@, old(self).pos as int) ==> {
                &&& r matches ReadResult::Entry(h, d) && h == spec_header_at(
                    old(self)@,
                    old(self).pos as int,
                ) && d@ == spec_data_at(old(self)@, old(self).pos as int)
                &&& final(self).pos == old(self).pos + spec_entry_size_at(
                    old(self)@,
                    old(self).pos as int,
                )
            },
            !entry_valid_at(old(self)@, old(self).pos as int) ==> final(self).pos == old(
                self,
            ).pos,
            !entry_valid_at(old(self)@, old(self).pos as int) && entry_complete_at(
                old(self)@,
                old(self).pos as int,
            ) ==> (r matches ReadResult::Corrupted { file_offset } && file_offset == old(
                self,
            ).pos),
            !entry_complete_at(old(self)@, old(self).pos as int) ==> r is Eof,
    {
        let n = self.bytes.len();
        if n < LOG_ENTRY_HEADER_SIZE || self.pos > n - LOG_ENTRY_HEADER_SIZE {
            return ReadResult::Eof;
        }
        let header = crate::codec::decode_header(
            &self.bytes.as_slice()[self.pos..self.pos + LOG_ENTRY_HEADER_SIZE],
        );
        proof {
            assert(header == spec_header_at(self@, self.pos as int));
        }
        let data_start = self.pos + LOG_ENTRY_HEADER_SIZE;
        let data_len = header.data_len as usize;
        if data_len > n - data_start {
            return ReadResult::Eof;
        }
        let mut data: Vec<u8> = Vec::new();
        data.extend_from_slice(&self.bytes.as_slice()[data_start..data_start + data_len]);
        proof {
            assert(data@ =~= spec_data_at(self@, self.pos as int));
        }
        let expected_crc = compute_crc(
            &self.bytes.as_slice()[self.pos..self.pos + 37],
            data.as_slice(),
        );
        proof {
            assert(expected_crc == crate::crc::crc32_of(
                self@.subrange(self.pos as int, self.pos + 37) + spec_data_at(
                    self@,
                    self.pos as int,
                ),
            ));
        }
        if header.crc32 != expected_crc {
            return ReadResult::Corrupted { file_offset: self.pos as u64 };
        }
        self.pos = data_start + data_len;
        ReadResult::Entry(header, data)
    }

    /// Scan the entire WAL forward, returning all valid entries up to the
    /// first truncated or corrupt one.
    pub fn scan_all(&mut self) -> (entries: Vec<(LogEntryHeader, Vec<u8>)>)
        ensures
            final(self).bytes == old(self).bytes,
            ({
                let s = spec_scan(old(self)@);
                &&& entries@.len() == s.len()
                &&& forall|i: int|
                    0 <= i < s.len() ==> (#[trigger] entries@[i]).0 == s[i].hdr && entries@[i].1@
                        == s[i].data
            }),
    {
        self.pos = 0;
        let ghost b = self@;
        let ghost s = spec_scan(b);
        let mut entries: Vec<(LogEntryHeader, Vec<u8>)> = Vec::new();
        proof {
            assert(s.skip(0) =~= s);
        }
        loop
            invariant
                self.bytes == old(self).bytes,
                b == self@,
                s == spec_scan(b),
                entries@.len() <= s.len(),
                0 <= self.pos <= b.len(),
                spec_scan_from(b, self.pos as int) == s.skip(entries@.len() as int),
                forall|i: int|
                    0 <= i < entries@.len() ==> (#[trigger] entries@[i]).0 == s[i].hdr
                        && entries@[i].1@ == s[i].data,
            ensures
                self.bytes == old(self).bytes,
                entries@.len() == s.len(),
                forall|i: int|
                    0 <= i < s.len() ==> (#[trigger] entries@[i]).0 == s[i].hdr && entries@[i].1@
                        == s[i].data,
            decreases s.len() - entries@.len(),
        {
            let ghost n0 = entries@.len() as int;
            let ghost p0 = self.pos as int;
            match self.read_entry() {
                ReadResult::Entry(hdr, data) => {
                    proof {
                        let item = ScanEntry {
                            off: p0,
                            hdr: spec_header_at(b, p0),
                            data: spec_data_at(b, p0),
                        };
                        assert(spec_scan_from(b, p0) == seq![item] + spec_scan_from(
                            b,
                            p0 + spec_entry_size_at(b, p0),
                        ));
                        assert(s.skip(n0)[0] == item);
                        assert(s[n0] == item);
                        assert(s.skip(n0).skip(1) =~= s.skip(n0 + 1));
                        assert(spec_scan_from(b, p0).skip(1) =~= spec_scan_from(
                            b,
                            p0 + spec_entry_size_at(b, p0),
                        ));
                    }
                    entries.push((hdr, data));
                },
                _ => {
                    proof {
                        assert(!entry_valid_at(b, p0));
                        assert(spec_scan_from(b, p0) =~= Seq::<ScanEntry>::empty());
                        assert(s.skip(n0).len() == 0);
                    }
                    break ;
                },
            }
        }
        entries
    }
    /// Build a page → latest-LSN index by scanning the entire WAL.
    /// Also returns a mapping from LSN → byte offset for chain-walking.
    pub fn build_index(&mut self) -> (r: (HashMap<PageId, Lsn>, HashMap<Lsn, u64>))
        ensures
            final(self).bytes == old(self).bytes,
            r.0@ == spec_page_index_of(spec_scan(old(self)@)),
            r.1@ == spec_lsn_offsets_of(spec_scan(old(self)@)),
    {
        self.pos = 0;
        let ghost b = self@;
        let ghost s = spec_scan(b);
        let mut page_latest: HashMap<PageId, Lsn> = HashMap::new();
        let mut lsn_offset: HashMap<Lsn, u64> = HashMap::new();
        let ghost mut count: int = 0;
        proof {
            assert(s.skip(0) =~= s);
            assert(s.take(0) =~= Seq::<ScanEntry>::empty());
        }
        loop
            invariant
                self.bytes == old(self).bytes,
                b == self@,
                s == spec_scan(b),
                0 <= count <= s.len(),
                0 <= self.pos <= b.len(),
                spec_scan_from(b, self.pos as int) == s.skip(count),
                page_latest@ == spec_page_index_of(s.take(count)),
                lsn_offset@ == spec_lsn_offsets_of(s.take(count)),
            ensures
                self.bytes == old(self).bytes,
                page_latest@ == spec_page_index_of(s),
                lsn_offset@ == spec_lsn_offsets_of(s),
            decreases s.len() - count,
        {
            let ghost n0 = count;
            let ghost p0 = self.pos as int;
            let offset = self.stream_position();
            match self.read_entry() {
                ReadResult::Entry(hdr, _data) => {
                    proof {
                        let item = ScanEntry {
                            off: p0,
                            hdr: spec_header_at(b, p0),
                            data: spec_data_at(b, p0),
                        };
                        assert(spec_scan_from(b, p0) == seq![item] + spec_scan_from(
                            b,
                            p0 + spec_entry_size_at(b, p0),
                        ));
                        assert(s.skip(n0)[0] == item);
                        assert(s[n0] == item);
                        assert(s.skip(n0).skip(1) =~= s.skip(n0 + 1));
                        assert(spec_scan_from(b, p0).skip(1) =~= spec_scan_from(
                            b,
                            p0 + spec_entry_size_at(b, p0),
                        ));
                        assert(s.take(n0 + 1).drop_last() =~= s.take(n0));
                        assert(s.take(n0 + 1).last() == s[n0]);
                    }
                    lsn_offset.insert(hdr.lsn, offset);
                    let keep = match page_latest.get(&hdr.page_id) {
                        Some(existing) => *existing >= hdr.lsn,
                        None => false,
                    };
                    if !keep {
                        page_latest.insert(hdr.page_id, hdr.lsn);
                    }
                    proof {
                        count = count + 1;
                    }
                },
                _ => {
                    proof {
                        assert(!entry_valid_at(b, p0));
                        assert(spec_scan_from(b, p0) =~= Seq::<ScanEntry>::empty());
                        assert(s.skip(n0).len() == 0);
                        assert(s.take(n0) =~= s);
                    }
                    break ;
                },
            }
        }
        (page_latest, lsn_offset)
    }

    /// Collect all redo records for a given page up to (and including)
    /// `target_lsn`, by walking the `prev_lsn` chain backwards, then
    /// reversing.  Requires the LSN → byte-offset index for seeking, and a
    /// byte log whose records form a well-formed chain.
    #[verifier::rlimit(60)]
    pub fn collect_page_chain(
        &mut self,
        page_id: PageId,
        start_lsn: Lsn,
        target_lsn: Lsn,
        lsn_offsets: &HashMap<Lsn, u64>,
    ) -> (r: Result<Vec<RedoRecord>, StorageError>)
        requires
            clean_log_bytes(old(self)@),
            log_wf(scan_records(old(self)@)),
            forall|l: Lsn|
                1 <= l <= scan_records(old(self)@).len() ==> #[trigger] lsn_offsets@.contains_key(
                    l,
                ) && lsn_offsets@[l] == spec_log_offset(scan_records(old(self)@), l - 1),
            start_lsn == latest_for(scan_records(old(self)@), page_id),
        ensures
            final(self).bytes == old(self).bytes,
            r matches Ok(chain) && views_of(chain@) == visible_records(
                scan_records(old(self)@),
                page_id,
                target_lsn,
            ),
    {
        let ghost b = self@;
        let ghost log = scan_records(b);
        let ghost vis = visible_records(log, page_id, target_lsn);
        let bytes_len = self.bytes.len();
        proof {
            crate::codec::lemma_wf_all_fit(log);
            crate::codec::lemma_encode_log_len(log);
            lemma_latest_for_bounds(log, page_id);
        }
        let mut chain: Vec<RedoRecord> = Vec::new();
        let mut current_lsn: Lsn = start_lsn;
        let ghost mut cut: int = start_lsn as int;
        proof {
            if start_lsn == 0 {
                lemma_visible_none(log, page_id, target_lsn);
                assert(log.take(0) =~= Seq::<RecordModel>::empty());
            } else {
                lemma_visible_skip_gap(
                    log,
                    page_id,
                    target_lsn,
                    start_lsn as int,
                    log.len() as int,
                );
                assert(log.take(log.len() as int) =~= log);
            }
            assert(views_of(chain@).reverse() =~= Seq::<RecordModel>::empty());
            assert(vis =~= visible_records(log.take(cut), page_id, target_lsn) + views_of(
                chain@,
            ).reverse());
        }
        while current_lsn != 0
            invariant
                self.bytes == old(self).bytes,
                b == self@,
                log == scan_records(b),
                vis == visible_records(log, page_id, target_lsn),
                clean_log_bytes(b),
                log_wf(log),
                forall|l: Lsn|
                    1 <= l <= log.len() ==> #[trigger] lsn_offsets@.contains_key(l)
                        && lsn_offsets@[l] == spec_log_offset(log, l - 1),
                bytes_len == b.len(),
                0 <= cut <= log.len(),
                current_lsn != 0 ==> cut == current_lsn && 1 <= current_lsn <= log.len() && log[
                    current_lsn - 1
                ].page_id == page_id,
                current_lsn == 0 ==> visible_records(log.take(cut), page_id, target_lsn)
                    == Seq::<RecordModel>::empty(),
                vis == visible_records(log.take(cut), page_id, target_lsn) + views_of(
                    chain@,
                ).reverse(),
            decreases current_lsn,
        {
            let c = current_lsn;
            let ghost ci = c as int;
            proof {
                crate::codec::lemma_wf_all_fit(log);
                crate::codec::lemma_encode_log_len(log);
                lemma_log_offset_nonneg(log, ci - 1);
                lemma_log_offset_mono(log, ci - 1, log.len() as int);
                lemma_chain_step(log, page_id, target_lsn, ci);
            }
            let off: u64 = match lsn_offsets.get(&c) {
                Some(o) => *o,
                None => {
                    proof {
                        assert(false);
                    }
                    0
                },
            };
            self.seek_to(off);
            proof {
                lemma_parse_at_offset(log, ci - 1);
            }
            match self.read_entry() {
                ReadResult::Entry(hdr, data) => {
                    let prev = hdr.prev_lsn;
                    proof {
                        assert(hdr == crate::codec::spec_record_header(log[ci - 1]));
                        assert(prev == log[ci - 1].prev_lsn);
                        if prev == 0 {
                            assert(log.take(0) =~= Seq::<RecordModel>::empty());
                        }
                    }
                    if c > target_lsn {
                        proof {
                            cut = prev as int;
                        }
                        current_lsn = prev;
                    } else {
                        let record = crate::codec::header_to_record(&hdr, data);
                        let ghost chain0 = chain@;
                        proof {
                            assert(record@ == log[ci - 1]);
                        }
                        chain.push(record);
                        proof {
                            let m = log[ci - 1];
                            assert(views_of(chain@) =~= views_of(chain0).push(m));
                            assert(views_of(chain@).reverse() =~= seq![m] + views_of(
                                chain0,
                            ).reverse());
                            cut = prev as int;
                            assert(vis =~= visible_records(log.take(cut), page_id, target_lsn)
                                + views_of(chain@).reverse());
                        }
                        current_lsn = prev;
                    }
                },
                _ => {
                    proof {
                        assert(false);
                    }
                    return Err(StorageError::Corruption(String::new()));
                },
            }
        }
        let mut out: Vec<RedoRecord> = Vec::new();
        proof {
            assert(views_of(out@) =~= Seq::<RecordModel>::empty());
            assert(log.take(0) =~= Seq::<RecordModel>::empty());
            assert(vis =~= views_of(out@) + views_of(chain@).reverse());
        }
        loop
            invariant
                vis == views_of(out@) + views_of(chain@).reverse(),
            ensures
                chain@.len() == 0,
                vis == views_of(out@) + views_of(chain@).reverse(),
            decreases chain@.len(),
        {
            let ghost chain0 = chain@;
            let ghost out0 = out@;
            match chain.pop() {
                Some(rec) => {
                    let ghost m = rec@;
                    out.push(rec);
                    proof {
                        assert(views_of(chain0).reverse() =~= seq![m] + views_of(
                            chain@,
                        ).reverse());
                        assert(views_of(out@) =~= views_of(out0).push(m));
                        assert(views_of(out0) + (seq![m] + views_of(chain@).reverse()) =~= views_of(
                            out@,
                        ) + views_of(chain@).reverse());
                    }
                },
                None => {
                    break ;
                },
            }
        }
        proof {
            assert(views_of(chain@).reverse() =~= Seq::<RecordModel>::empty());
            assert(views_of(out@) =~= vis);
        }
        Ok(out)
    }
}

/// The page → latest-LSN map the scanned entries induce.
pub open spec fn spec_page_index_of(items: Seq<ScanEntry>) -> Map<PageId, Lsn>
    decreases items.len(),
{
    if items.len() == 0 {
        Map::<PageId, Lsn>::empty()
    } else {
        let m = spec_page_index_of(items.drop_last());
        let h = items.last().hdr;
        if m.contains_key(h.page_id) && m[h.page_id] >= h.lsn {
            m
        } else {
            m.insert(h.page_id, h.lsn)
        }
    }
}

/// The LSN → byte-offset map the scanned entries induce.
pub open spec fn spec_lsn_offsets_of(items: Seq<ScanEntry>) -> Map<Lsn, u64>
    decreases items.len(),
{
    if items.len() == 0 {
        Map::<Lsn, u64>::empty()
    } else {
        spec_lsn_offsets_of(items.drop_last()).insert(
            items.last().hdr.lsn,
            items.last().off as u64,
        )
    }
}

} // verus!
