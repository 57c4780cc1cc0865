//! The compute engine — the layer that turns caller writes into
//! mini-transactions, ships them to storage, tracks its own per-session
//! read point, and fronts reads with a local buffer pool.

use vstd::prelude::*;

use crate::buffer_pool::BufferPool;
use crate::common::{
    copy_page, views_of, visible_records, Lsn, Page, PageId, RecordModel, RedoRecord, StorageError,
    PAGE_SIZE,
};
use crate::engine::{assign_batch, lemma_assign_batch_props, StorageEngine};
use crate::materialize::{lemma_replay_onto_len, page_at};
use crate::transaction::{spec_mtr_record, MiniTransaction};

verus! {

/// The records one `put` call appends: a single-record MTR, so the record is
/// its own consistency point.
pub open spec fn put_batch(page_id: PageId, offset: u16, data: Seq<u8>, mtr_id: u64) -> Seq<
    RecordModel,
> {
    seq![RecordModel { is_mtr_end: true, ..spec_mtr_record(page_id, offset, data, mtr_id) }]
}

/// The views of a list of writes.
pub open spec fn writes_views(ws: Seq<(PageId, u16, Vec<u8>)>) -> Seq<(PageId, u16, Seq<u8>)> {
    ws.map_values(|w: (PageId, u16, Vec<u8>)| (w.0, w.1, w.2@))
}

/// The records one `put_multi` call appends: one MTR with one record per
/// write, only the last of which is the consistency point.
pub open spec fn multi_batch(ws: Seq<(PageId, u16, Seq<u8>)>, mtr_id: u64) -> Seq<RecordModel> {
    Seq::new(
        ws.len(),
        |i: int|
            RecordModel {
                is_mtr_end: i == ws.len() - 1,
                ..spec_mtr_record(ws[i].0, ws[i].1, ws[i].2, mtr_id)
            },
    )
}

/// One compute session: builds MTRs, tracks its read point, caches pages.
pub struct ComputeEngine {
    buffer_pool: BufferPool,
    next_mtr_id: u64,
    /// Current read point (tracks VDL for consistent reads).
    read_point: Lsn,
}

impl ComputeEngine {
    /// The session's read point.
    pub closed spec fn spec_read_point(self) -> Lsn {
        self.read_point
    }

    /// The next mini-transaction identifier the session will hand out.
    pub closed spec fn spec_next_mtr_id(self) -> u64 {
        self.next_mtr_id
    }

    /// Whether the buffer pool holds a capture of this page.
    pub closed spec fn pool_has(self, p: PageId) -> bool {
        self.buffer_pool.spec_contains(p)
    }

    /// The read point the pooled capture of this page was taken at.
    pub closed spec fn pooled_read_point(self, p: PageId) -> Lsn {
        self.buffer_pool.read_point_of(p)
    }

    /// The read point a read at `lsn` is answered at: the pooled capture's,
    /// when the pool holds one at or beyond `lsn` (the stale-older-read
    /// policy), and `lsn` itself otherwise.
    pub open spec fn spec_read_at(self, p: PageId, lsn: Lsn) -> Lsn {
        if self.pool_has(p) && self.pooled_read_point(p) >= lsn {
            self.pooled_read_point(p)
        } else {
            lsn
        }
    }

    /// The session is consistent with a storage engine: its read point is
    /// within the durable horizon, and every pooled page is exactly the
    /// materialization its captured read point demands.  The pool is an
    /// optimization only; correctness never depends on what is in it.
    pub closed spec fn inv(self, storage: StorageEngine) -> bool {
        &&& self.buffer_pool.wf()
        &&& self.spec_read_point() <= storage.vdl()
        &&& forall|p: PageId|
            #[trigger] self.buffer_pool.spec_contains(p) ==> {
                &&& self.buffer_pool.read_point_of(p) <= storage.vdl()
                &&& visible_records(storage.log(), p, self.buffer_pool.read_point_of(p)).len() > 0
                &&& self.buffer_pool.page_of(p) == page_at(
                    storage.log(),
                    p,
                    self.buffer_pool.read_point_of(p),
                )
            }
    }

    pub fn new(buffer_pool_capacity: usize) -> (r: Self)
        ensures
            r.spec_read_point() == 0,
            r.spec_next_mtr_id() == 1,
            forall|s: StorageEngine| #[trigger] r.inv(s),
    {
        ComputeEngine {
            buffer_pool: BufferPool::new(buffer_pool_capacity),
            next_mtr_id: 1,
            read_point: 0,
        }
    }

    /// The next mini-transaction identifier the session will hand out.
    pub fn mtr_counter(&self) -> (r: u64)
        ensures
            r == self.spec_next_mtr_id(),
    {
        self.next_mtr_id
    }

    /// Get the current read point (VDL as seen by this session).
    pub fn read_point(&self) -> (r: Lsn)
        ensures
            r == self.spec_read_point(),
    {
        self.read_point
    }

    /// Refresh the read point from storage's durability state.  This is the
    /// only way a session picks up writes performed by other sessions.
    pub fn refresh_read_point(&mut self, storage: &StorageEngine) -> (r: Result<Lsn, StorageError>)
        requires
            storage.wf(),
            old(self).inv(*storage),
        ensures
            final(self).inv(*storage),
            final(self).spec_read_point() == storage.vdl(),
            final(self).spec_next_mtr_id() == old(self).spec_next_mtr_id(),
            r matches Ok(lsn) && lsn == storage.vdl(),
    {
        let state = match storage.get_durability_state() {
            Ok(s) => s,
            Err(e) => {
                proof {
                    assert(false);
                }
                return Err(e);
            },
        };
        self.read_point = state.vdl;
        Ok(state.vdl)
    }

    /// Write bytes to a page at a given offset, as a single-record MTR.
    /// On success the session's read point advances to the returned VDL, so
    /// the session always reads its own writes.
    pub fn put(
        &mut self,
        storage: &mut StorageEngine,
        page_id: PageId,
        offset: u16,
        data: Vec<u8>,
    ) -> (r: Result<Lsn, StorageError>)
        requires
            old(storage).wf(),
            old(self).inv(*old(storage)),
            old(storage).log().len() + 1 < u64::MAX,
            old(self).spec_next_mtr_id() < u64::MAX,
        ensures
            final(storage).wf(),
            final(self).inv(*final(storage)),
            offset + data@.len() > PAGE_SIZE ==> (r matches Err(e)
                && e matches StorageError::PageOverflow { offset: o, len } && o == offset && len
                == data@.len() && *final(storage) == *old(storage) && *final(self) == *old(self)),
            offset + data@.len() <= PAGE_SIZE ==> {
                &&& final(storage).log() == assign_batch(
                    old(storage).log(),
                    put_batch(page_id, offset, data@, old(self).spec_next_mtr_id()),
                )
                &&& final(storage).vdl() == old(storage).log().len() + 1
                &&& final(storage).vcl() == final(storage).vdl()
                &&& r matches Ok(lsn) && lsn == final(storage).vdl()
                &&& final(self).spec_read_point() == final(storage).vdl()
                &&& final(self).spec_next_mtr_id() == old(self).spec_next_mtr_id() + 1
                &&& !final(self).pool_has(page_id)
            },
    {
        if data.len() > PAGE_SIZE || offset as usize > PAGE_SIZE - data.len() {
            return Err(StorageError::PageOverflow { offset, len: data.len() });
        }
        let ghost data_view = data@;
        let mtr_id = self.next_mtr_id;
        self.next_mtr_id = self.next_mtr_id + 1;
        let mut mtr = MiniTransaction::new(mtr_id);
        mtr.write(page_id, offset, data);
        let records = match mtr.finish() {
            Some(r) => r,
            None => {
                proof {
                    assert(false);
                }
                return Err(StorageError::Other(String::new()));
            },
        };
        let ghost batch = put_batch(page_id, offset, data_view, mtr_id);
        proof {
            assert(views_of(records@) =~= batch);
            assert(batch[0].bounded());
            assert(forall|i: int|
                0 <= i < records@.len() ==> (#[trigger] records@[i])@ == views_of(records@)[i]);
        }
        let vdl = match storage.append_redo(records) {
            Ok(v) => v,
            Err(e) => {
                proof {
                    assert(false);
                }
                return Err(e);
            },
        };
        self.read_point = vdl;
        self.buffer_pool.invalidate(page_id);
        proof {
            lemma_assign_batch_props(old(storage).log(), batch);
            let new_log = storage.log();
            assert(batch[0].is_mtr_end);
            assert(new_log[old(storage).log().len() as int + 0].is_mtr_end);
            assert(new_log.last() == new_log[old(storage).log().len() as int]);
            assert(new_log.last().is_mtr_end);
            assert(crate::common::last_cpl(new_log) == new_log.last().lsn) by {
                assert(new_log.drop_last() =~= new_log.take(new_log.len() - 1));
            }
            assert(new_log.take(old(storage).log().len() as int) =~= old(storage).log());
            old(storage).lemma_watermarks();
            assert forall|p: PageId|
                #[trigger] self.buffer_pool.spec_contains(p) implies self.buffer_pool
                .read_point_of(p) <= old(storage).vdl() && visible_records(
                old(storage).log(),
                p,
                self.buffer_pool.read_point_of(p),
            ).len() > 0 && self.buffer_pool.page_of(p) == page_at(
                old(storage).log(),
                p,
                self.buffer_pool.read_point_of(p),
            ) by {
                assert(self.buffer_pool.same_entry_as(old(self).buffer_pool, p));
            }
            lemma_inv_preserved(self.buffer_pool, *old(storage), *storage);
        }
        Ok(vdl)
    }

    /// Execute a multi-record mini-transaction: one record per write, the
    /// last one the consistency point, all durable together.  An empty list
    /// appends nothing.  On success the session's read point advances to the
    /// returned VDL.
    pub fn put_multi(
        &mut self,
        storage: &mut StorageEngine,
        writes: Vec<(PageId, u16, Vec<u8>)>,
    ) -> (r: Result<Lsn, StorageError>)
        requires
            old(storage).wf(),
            old(self).inv(*old(storage)),
            old(storage).log().len() + writes@.len() < u64::MAX,
            old(self).spec_next_mtr_id() < u64::MAX,
        ensures
            final(storage).wf(),
            final(self).inv(*final(storage)),
            (exists|i: int|
                0 <= i < writes@.len() && ((#[trigger] writes@[i]).1 + writes@[i].2@.len()
                    > PAGE_SIZE)) ==> ((r matches Err(e)
                && e matches StorageError::PageOverflow { offset, len } && exists|i: int|
                0 <= i < writes@.len() && offset == (#[trigger] writes@[i]).1 && len == writes@[
                    i
                ].2@.len() && writes@[i].1 + writes@[i].2@.len() > PAGE_SIZE && (forall|j: int|
                    0 <= j < i ==> writes@[j].1 + writes@[j].2@.len() <= PAGE_SIZE))
                && *final(storage) == *old(storage) && *final(self) == *old(self)),
            (forall|i: int|
                0 <= i < writes@.len() ==> ((#[trigger] writes@[i]).1 + writes@[i].2@.len()
                    <= PAGE_SIZE)) && writes@.len() > 0 ==> {
                &&& final(storage).log() == assign_batch(
                    old(storage).log(),
                    multi_batch(writes_views(writes@), old(self).spec_next_mtr_id()),
                )
                &&& final(storage).vdl() == old(storage).log().len() + writes@.len()
                &&& final(storage).vcl() == final(storage).vdl()
                &&& r matches Ok(lsn) && lsn == final(storage).vdl()
                &&& final(self).spec_read_point() == final(storage).vdl()
                &&& (forall|i: int|
                    0 <= i < writes@.len() ==> !final(self).pool_has(
                        (#[trigger] writes@[i]).0,
                    ))
            },
            writes@.len() == 0 ==> (*final(storage) == *old(storage) && (r matches Ok(lsn) && lsn
                == old(self).spec_read_point())),
    {
        let ghost ws = writes_views(writes@);
        proof {
            assert(forall|i: int| 0 <= i < ws.len() ==> #[trigger] ws[i] == (writes@[i].0, writes@[i].1, writes@[i].2@));
        }
        // Validate page overflow per record, before any state changes, and
        // remember the touched pages for cache invalidation.
        let n = writes.len();
        let mut pids: Vec<PageId> = Vec::new();
        let mut i: usize = 0;
        while i < n
            invariant
                n == writes@.len(),
                0 <= i <= n,
                forall|j: int|
                    0 <= j < i ==> ((#[trigger] writes@[j]).1 + writes@[j].2@.len() <= PAGE_SIZE),
                pids@.len() == i,
                forall|k: int| 0 <= k < i ==> #[trigger] pids@[k] == writes@[k].0,
                *storage == *old(storage),
                *self == *old(self),
                old(storage).wf(),
                old(self).inv(*old(storage)),
            decreases n - i,
        {
            let dlen = writes[i].2.len();
            if dlen > PAGE_SIZE || writes[i].1 as usize > PAGE_SIZE - dlen {
                proof {
                    assert(writes@[i as int].1 + writes@[i as int].2@.len() > PAGE_SIZE);
                }
                return Err(StorageError::PageOverflow { offset: writes[i].1, len: dlen });
            }
            pids.push(writes[i].0);
            i = i + 1;
        }
        if n == 0 {
            return Ok(self.read_point);
        }
        let mtr_id = self.next_mtr_id;
        self.next_mtr_id = self.next_mtr_id + 1;
        // Reverse the writes so they can be taken off in input order.
        let mut input = writes;
        let mut rev: Vec<(PageId, u16, Vec<u8>)> = Vec::new();
        proof {
            assert(writes_views(input@) + writes_views(rev@).reverse() =~= ws);
        }
        loop
            invariant
                writes_views(input@) + writes_views(rev@).reverse() == ws,
            ensures
                writes_views(rev@).reverse() == ws,
            decreases input@.len(),
        {
            let ghost input0 = input@;
            let ghost rev0 = rev@;
            match input.pop() {
                Some(w) => {
                    let ghost m = (w.0, w.1, w.2@);
                    rev.push(w);
                    proof {
                        assert(writes_views(rev@) =~= writes_views(rev0).push(m));
                        assert(writes_views(input@) =~= writes_views(input0).drop_last());
                        assert(writes_views(input0).last() == m);
                        assert(writes_views(input@) + writes_views(rev@).reverse() =~= writes_views(
                            input0,
                        ) + writes_views(rev0).reverse());
                    }
                },
                None => {
                    proof {
                        assert(writes_views(input@) =~= Seq::<(PageId, u16, Seq<u8>)>::empty());
                        assert(writes_views(input@) + writes_views(rev@).reverse() =~= writes_views(
                            rev@,
                        ).reverse());
                    }
                    break ;
                },
            }
        }
        // Build the MTR in input order.
        let mut mtr = MiniTransaction::new(mtr_id);
        let ghost mut k: int = 0;
        loop
            invariant
                0 <= k <= ws.len(),
                writes_views(rev@).reverse() == ws.skip(k),
                mtr.spec_mtr_id() == mtr_id,
                mtr.records_view() == Seq::new(
                    k as nat,
                    |j: int| spec_mtr_record(ws[j].0, ws[j].1, ws[j].2, mtr_id),
                ),
            ensures
                k == ws.len(),
                mtr.spec_mtr_id() == mtr_id,
                mtr.records_view() == Seq::new(
                    ws.len(),
                    |j: int| spec_mtr_record(ws[j].0, ws[j].1, ws[j].2, mtr_id),
                ),
            decreases ws.len() - k,
        {
            let ghost rev0 = rev@;
            match rev.pop() {
                Some(w) => {
                    proof {
                        assert(rev0.len() > 0);
                        assert(writes_views(rev0).len() == rev0.len());
                        assert(writes_views(rev0).reverse().len() == rev0.len());
                        assert(ws.skip(k).len() == ws.len() - k);
                        assert(k < ws.len());
                        assert(writes_views(rev0).reverse()[0] == writes_views(rev0)[rev0.len()
                            - 1]);
                        assert(ws.skip(k)[0] == ws[k]);
                        assert((w.0, w.1, w.2@) == ws[k]);
                        assert(writes_views(rev@) =~= writes_views(rev0).drop_last());
                        assert(writes_views(rev@).reverse() =~= writes_views(
                            rev0,
                        ).reverse().skip(1));
                        assert(ws.skip(k).skip(1) =~= ws.skip(k + 1));
                    }
                    let ghost before = mtr.records_view();
                    mtr.write(w.0, w.1, w.2);
                    proof {
                        assert(mtr.records_view() =~= Seq::new(
                            (k + 1) as nat,
                            |j: int| spec_mtr_record(ws[j].0, ws[j].1, ws[j].2, mtr_id),
                        ));
                        k = k + 1;
                    }
                },
                None => {
                    proof {
                        assert(ws.skip(k).len() == 0);
                    }
                    break ;
                },
            }
        }
        let records = match mtr.finish() {
            Some(r) => r,
            None => {
                proof {
                    assert(false);
                }
                return Err(StorageError::Other(String::new()));
            },
        };
        let ghost batch = multi_batch(ws, mtr_id);
        proof {
            assert(views_of(records@) =~= batch);
            assert(forall|i2: int|
                0 <= i2 < records@.len() ==> (#[trigger] records@[i2])@ == views_of(records@)[i2]);
            assert forall|i2: int| 0 <= i2 < batch.len() implies (#[trigger] batch[i2]).bounded() by {
                assert(ws[i2] == (writes@[i2].0, writes@[i2].1, writes@[i2].2@));
            }
        }
        let vdl = match storage.append_redo(records) {
            Ok(v) => v,
            Err(e) => {
                proof {
                    assert(false);
                }
                return Err(e);
            },
        };
        self.read_point = vdl;
        // Invalidate every touched page in the local buffer pool.
        let numpids = pids.len();
        let mut j: usize = 0;
        while j < numpids
            invariant
                0 <= j <= numpids,
                numpids == pids@.len(),
                pids@.len() == writes@.len(),
                forall|k: int| 0 <= k < pids@.len() ==> #[trigger] pids@[k] == writes@[k].0,
                self.buffer_pool.wf(),
                self.spec_read_point() == vdl,
                forall|p: PageId|
                    #[trigger] self.buffer_pool.spec_contains(p) ==> self.buffer_pool
                        .same_entry_as(old(self).buffer_pool, p),
                forall|k: int|
                    0 <= k < j ==> !self.buffer_pool.spec_contains(#[trigger] pids@[k]),
            decreases numpids - j,
        {
            let ghost mid = self.buffer_pool;
            self.buffer_pool.invalidate(pids[j]);
            proof {
                assert forall|p: PageId|
                    #[trigger] self.buffer_pool.spec_contains(p) implies self.buffer_pool
                    .same_entry_as(old(self).buffer_pool, p) by {
                    assert(self.buffer_pool.same_entry_as(mid, p));
                }
                assert forall|k: int|
                    0 <= k < j + 1 implies !self.buffer_pool.spec_contains(
                    #[trigger] pids@[k],
                ) by {
                    if k < j {
                        if self.buffer_pool.spec_contains(pids@[k]) {
                            assert(self.buffer_pool.same_entry_as(mid, pids@[k]));
                        }
                    }
                }
            }
            j = j + 1;
        }
        proof {
            assert forall|i2: int|
                0 <= i2 < writes@.len() implies !self.buffer_pool.spec_contains(
                (#[trigger] writes@[i2]).0,
            ) by {
                assert(pids@[i2] == writes@[i2].0);
            }
        }
        proof {
            lemma_assign_batch_props(old(storage).log(), batch);
            let new_log = storage.log();
            assert(new_log.len() == old(storage).log().len() + batch.len());
            assert(batch[batch.len() - 1].is_mtr_end);
            assert(new_log[old(storage).log().len() + (batch.len() - 1)].is_mtr_end);
            assert(new_log.len() - 1 == old(storage).log().len() + (batch.len() - 1));
            assert(new_log.last() == new_log[new_log.len() - 1]);
            assert(new_log.last().is_mtr_end);
            assert(crate::common::last_cpl(new_log) == new_log.last().lsn) by {
                assert(new_log.drop_last() =~= new_log.take(new_log.len() - 1));
            }
            assert(new_log.take(old(storage).log().len() as int) =~= old(storage).log());
            old(storage).lemma_watermarks();
            assert forall|p: PageId|
                #[trigger] self.buffer_pool.spec_contains(p) implies self.buffer_pool
                .read_point_of(p) <= old(storage).vdl() && visible_records(
                old(storage).log(),
                p,
                self.buffer_pool.read_point_of(p),
            ).len() > 0 && self.buffer_pool.page_of(p) == page_at(
                old(storage).log(),
                p,
                self.buffer_pool.read_point_of(p),
            ) by {
                assert(self.buffer_pool.same_entry_as(old(self).buffer_pool, p));
            }
            lemma_inv_preserved(self.buffer_pool, *old(storage), *storage);
        }
        Ok(vdl)
    }

    /// Read a page at the current read point.
    pub fn get(&mut self, storage: &mut StorageEngine, page_id: PageId) -> (r: Result<
        Page,
        StorageError,
    >)
        requires
            old(storage).wf(),
            old(self).inv(*old(storage)),
        ensures
            final(storage).wf(),
            final(storage).log() == old(storage).log(),
            final(storage).vcl() == old(storage).vcl(),
            final(storage).vdl() == old(storage).vdl(),
            final(self).inv(*final(storage)),
            final(self).spec_read_point() == old(self).spec_read_point(),
            r matches Ok(page) ==> ({
                let rp = old(self).spec_read_at(page_id, old(self).spec_read_point());
                &&& old(self).spec_read_point() <= rp <= old(storage).vdl()
                &&& visible_records(old(storage).log(), page_id, rp).len() > 0
                &&& page@ == page_at(old(storage).log(), page_id, rp)
                &&& page@.len() == PAGE_SIZE
                &&& final(self).pool_has(page_id)
                &&& final(self).pooled_read_point(page_id) == rp
            }),
            visible_records(old(storage).log(), page_id, old(self).spec_read_point()).len() > 0
                ==> r is Ok,
            visible_records(old(storage).log(), page_id, old(storage).vdl()).len() == 0 ==> (
            r matches Err(e) && e matches StorageError::PageNotFound { page_id: pid, lsn } && pid
                == page_id && lsn == old(self).spec_read_point()),
    {
        let read_point = self.read_point;
        self.get_at(storage, page_id, read_point)
    }

    /// Read a page at a specific LSN.  The buffer pool may satisfy the read
    /// with a capture taken at a later read point (stale-older-read policy);
    /// on a miss the page comes from storage and is cached here.
    pub fn get_at(&mut self, storage: &mut StorageEngine, page_id: PageId, lsn: Lsn) -> (r: Result<
        Page,
        StorageError,
    >)
        requires
            old(storage).wf(),
            old(self).inv(*old(storage)),
        ensures
            final(storage).wf(),
            final(storage).log() == old(storage).log(),
            final(storage).vcl() == old(storage).vcl(),
            final(storage).vdl() == old(storage).vdl(),
            final(self).inv(*final(storage)),
            final(self).spec_read_point() == old(self).spec_read_point(),
            lsn > old(storage).vdl() ==> (r matches Err(e)
                && e matches StorageError::LsnBeyondDurable { requested, durable } && requested
                == lsn && durable == old(storage).vdl()),
            r matches Ok(page) ==> ({
                let rp = old(self).spec_read_at(page_id, lsn);
                &&& lsn <= rp <= old(storage).vdl()
                &&& visible_records(old(storage).log(), page_id, rp).len() > 0
                &&& page@ == page_at(old(storage).log(), page_id, rp)
                &&& page@.len() == PAGE_SIZE
                &&& final(self).pool_has(page_id)
                &&& final(self).pooled_read_point(page_id) == rp
            }),
            lsn <= old(storage).vdl() && visible_records(old(storage).log(), page_id, lsn).len()
                > 0 ==> r is Ok,
            lsn <= old(storage).vdl() && visible_records(
                old(storage).log(),
                page_id,
                old(storage).vdl(),
            ).len() == 0 ==> (r matches Err(e) && e matches StorageError::PageNotFound {
                page_id: pid,
                lsn: l,
            } && pid == page_id && l == lsn),
    {
        // Check the buffer pool first: a capture at or beyond the requested
        // LSN satisfies the read.
        let pooled = match self.buffer_pool.get(page_id, lsn) {
            Some(pg) => {
                let out = copy_page(pg);
                Some(out)
            },
            None => None,
        };
        proof {
            assert forall|p: PageId| #[trigger] self.buffer_pool.spec_contains(p) implies {
                &&& self.buffer_pool.read_point_of(p) <= storage.vdl()
                &&& visible_records(storage.log(), p, self.buffer_pool.read_point_of(p)).len() > 0
                &&& self.buffer_pool.page_of(p) == page_at(
                    storage.log(),
                    p,
                    self.buffer_pool.read_point_of(p),
                )
            } by {
                assert(self.buffer_pool.same_entry_as(old(self).buffer_pool, p));
            }
            assert(self.inv(*storage));
        }
        match pooled {
            Some(out) => {
                proof {
                    let rp = old(self).buffer_pool.read_point_of(page_id);
                    assert(old(self).buffer_pool.spec_contains(page_id));
                    assert(old(self).spec_read_at(page_id, lsn) == rp);
                    assert(self.buffer_pool.same_entry_as(old(self).buffer_pool, page_id));
                    assert(self.pool_has(page_id) && self.pooled_read_point(page_id) == rp);
                    assert(lsn <= rp <= storage.vdl());
                    assert(visible_records(storage.log(), page_id, rp).len() > 0);
                    assert(out@ == page_at(storage.log(), page_id, rp));
                    lemma_replay_onto_len(
                        crate::common::spec_zero_page(),
                        visible_records(storage.log(), page_id, rp),
                    );
                    storage.lemma_watermarks();
                    crate::common::lemma_visible_monotone(
                        storage.log(),
                        page_id,
                        rp,
                        storage.vdl(),
                    );
                }
                return Ok(out);
            },
            None => {},
        }
        let ghost pool1 = self.buffer_pool;
        proof {
            assert(old(self).spec_read_at(page_id, lsn) == lsn) by {
                if old(self).buffer_pool.spec_contains(page_id) {
                    assert(old(self).buffer_pool.read_point_of(page_id) < lsn);
                }
            }
        }
        // Fetch from storage.
        let page = match storage.get_page(page_id, lsn) {
            Ok(p) => p,
            Err(e) => {
                proof {
                    if lsn <= old(storage).vdl() && visible_records(
                        old(storage).log(),
                        page_id,
                        lsn,
                    ).len() > 0 {
                        assert(false);
                    }
                }
                return Err(e);
            },
        };
        proof {
            assert(lsn <= storage.vdl());
            assert(visible_records(storage.log(), page_id, lsn).len() > 0);
            assert(page@ == page_at(storage.log(), page_id, lsn));
            storage.lemma_watermarks();
            crate::common::lemma_visible_monotone(storage.log(), page_id, lsn, storage.vdl());
        }
        // Cache in the buffer pool at the requested read point.
        let out = copy_page(&page);
        self.buffer_pool.insert(page_id, lsn, page);
        proof {
            assert forall|p: PageId| #[trigger] self.buffer_pool.spec_contains(p) implies {
                &&& self.buffer_pool.read_point_of(p) <= storage.vdl()
                &&& visible_records(storage.log(), p, self.buffer_pool.read_point_of(p)).len() > 0
                &&& self.buffer_pool.page_of(p) == page_at(
                    storage.log(),
                    p,
                    self.buffer_pool.read_point_of(p),
                )
            } by {
                if p != page_id {
                    assert(self.buffer_pool.same_entry_as(pool1, p));
                }
            }
            assert(self.inv(*storage));
            assert(self.pool_has(page_id) && self.pooled_read_point(page_id) == lsn);
        }
        Ok(out)
    }
}

/// A pool whose entries were right for one storage state stays right when the
/// log grows: every capture lies at or below the old durable horizon, and
/// nothing at or below it changes.
proof fn lemma_inv_preserved(pool: BufferPool, s0: StorageEngine, s1: StorageEngine)
    requires
        pool.wf(),
        s0.wf(),
        s1.wf(),
        s0.vdl() <= s1.vdl(),
        s0.vdl() <= s0.log().len() <= s1.log().len(),
        s1.log().take(s0.log().len() as int) == s0.log(),
        forall|p: PageId|
            #[trigger] pool.spec_contains(p) ==> pool.read_point_of(p) <= s0.vdl()
                && visible_records(s0.log(), p, pool.read_point_of(p)).len() > 0 && pool.page_of(p)
                == page_at(s0.log(), p, pool.read_point_of(p)),
    ensures
        forall|p: PageId|
            #[trigger] pool.spec_contains(p) ==> pool.read_point_of(p) <= s1.vdl()
                && visible_records(s1.log(), p, pool.read_point_of(p)).len() > 0 && pool.page_of(p)
                == page_at(s1.log(), p, pool.read_point_of(p)),
{
    s1.lemma_watermarks();
    assert forall|p: PageId| #[trigger] pool.spec_contains(p) implies pool.read_point_of(p)
        <= s1.vdl() && visible_records(s1.log(), p, pool.read_point_of(p)).len() > 0
        && pool.page_of(p) == page_at(s1.log(), p, pool.read_point_of(p)) by {
        let rp = pool.read_point_of(p);
        crate::common::lemma_visible_take_stable(s1.log(), p, rp, s0.log().len() as int);
    }
}

} // verus!
