//! Builder for a mini-transaction (MTR).
//!
//! Collects redo records and marks the last one as the CPL (consistency
//! point).  The group is atomic: it becomes visible to readers only once its
//! CPL is durable.

use vstd::prelude::*;

use crate::common::{views_of, PageId, RecordModel, RedoRecord};

verus! {

/// A non-empty ordered group of redo records sharing one `mtr_id`; the final
/// record carries `is_mtr_end` and is the group's CPL.
pub struct MiniTransaction {
    mtr_id: u64,
    records: Vec<RedoRecord>,
}

/// A fresh, unassigned record for one page write within an MTR.
pub open spec fn spec_mtr_record(
    page_id: PageId,
    offset: u16,
    data: Seq<u8>,
    mtr_id: u64,
) -> RecordModel {
    RecordModel {
        lsn: 0,
        page_id,
        offset,
        data,
        prev_lsn: 0,
        mtr_id,
        is_mtr_end: false,
    }
}

impl MiniTransaction {
    /// The records collected so far, in order.
    pub closed spec fn records_view(self) -> Seq<RecordModel> {
        views_of(self.records@)
    }

    /// The group identifier.
    pub closed spec fn spec_mtr_id(self) -> u64 {
        self.mtr_id
    }

    pub fn new(mtr_id: u64) -> (r: Self)
        ensures
            r.spec_mtr_id() == mtr_id,
            r.records_view() == Seq::<RecordModel>::empty(),
    {
        let r = MiniTransaction { mtr_id, records: Vec::new() };
        proof {
            assert(r.records_view() =~= Seq::<RecordModel>::empty());
        }
        r
    }

    /// Add a page write to this mini-transaction.
    /// LSN and prev_lsn will be assigned by the storage engine.
    pub fn write(&mut self, page_id: PageId, offset: u16, data: Vec<u8>)
        ensures
            final(self).spec_mtr_id() == old(self).spec_mtr_id(),
            final(self).records_view() == old(self).records_view().push(
                spec_mtr_record(page_id, offset, data@, old(self).spec_mtr_id()),
            ),
    {
        let ghost before = self.records@;
        let record = RedoRecord {
            lsn: 0,  // assigned by storage
            page_id,
            offset,
            data,
            prev_lsn: 0,  // assigned by storage
            mtr_id: self.mtr_id,
            is_mtr_end: false,
        };
        self.records.push(record);
        proof {
            assert(views_of(self.records@) =~= views_of(before).push(
                spec_mtr_record(page_id, offset, self.records@.last().data@, self.mtr_id),
            ));
        }
    }

    /// Finalize the MTR: marks the last record as the CPL and returns all
    /// records.  Returns `None` if the MTR is empty.
    pub fn finish(self) -> (r: Option<Vec<RedoRecord>>)
        ensures
            r is None <==> self.records_view().len() == 0,
            r matches Some(recs) ==> {
                let n = self.records_view().len() as int;
                &&& views_of(recs@) == self.records_view().take(n - 1).push(
                    RecordModel { is_mtr_end: true, ..self.records_view()[n - 1] },
                )
                &&& views_of(recs@).len() == n
            },
    {
        let MiniTransaction { mtr_id: _, records: mut records } = self;
        let ghost before = records@;
        match records.pop() {
            Some(last) => {
                let mut last = last;
                last.is_mtr_end = true;
                records.push(last);
                proof {
                    let n = before.len() as int;
                    assert(views_of(before)[n - 1] == before[n - 1]@);
                    assert(views_of(records@) =~= views_of(before).take(n - 1).push(
                        RecordModel { is_mtr_end: true, ..views_of(before)[n - 1] },
                    ));
                }
                Some(records)
            },
            None => {
                proof {
                    assert(views_of(before).len() == 0);
                }
                None
            },
        }
    }

    /// The group identifier.
    pub fn mtr_id(&self) -> (r: u64)
        ensures
            r == self.spec_mtr_id(),
    {
        self.mtr_id
    }

    /// How many writes the group holds so far.
    pub fn len(&self) -> (r: usize)
        ensures
            r == self.records_view().len(),
    {
        self.records.len()
    }

    /// Whether the group holds no writes yet.
    pub fn is_empty(&self) -> (r: bool)
        ensures
            r == (self.records_view().len() == 0),
    {
        self.records.is_empty()
    }
}

} // verus!
