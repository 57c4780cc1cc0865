//! Append-only WAL writer over an in-memory byte log.  Each entry is a
//! fixed-size header followed by variable-length data, protected by a CRC-32
//! checksum.  Persisting and syncing the bytes is the host's concern.

use vstd::prelude::*;

use crate::codec::{data_fits, encode_record_into, spec_encode_log, spec_encode_record};
use crate::common::{views_of, RedoRecord};

verus! {

/// Append-only byte log in the on-disk WAL format.
pub struct WalWriter {
    bytes: Vec<u8>,
}

impl View for WalWriter {
    type V = Seq<u8>;

    closed spec fn view(&self) -> Seq<u8> {
        self.bytes@
    }
}

impl WalWriter {
    /// Open a WAL over whatever bytes already exist (create-or-append).
    pub fn open(existing: Vec<u8>) -> (w: Self)
        ensures
            w@ == existing@,
    {
        WalWriter { bytes: existing }
    }

    /// Append a single redo record to the WAL.
    pub fn append(&mut self, record: &RedoRecord)
        requires
            data_fits(record@),
        ensures
            final(self)@ == old(self)@ + spec_encode_record(record@),
    {
        encode_record_into(&mut self.bytes, record);
    }

    /// Append a batch of redo records, in input order.
    pub fn append_batch(&mut self, records: &Vec<RedoRecord>)
        requires
            forall|i: int| 0 <= i < records@.len() ==> data_fits((#[trigger] records@[i])@),
        ensures
            final(self)@ == old(self)@ + spec_encode_log(views_of(records@)),
    {
        let ghost models = views_of(records@);
        let n = records.len();
        proof {
            assert(spec_encode_log(models.take(0)) =~= Seq::<u8>::empty());
            assert(self@ =~= old(self)@ + spec_encode_log(models.take(0)));
        }
        let mut i: usize = 0;
        while i < n
            invariant
                n == records@.len(),
                models == views_of(records@),
                0 <= i <= n,
                forall|k: int| 0 <= k < records@.len() ==> data_fits((#[trigger] records@[k])@),
                self@ == old(self)@ + spec_encode_log(models.take(i as int)),
            decreases n - i,
        {
            self.append(&records[i]);
            proof {
                crate::codec::lemma_encode_log_snoc(models.take(i as int), models[i as int]);
                assert(models.take(i as int).push(models[i as int]) =~= models.take(i + 1));
            }
            i = i + 1;
        }
        proof {
            assert(models.take(n as int) =~= models);
        }
    }

    /// How many bytes the log holds.
    pub fn len(&self) -> (n: usize)
        ensures
            n == self@.len(),
    {
        self.bytes.len()
    }

    /// Borrow the raw log bytes, e.g. to scan them or hand them to the host.
    pub fn log_bytes(&self) -> (b: &Vec<u8>)
        ensures
            b@ == self@,
    {
        &self.bytes
    }

    /// Give the raw log bytes up, e.g. when the store is closed.
    pub fn into_bytes(self) -> (b: Vec<u8>)
        ensures
            b@ == self@,
    {
        self.bytes
    }

    /// Cut the log to its first `len` bytes.
    pub fn truncate(&mut self, len: usize)
        ensures
            final(self)@ == if len <= old(self)@.len() {
                old(self)@.take(len as int)
            } else {
                old(self)@
            },
    {
        self.bytes.truncate(len);
    }
}

} // verus!
