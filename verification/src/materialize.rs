//! Page materialization: replaying a chain of redo records onto a zeroed
//! 8 KiB page image.

use vstd::prelude::*;

use crate::common::{
    empty_page, lemma_visible_monotone, lsns_contiguous, spec_zero_page, views_of, visible_records,
    Lsn, Page, PageId, RecordModel, RedoRecord, StorageError, PAGE_SIZE,
};

verus! {

/// One redo application: the payload written over the page at its offset.
/// Bytes past the end of the page are not written.
pub open spec fn apply_record(page: Seq<u8>, rec: RecordModel) -> Seq<u8> {
    Seq::new(
        page.len(),
        |i: int|
            if rec.offset <= i < rec.offset + rec.data.len() {
                rec.data[i - rec.offset]
            } else {
                page[i]
            },
    )
}

/// Replaying records onto a page, oldest first; later writes run last and win.
pub open spec fn replay_onto(page: Seq<u8>, recs: Seq<RecordModel>) -> Seq<u8>
    decreases recs.len(),
{
    if recs.len() == 0 {
        page
    } else {
        replay_onto(apply_record(page, recs[0]), recs.skip(1))
    }
}

/// The page image a record sequence produces from a zeroed page.
pub open spec fn replay(recs: Seq<RecordModel>) -> Seq<u8> {
    replay_onto(spec_zero_page(), recs)
}

/// The image of page `p` at read point `r`: the oldest-first replay of the
/// records in `p`'s chain with LSN ≤ `r` onto a zeroed page.
pub open spec fn page_at(log: Seq<RecordModel>, p: PageId, r: Lsn) -> Seq<u8> {
    replay(visible_records(log, p, r))
}

pub proof fn lemma_replay_onto_len(page: Seq<u8>, recs: Seq<RecordModel>)
    ensures
        replay_onto(page, recs).len() == page.len(),
    decreases recs.len(),
{
    if recs.len() > 0 {
        lemma_replay_onto_len(apply_record(page, recs[0]), recs.skip(1));
    }
}

pub proof fn lemma_replay_onto_snoc(page: Seq<u8>, recs: Seq<RecordModel>, rec: RecordModel)
    ensures
        replay_onto(page, recs.push(rec)) == apply_record(replay_onto(page, recs), rec),
    decreases recs.len(),
{
    let l2 = recs.push(rec);
    assert(l2[0] == if recs.len() == 0 {
        rec
    } else {
        recs[0]
    });
    if recs.len() == 0 {
        assert(l2.skip(1) =~= Seq::<RecordModel>::empty());
        assert(replay_onto(apply_record(page, rec), Seq::<RecordModel>::empty()) == apply_record(
            page,
            rec,
        ));
    } else {
        assert(l2.skip(1) =~= recs.skip(1).push(rec));
        lemma_replay_onto_snoc(apply_record(page, recs[0]), recs.skip(1), rec);
    }
}

/// Replaying a concatenation is replaying one part after the other.
pub proof fn lemma_replay_onto_concat(page: Seq<u8>, a: Seq<RecordModel>, b: Seq<RecordModel>)
    ensures
        replay_onto(page, a + b) == replay_onto(replay_onto(page, a), b),
    decreases a.len(),
{
    if a.len() == 0 {
        assert(a + b =~= b);
    } else {
        assert((a + b)[0] == a[0]);
        assert((a + b).skip(1) =~= a.skip(1) + b);
        lemma_replay_onto_concat(apply_record(page, a[0]), a.skip(1), b);
    }
}

/// Monotonicity of the visible prefix: raising the read point from `r1` to
/// `r2` changes the page only by replaying zero or more additional records —
/// the ones with LSNs in between — on top of the earlier image.
pub proof fn lemma_page_at_monotone(log: Seq<RecordModel>, p: PageId, r1: Lsn, r2: Lsn)
    requires
        lsns_contiguous(log),
        r1 <= r2,
    ensures
        ({
            let v1 = visible_records(log, p, r1);
            let v2 = visible_records(log, p, r2);
            &&& v1 == v2.take(v1.len() as int)
            &&& page_at(log, p, r2) == replay_onto(page_at(log, p, r1), v2.skip(v1.len() as int))
        }),
{
    lemma_visible_monotone(log, p, r1, r2);
    let v1 = visible_records(log, p, r1);
    let v2 = visible_records(log, p, r2);
    assert(v2 =~= v1 + v2.skip(v1.len() as int));
    lemma_replay_onto_concat(spec_zero_page(), v1, v2.skip(v1.len() as int));
}

/// A page read is a function of the log, the page and the read point alone:
/// repeated materializations at the same read point give byte-identical pages.
pub proof fn lemma_page_at_idempotent(
    log: Seq<RecordModel>,
    p: PageId,
    r: Lsn,
    page1: Seq<u8>,
    page2: Seq<u8>,
)
    requires
        page1 == page_at(log, p, r),
        page2 == page_at(log, p, r),
    ensures
        page1 == page2,
{
}

/// Apply a single redo record to a page image.
fn apply_redo(page: &mut Page, record: &RedoRecord) -> (r: Result<(), StorageError>)
    requires
        old(page)@.len() == PAGE_SIZE,
    ensures
        final(page)@.len() == PAGE_SIZE,
        record@.bounded() ==> r is Ok && final(page)@ == apply_record(old(page)@, record@),
        !record@.bounded() ==> final(page)@ == old(page)@ && (r matches Err(e)
            && e matches StorageError::PageOverflow { offset, len } && offset == record.offset
            && len == record.data@.len()),
{
    let start = record.offset as usize;
    let dlen = record.data.len();
    if start > PAGE_SIZE || dlen > PAGE_SIZE - start {
        return Err(StorageError::PageOverflow { offset: record.offset, len: dlen });
    }
    let mut k: usize = 0;
    while k < dlen
        invariant
            page@.len() == PAGE_SIZE,
            start == record.offset,
            dlen == record.data@.len(),
            start + dlen <= PAGE_SIZE,
            0 <= k <= dlen,
            forall|j: int|
                0 <= j < PAGE_SIZE ==> page@[j] == (if start <= j < start + k {
                    record.data@[j - start]
                } else {
                    old(page)@[j]
                }),
        decreases dlen - k,
    {
        page[start + k] = record.data[k];
        k = k + 1;
    }
    proof {
        assert(page@ =~= apply_record(old(page)@, record@));
    }
    Ok(())
}

/// Materialize a page by replaying a chain of redo records onto a zeroed page.
///
/// Records must be in LSN order (oldest first).  Each record writes its
/// `data` at its `offset` within the page.  A record that would run past the
/// page's end is a hard error.
pub fn materialize_page(page_id: PageId, records: &Vec<RedoRecord>) -> (r: Result<
    Page,
    StorageError,
>)
    ensures
        r is Ok <==> (forall|i: int|
            0 <= i < records@.len() ==> (#[trigger] records@[i])@.bounded()),
        r matches Ok(page) ==> page@ == replay(views_of(records@)) && page@.len() == PAGE_SIZE,
        r matches Err(e) ==> (e matches StorageError::PageOverflow { offset, len } && exists|
            i: int,
        |
            0 <= i < records@.len() && !(#[trigger] records@[i])@.bounded() && offset == records@[
                i
            ].offset && len == records@[i].data@.len() && (forall|j: int|
                0 <= j < i ==> (records@[j])@.bounded())),
{
    let ghost models = views_of(records@);
    let mut page = empty_page();
    let n = records.len();
    let mut i: usize = 0;
    proof {
        assert(models.take(0) =~= Seq::<RecordModel>::empty());
    }
    while i < n
        invariant
            n == records@.len(),
            models == views_of(records@),
            0 <= i <= n,
            page@.len() == PAGE_SIZE,
            page@ == replay_onto(spec_zero_page(), models.take(i as int)),
            forall|k: int| 0 <= k < i ==> (#[trigger] models[k]).bounded(),
        decreases n - i,
    {
        let ghost page0 = page@;
        match apply_redo(&mut page, &records[i]) {
            Ok(_) => {},
            Err(e) => {
                proof {
                    assert(!(records@[i as int])@.bounded());
                    assert forall|j: int| 0 <= j < i implies (
                    #[trigger] records@[j])@.bounded() by {
                        assert(models[j] == (records@[j])@);
                    }
                }
                return Err(e);
            },
        }
        proof {
            lemma_replay_onto_snoc(spec_zero_page(), models.take(i as int), models[i as int]);
            assert(models.take(i as int).push(models[i as int]) =~= models.take(i + 1));
        }
        i = i + 1;
    }
    proof {
        assert(models.take(n as int) =~= models);
        assert forall|k: int| 0 <= k < records@.len() implies (#[trigger] records@[k])@.bounded() by {
            assert(models[k] == (records@[k])@);
        }
    }
    Ok(page)
}

} // verus!
