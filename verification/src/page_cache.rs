//! Storage-side page cache keyed by `(page_id, read_point)`, backed by moka.
//! Each read point is an independent entry, so the cache is trivially MVCC.
//! Eviction is best-effort; correctness never depends on what is in it.

use vstd::prelude::*;

use crate::common::{Lsn, Page, PageId};

verus! {

/// Key for the page cache: (page_id, read_point_lsn).
/// Different read points may see different versions of the same page.
#[derive(Clone, Copy, Debug, Hash, PartialEq, Eq, Structural)]
pub struct CacheKey {
    pub page_id: PageId,
    pub lsn: Lsn,
}

#[verifier::external_type_specification]
#[verifier::external_body]
#[verifier::reject_recursive_types(K)]
#[verifier::reject_recursive_types(V)]
#[verifier::reject_recursive_types(S)]
pub struct ExMokaCache<K, V, S>(moka::sync::Cache<K, V, S>);

/// What the cache currently holds: which page image is stored under each
/// (page, read point) pair.
pub uninterp spec fn cache_entries(c: moka::sync::Cache<(u64, u64), Vec<u8>>) -> Map<
    (u64, u64),
    Seq<u8>,
>;

/// Relies on moka::sync::Cache::new: a fresh cache holds no entries.
#[verifier::external_body]
fn cache_new(max_entries: u64) -> (c: moka::sync::Cache<(u64, u64), Vec<u8>>)
    ensures
        forall|k: (u64, u64)| !cache_entries(c).dom().contains(k),
{
    moka::sync::Cache::new(max_entries)
}

/// Relies on moka::sync::Cache::get: a hit returns the value stored under the
/// key; housekeeping during the read can only evict entries, never alter one.
#[verifier::external_body]
fn cache_get(c: &mut moka::sync::Cache<(u64, u64), Vec<u8>>, page_id: u64, lsn: u64) -> (r: Option<
    Vec<u8>,
>)
    ensures
        cache_entries(*final(c)).submap_of(cache_entries(*old(c))),
        r matches Some(v) ==> cache_entries(*old(c)).contains_pair((page_id, lsn), v@),
{
    c.get(&(page_id, lsn))
}

/// Relies on moka::sync::Cache::insert: it stores the value under the key —
/// or declines to admit it — and may evict entries at its own discretion; it
/// never alters the value held under another key.
#[verifier::external_body]
fn cache_insert(c: &mut moka::sync::Cache<(u64, u64), Vec<u8>>, page_id: u64, lsn: u64, v: &Vec<u8>)
    ensures
        cache_entries(*final(c)).submap_of(cache_entries(*old(c)).insert((page_id, lsn), v@)),
{
    c.insert((page_id, lsn), v.clone());
}

/// Relies on moka::sync::Cache::entry_count: an estimate of how many entries
/// the cache holds; pending work may make it out of date.
#[verifier::external_body]
fn cache_entry_count(c: &moka::sync::Cache<(u64, u64), Vec<u8>>) -> (r: u64) {
    c.entry_count()
}

/// Capacity-bounded associative cache for page images, approximating LRU.
pub struct PageCache {
    cache: moka::sync::Cache<(u64, u64), Vec<u8>>,
}

impl PageCache {
    /// Everything the cache currently holds.
    pub closed spec fn entries(self) -> Map<(u64, u64), Seq<u8>> {
        cache_entries(self.cache)
    }

    /// Create a new page cache with the given maximum number of entries.
    pub fn new(max_entries: u64) -> (c: Self)
        ensures
            c.entries() == Map::<(u64, u64), Seq<u8>>::empty(),
    {
        let c = PageCache { cache: cache_new(max_entries) };
        proof {
            assert(c.entries() =~= Map::<(u64, u64), Seq<u8>>::empty());
        }
        c
    }

    /// Try to get a cached page.
    pub fn get(&mut self, page_id: PageId, lsn: Lsn) -> (r: Option<Page>)
        ensures
            final(self).entries().submap_of(old(self).entries()),
            r matches Some(p) ==> old(self).entries().contains_pair((page_id, lsn), p@),
    {
        cache_get(&mut self.cache, page_id, lsn)
    }

    /// Insert a page into the cache.
    pub fn insert(&mut self, page_id: PageId, lsn: Lsn, page: &Page)
        ensures
            final(self).entries().submap_of(
                old(self).entries().insert((page_id, lsn), page@),
            ),
    {
        cache_insert(&mut self.cache, page_id, lsn, page);
    }

    /// Number of entries currently in the cache (an estimate).
    pub fn len(&self) -> u64 {
        cache_entry_count(&self.cache)
    }

    /// Whether the estimate says the cache is empty.
    pub fn is_empty(&self) -> bool {
        self.len() == 0
    }
}

} // verus!
