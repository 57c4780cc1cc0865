//! Local buffer pool on the compute side.
//!
//! Caches pages read from storage at specific read-point LSNs, so hot pages
//! need no repeated round trip.  A cached page may satisfy a read at an older
//! read point; eviction drops the least-accessed entry (approximate LFU).

use vstd::prelude::*;

use crate::common::{Lsn, Page, PageId};

verus! {

/// Bounded map from page to (page image, captured read point, access count),
/// stored as parallel columns with unique pages.
pub struct BufferPool {
    keys: Vec<PageId>,
    pages: Vec<Page>,
    read_points: Vec<Lsn>,
    counts: Vec<u64>,
    capacity: usize,
}

impl BufferPool {
    /// Columns line up and no page appears twice.
    pub closed spec fn wf(self) -> bool {
        &&& self.pages@.len() == self.keys@.len()
        &&& self.read_points@.len() == self.keys@.len()
        &&& self.counts@.len() == self.keys@.len()
        &&& (forall|i: int, j: int|
            0 <= i < j < self.keys@.len() ==> self.keys@[i] != self.keys@[j])
    }

    /// Whether the pool holds an entry for this page.
    pub closed spec fn spec_contains(self, p: PageId) -> bool {
        exists|i: int| 0 <= i < self.keys@.len() && self.keys@[i] == p
    }

    /// The index of the page's entry.
    pub closed spec fn index_of(self, p: PageId) -> int {
        choose|i: int| 0 <= i < self.keys@.len() && self.keys@[i] == p
    }

    /// The cached page image.
    pub closed spec fn page_of(self, p: PageId) -> Seq<u8> {
        self.pages@[self.index_of(p)]@
    }

    /// The read point the cached page was captured at.
    pub closed spec fn read_point_of(self, p: PageId) -> Lsn {
        self.read_points@[self.index_of(p)]
    }

    /// How many entries the pool holds.
    pub closed spec fn spec_len(self) -> int {
        self.keys@.len() as int
    }

    /// How many entries the pool will hold before evicting: starting from an
    /// empty pool, `spec_len()` never exceeds this (or 1 when it is 0).
    pub closed spec fn spec_capacity(self) -> int {
        self.capacity as int
    }

    /// Page `q`'s entry in `self` is exactly its entry in `other`.
    pub open spec fn same_entry_as(self, other: BufferPool, q: PageId) -> bool {
        &&& other.spec_contains(q)
        &&& self.page_of(q) == other.page_of(q)
        &&& self.read_point_of(q) == other.read_point_of(q)
    }

    /// The entry's index is the only place its page occurs.
    proof fn lemma_index_unique(self, p: PageId, j: int)
        requires
            self.wf(),
            0 <= j < self.keys@.len(),
            self.keys@[j] == p,
        ensures
            self.spec_contains(p),
            self.index_of(p) == j,
    {
        assert(self.spec_contains(p));
        let k = self.index_of(p);
        assert(0 <= k < self.keys@.len() && self.keys@[k] == p);
        if k < j {
            assert(self.keys@[k] != self.keys@[j]);
        } else if j < k {
            assert(self.keys@[j] != self.keys@[k]);
        }
    }

    pub fn new(capacity: usize) -> (r: Self)
        ensures
            r.wf(),
            r.spec_len() == 0,
            r.spec_capacity() == capacity,
            forall|p: PageId| !r.spec_contains(p),
    {
        BufferPool {
            keys: Vec::new(),
            pages: Vec::new(),
            read_points: Vec::new(),
            counts: Vec::new(),
            capacity,
        }
    }

    /// Find the position of a page's entry, if any.
    fn find(&self, page_id: PageId) -> (r: Option<usize>)
        requires
            self.wf(),
        ensures
            r matches Some(i) ==> i < self.keys@.len() && self.keys@[i as int] == page_id
                && self.index_of(page_id) == i && self.spec_contains(page_id),
            r is None ==> !self.spec_contains(page_id),
    {
        let n = self.keys.len();
        let mut i: usize = 0;
        while i < n
            invariant
                self.wf(),
                n == self.keys@.len(),
                0 <= i <= n,
                forall|j: int| 0 <= j < i ==> self.keys@[j] != page_id,
            decreases n - i,
        {
            if self.keys[i] == page_id {
                proof {
                    self.lemma_index_unique(page_id, i as int);
                }
                return Some(i);
            }
            i = i + 1;
        }
        None
    }

    /// Get a page from the buffer pool if it exists and its captured read
    /// point is at or beyond the requested LSN (older reads may be satisfied
    /// by newer captures).
    pub fn get(&mut self, page_id: PageId, min_lsn: Lsn) -> (r: Option<&Page>)
        requires
            old(self).wf(),
        ensures
            final(self).wf(),
            final(self).spec_len() == old(self).spec_len(),
            final(self).spec_capacity() == old(self).spec_capacity(),
            forall|q: PageId|
                #[trigger] final(self).spec_contains(q) <==> old(self).spec_contains(q),
            forall|q: PageId|
                final(self).spec_contains(q) ==> #[trigger] final(self).same_entry_as(
                    *old(self),
                    q,
                ),
            r matches Some(pg) ==> old(self).spec_contains(page_id) && old(self).read_point_of(
                page_id,
            ) >= min_lsn && pg@ == old(self).page_of(page_id),
            r is None ==> !old(self).spec_contains(page_id) || old(self).read_point_of(page_id)
                < min_lsn,
    {
        let found = self.find(page_id);
        match found {
            Some(i) => {
                if self.read_points[i] >= min_lsn {
                    let c = self.counts[i];
                    if c < u64::MAX {
                        self.counts[i] = c + 1;
                    }
                    proof {
                        assert(self.keys@ =~= old(self).keys@);
                        assert(self.pages@ =~= old(self).pages@);
                        assert(self.read_points@ =~= old(self).read_points@);
                        assert forall|q: PageId| self.spec_contains(q) implies #[trigger] self
                            .same_entry_as(*old(self), q) by {
                            let j = self.index_of(q);
                            assert(self.keys@[j] == q);
                            old(self).lemma_index_unique(q, j);
                        }
                    }
                    Some(&self.pages[i])
                } else {
                    None
                }
            },
            None => None,
        }
    }

    /// The position of the least-accessed entry.
    fn min_count_index(&self) -> (r: usize)
        requires
            self.wf(),
            self.keys@.len() > 0,
        ensures
            r < self.keys@.len(),
    {
        let n = self.counts.len();
        let mut best: usize = 0;
        let mut i: usize = 1;
        while i < n
            invariant
                n == self.counts@.len(),
                1 <= i <= n,
                best < n,
            decreases n - i,
        {
            if self.counts[i] < self.counts[best] {
                best = i;
            }
            i = i + 1;
        }
        best
    }

    /// Drop the entry at a position.
    fn remove_at(&mut self, i: usize)
        requires
            old(self).wf(),
            i < old(self).keys@.len(),
        ensures
            final(self).wf(),
            final(self).spec_len() == old(self).spec_len() - 1,
            final(self).spec_capacity() == old(self).spec_capacity(),
            !final(self).spec_contains(old(self).keys@[i as int]),
            forall|q: PageId|
                #[trigger] final(self).spec_contains(q) ==> final(self).same_entry_as(
                    *old(self),
                    q,
                ),
            forall|q: PageId|
                old(self).spec_contains(q) && q != old(self).keys@[i as int]
                    ==> #[trigger] final(self).spec_contains(q),
    {
        let ghost keys0 = self.keys@;
        let ghost pages0 = self.pages@;
        let ghost rps0 = self.read_points@;
        self.keys.swap_remove(i);
        self.pages.swap_remove(i);
        self.read_points.swap_remove(i);
        self.counts.swap_remove(i);
        proof {
            let n = keys0.len() as int;
            let removed = keys0[i as int];
            assert(forall|j: int|
                0 <= j < n - 1 ==> self.keys@[j] == (if j == i {
                    keys0[n - 1]
                } else {
                    keys0[j]
                }));
            assert(forall|j: int|
                0 <= j < n - 1 ==> self.pages@[j] == (if j == i {
                    pages0[n - 1]
                } else {
                    pages0[j]
                }));
            assert(forall|j: int|
                0 <= j < n - 1 ==> self.read_points@[j] == (if j == i {
                    rps0[n - 1]
                } else {
                    rps0[j]
                }));
            assert(self.wf());
            assert forall|j: int| 0 <= j < self.keys@.len() implies self.keys@[j] != removed by {}
            assert(!self.spec_contains(removed));
            assert forall|q: PageId|
                #[trigger] self.spec_contains(q) implies self.same_entry_as(*old(self), q) by {
                let j = self.index_of(q);
                assert(self.keys@[j] == q);
                let j0: int = if j == i {
                    n - 1
                } else {
                    j
                };
                assert(keys0[j0] == q);
                old(self).lemma_index_unique(q, j0);
            }
            assert forall|q: PageId|
                old(self).spec_contains(q) && q != removed implies #[trigger] self.spec_contains(
                q,
            ) by {
                let j0 = old(self).index_of(q);
                assert(keys0[j0] == q);
                if j0 == n - 1 {
                    if i < n - 1 {
                        assert(self.keys@[i as int] == q);
                    }
                } else {
                    assert(self.keys@[j0] == q);
                }
            }
        }
    }

    /// Insert or replace a page in the buffer pool.  At capacity, the least
    /// accessed entry makes room first.
    pub fn insert(&mut self, page_id: PageId, read_point: Lsn, page: Page)
        requires
            old(self).wf(),
        ensures
            final(self).wf(),
            final(self).spec_contains(page_id),
            final(self).page_of(page_id) == page@,
            final(self).read_point_of(page_id) == read_point,
            final(self).spec_capacity() == old(self).spec_capacity(),
            final(self).spec_len() == if old(self).spec_contains(page_id) {
                old(self).spec_len()
            } else if old(self).spec_len() >= old(self).spec_capacity() && old(self).spec_len()
                > 0 {
                old(self).spec_len()
            } else {
                old(self).spec_len() + 1
            },
            forall|q: PageId|
                q != page_id && #[trigger] final(self).spec_contains(q) ==> final(self)
                    .same_entry_as(*old(self), q),
    {
        let found = self.find(page_id);
        match found {
            Some(i) => {
                self.pages[i] = page;
                self.read_points[i] = read_point;
                self.counts[i] = 1;
                proof {
                    assert(self.keys@ =~= old(self).keys@);
                    assert(self.keys@[i as int] == page_id);
                    self.lemma_index_unique(page_id, i as int);
                    assert(self.page_of(page_id) == page@);
                    assert forall|q: PageId|
                        q != page_id && #[trigger] self.spec_contains(q) implies self.same_entry_as(
                        *old(self),
                        q,
                    ) by {
                        let j = self.index_of(q);
                        assert(self.keys@[j] == q);
                        assert(j != i);
                        old(self).lemma_index_unique(q, j);
                    }
                }
            },
            None => {
                if self.keys.len() >= self.capacity && self.keys.len() > 0 {
                    let evict = self.min_count_index();
                    self.remove_at(evict);
                }
                proof {
                    assert(!self.spec_contains(page_id));
                }
                let ghost mid = *self;
                self.keys.push(page_id);
                self.pages.push(page);
                self.read_points.push(read_point);
                self.counts.push(1);
                proof {
                    let n = self.keys@.len() as int;
                    assert(forall|j: int| 0 <= j < n - 1 ==> self.keys@[j] == mid.keys@[j]);
                    assert(forall|j: int| 0 <= j < n - 1 ==> self.pages@[j] == mid.pages@[j]);
                    assert(forall|j: int|
                        0 <= j < n - 1 ==> self.read_points@[j] == mid.read_points@[j]);
                    assert(self.keys@[n - 1] == page_id);
                    assert(forall|j: int| 0 <= j < n - 1 ==> mid.keys@[j] != page_id);
                    assert(self.wf());
                    self.lemma_index_unique(page_id, n - 1);
                    assert(self.page_of(page_id) == page@);
                    assert forall|q: PageId|
                        q != page_id && #[trigger] self.spec_contains(q) implies self.same_entry_as(
                        *old(self),
                        q,
                    ) by {
                        let j = self.index_of(q);
                        assert(self.keys@[j] == q);
                        assert(j != n - 1);
                        assert(mid.keys@[j] == q);
                        mid.lemma_index_unique(q, j);
                        assert(self.page_of(q) == mid.page_of(q));
                        assert(self.read_point_of(q) == mid.read_point_of(q));
                    }
                }
            },
        }
    }

    /// Invalidate a page (e.g., after writing to it).
    pub fn invalidate(&mut self, page_id: PageId)
        requires
            old(self).wf(),
        ensures
            final(self).wf(),
            !final(self).spec_contains(page_id),
            final(self).spec_capacity() == old(self).spec_capacity(),
            final(self).spec_len() == old(self).spec_len() - if old(self).spec_contains(page_id) {
                1int
            } else {
                0int
            },
            forall|q: PageId|
                #[trigger] final(self).spec_contains(q) ==> final(self).same_entry_as(
                    *old(self),
                    q,
                ),
    {
        let found = self.find(page_id);
        match found {
            Some(i) => {
                self.remove_at(i);
            },
            None => {},
        }
    }

    /// How many pages the pool holds.
    pub fn len(&self) -> (r: usize)
        ensures
            r == self.spec_len(),
    {
        self.keys.len()
    }

    /// Whether the pool is empty.
    pub fn is_empty(&self) -> (r: bool)
        ensures
            r == (self.spec_len() == 0),
    {
        self.keys.len() == 0
    }
}

} // verus!
