//! Aggregate counters over engine activity, for hosts that want to display
//! them.  Rendering, clocks and rates are the host's concern.

use vstd::prelude::*;

use crate::common::Lsn;

verus! {

/// Collects aggregate metrics from engine activity.
pub struct MetricsCollector {
    write_count: u64,
    read_count: u64,
    page_cache_hits: u64,
    page_cache_misses: u64,
    buffer_pool_hits: u64,
    buffer_pool_misses: u64,
    materialize_count: u64,
    wal_bytes_written: u64,
    vcl: Lsn,
    vdl: Lsn,
}

/// Snapshot of collected metrics.
pub struct MetricsSummary {
    pub write_count: u64,
    pub read_count: u64,
    pub page_cache_hits: u64,
    pub page_cache_misses: u64,
    pub buffer_pool_hits: u64,
    pub buffer_pool_misses: u64,
    pub materialize_count: u64,
    pub wal_bytes_written: u64,
    pub vcl: Lsn,
    pub vdl: Lsn,
}

impl MetricsCollector {
    /// Everything the collector has counted so far.
    pub closed spec fn totals(self) -> (int, int, int) {
        (self.write_count as int, self.read_count as int, self.wal_bytes_written as int)
    }

    pub fn new() -> (r: Self)
        ensures
            r.totals() == (0int, 0int, 0int),
    {
        MetricsCollector {
            write_count: 0,
            read_count: 0,
            page_cache_hits: 0,
            page_cache_misses: 0,
            buffer_pool_hits: 0,
            buffer_pool_misses: 0,
            materialize_count: 0,
            wal_bytes_written: 0,
            vcl: 0,
            vdl: 0,
        }
    }

    /// Count one durable write of the given size; counters saturate rather
    /// than wrap.
    pub fn record_wal_append(&mut self, bytes: u64)
        ensures
            final(self).totals().0 == if old(self).totals().0 < u64::MAX {
                old(self).totals().0 + 1
            } else {
                old(self).totals().0
            },
    {
        if self.write_count < u64::MAX {
            self.write_count = self.write_count + 1;
        }
        if bytes <= u64::MAX - self.wal_bytes_written {
            self.wal_bytes_written = self.wal_bytes_written + bytes;
        } else {
            self.wal_bytes_written = u64::MAX;
        }
    }

    /// Count one page-cache probe.
    pub fn record_page_cache_lookup(&mut self, hit: bool) {
        if hit {
            if self.page_cache_hits < u64::MAX {
                self.page_cache_hits = self.page_cache_hits + 1;
            }
        } else {
            if self.page_cache_misses < u64::MAX {
                self.page_cache_misses = self.page_cache_misses + 1;
            }
        }
    }

    /// Count one buffer-pool probe; a miss is a storage read.
    pub fn record_buffer_pool_lookup(&mut self, hit: bool) {
        if hit {
            if self.buffer_pool_hits < u64::MAX {
                self.buffer_pool_hits = self.buffer_pool_hits + 1;
            }
        } else {
            if self.buffer_pool_misses < u64::MAX {
                self.buffer_pool_misses = self.buffer_pool_misses + 1;
            }
            if self.read_count < u64::MAX {
                self.read_count = self.read_count + 1;
            }
        }
    }

    /// Count one page materialization.
    pub fn record_materialize(&mut self) {
        if self.materialize_count < u64::MAX {
            self.materialize_count = self.materialize_count + 1;
        }
    }

    /// Note the watermarks most recently observed.
    pub fn record_watermarks(&mut self, vcl: Lsn, vdl: Lsn) {
        self.vcl = vcl;
        self.vdl = vdl;
    }

    /// Return an aggregate summary.
    pub fn summary(&self) -> (r: MetricsSummary)
        ensures
            r.write_count as int == self.totals().0,
            r.read_count as int == self.totals().1,
            r.wal_bytes_written as int == self.totals().2,
    {
        MetricsSummary {
            write_count: self.write_count,
            read_count: self.read_count,
            page_cache_hits: self.page_cache_hits,
            page_cache_misses: self.page_cache_misses,
            buffer_pool_hits: self.buffer_pool_hits,
            buffer_pool_misses: self.buffer_pool_misses,
            materialize_count: self.materialize_count,
            wal_bytes_written: self.wal_bytes_written,
            vcl: self.vcl,
            vdl: self.vdl,
        }
    }

    /// Reset all counters.
    pub fn reset(&mut self)
        ensures
            final(self).totals() == (0int, 0int, 0int),
    {
        let fresh = MetricsCollector::new();
        *self = fresh;
    }
}

} // verus!
