//! Cache counters.

use vstd::prelude::*;

verus! {

/// Process-wide cache counters. Each wraps around at the limit of a `u64`.
#[derive(Clone, Copy, Debug)]
pub struct Metrics {
    /// Block reads served from the memory tier.
    pub hits: u64,
    /// Block reads that had to go upstream.
    pub misses: u64,
    /// Upstream fetch calls issued (a coalesced run counts once).
    pub fetches: u64,
    /// Bytes returned by upstream fetches.
    pub bytes_fetched: u64,
    /// Blocks evicted from the memory tier.
    pub evictions: u64,
    /// Files invalidated because their version changed.
    pub invalidations: u64,
    /// Block reads served from the SSD tier.
    pub ssd_hits: u64,
    /// Blocks written to the SSD tier.
    pub ssd_writes: u64,
    /// SSD reads that failed checksum verification.
    pub ssd_corruptions: u64,
    /// SSD regions reclaimed wholesale.
    pub ssd_region_evictions: u64,
    /// Bytes fetched upstream by the prefetcher.
    pub prefetch_bytes_fetched: u64,
    /// Upstream fetch calls issued by the prefetcher.
    pub prefetch_fetch_requests: u64,
    /// Prefetched blocks consumed by a demand read.
    pub prefetch_blocks_consumed: u64,
    /// Prefetched blocks evicted before any demand read hit them.
    pub prefetch_blocks_wasted: u64,
    /// Prefetch fetch units that failed.
    pub prefetch_errors: u64,
    /// Files whose data prefetch was skipped.
    pub prefetch_files_skipped: u64,
}

/// A point-in-time copy of [`Metrics`].
#[derive(Clone, Copy, Debug)]
pub struct MetricsSnapshot {
    pub hits: u64,
    pub misses: u64,
    pub fetches: u64,
    pub bytes_fetched: u64,
    pub evictions: u64,
    pub invalidations: u64,
    pub ssd_hits: u64,
    pub ssd_writes: u64,
    pub ssd_corruptions: u64,
    pub ssd_region_evictions: u64,
    pub prefetch_bytes_fetched: u64,
    pub prefetch_fetch_requests: u64,
    pub prefetch_blocks_consumed: u64,
    pub prefetch_blocks_wasted: u64,
    pub prefetch_errors: u64,
    pub prefetch_files_skipped: u64,
}

impl Default for Metrics {
    fn default() -> (m: Metrics)
        ensures
            m == Metrics::zero(),
    {
        Metrics {
            hits: 0,
            misses: 0,
            fetches: 0,
            bytes_fetched: 0,
            evictions: 0,
            invalidations: 0,
            ssd_hits: 0,
            ssd_writes: 0,
            ssd_corruptions: 0,
            ssd_region_evictions: 0,
            prefetch_bytes_fetched: 0,
            prefetch_fetch_requests: 0,
            prefetch_blocks_consumed: 0,
            prefetch_blocks_wasted: 0,
            prefetch_errors: 0,
            prefetch_files_skipped: 0,
        }
    }
}

impl Metrics {
    /// All counters at zero.
    pub open spec fn zero() -> Metrics {
        Metrics {
            hits: 0,
            misses: 0,
            fetches: 0,
            bytes_fetched: 0,
            evictions: 0,
            invalidations: 0,
            ssd_hits: 0,
            ssd_writes: 0,
            ssd_corruptions: 0,
            ssd_region_evictions: 0,
            prefetch_bytes_fetched: 0,
            prefetch_fetch_requests: 0,
            prefetch_blocks_consumed: 0,
            prefetch_blocks_wasted: 0,
            prefetch_errors: 0,
            prefetch_files_skipped: 0,
        }
    }

    /// The counters as a snapshot.
    pub open spec fn as_snapshot(self) -> MetricsSnapshot {
        MetricsSnapshot {
            hits: self.hits,
            misses: self.misses,
            fetches: self.fetches,
            bytes_fetched: self.bytes_fetched,
            evictions: self.evictions,
            invalidations: self.invalidations,
            ssd_hits: self.ssd_hits,
            ssd_writes: self.ssd_writes,
            ssd_corruptions: self.ssd_corruptions,
            ssd_region_evictions: self.ssd_region_evictions,
            prefetch_bytes_fetched: self.prefetch_bytes_fetched,
            prefetch_fetch_requests: self.prefetch_fetch_requests,
            prefetch_blocks_consumed: self.prefetch_blocks_consumed,
            prefetch_blocks_wasted: self.prefetch_blocks_wasted,
            prefetch_errors: self.prefetch_errors,
            prefetch_files_skipped: self.prefetch_files_skipped,
        }
    }

    /// Counts a block read served from the memory tier.
    pub fn record_hit(&mut self)
        ensures
            *final(self) == (Metrics { hits: old(self).hits.wrapping_add(1), ..*old(self) }),
    {
        self.hits = self.hits.wrapping_add(1);
    }

    /// Counts a block read that has to go upstream.
    pub fn record_miss(&mut self)
        ensures
            *final(self) == (Metrics { misses: old(self).misses.wrapping_add(1), ..*old(self) }),
    {
        self.misses = self.misses.wrapping_add(1);
    }

    /// Counts one upstream fetch that returned `bytes`.
    pub fn record_fetch(&mut self, bytes: u64)
        ensures
            *final(self) == (Metrics {
                fetches: old(self).fetches.wrapping_add(1),
                bytes_fetched: old(self).bytes_fetched.wrapping_add(bytes),
                ..*old(self)
            }),
    {
        self.fetches = self.fetches.wrapping_add(1);
        self.bytes_fetched = self.bytes_fetched.wrapping_add(bytes);
    }

    /// Counts a block evicted from the memory tier.
    pub fn record_eviction(&mut self)
        ensures
            *final(self) == (Metrics {
                evictions: old(self).evictions.wrapping_add(1),
                ..*old(self)
            }),
    {
        self.evictions = self.evictions.wrapping_add(1);
    }

    /// Counts a file whose version changed.
    pub fn record_invalidation(&mut self)
        ensures
            *final(self) == (Metrics {
                invalidations: old(self).invalidations.wrapping_add(1),
                ..*old(self)
            }),
    {
        self.invalidations = self.invalidations.wrapping_add(1);
    }

    /// Counts a block read served from the SSD tier.
    pub fn record_ssd_hit(&mut self)
        ensures
            *final(self) == (Metrics {
                ssd_hits: old(self).ssd_hits.wrapping_add(1),
                ..*old(self)
            }),
    {
        self.ssd_hits = self.ssd_hits.wrapping_add(1);
    }

    /// Counts a block written to the SSD tier.
    pub fn record_ssd_write(&mut self)
        ensures
            *final(self) == (Metrics {
                ssd_writes: old(self).ssd_writes.wrapping_add(1),
                ..*old(self)
            }),
    {
        self.ssd_writes = self.ssd_writes.wrapping_add(1);
    }

    /// Counts an SSD read that failed verification.
    pub fn record_ssd_corruption(&mut self)
        ensures
            *final(self) == (Metrics {
                ssd_corruptions: old(self).ssd_corruptions.wrapping_add(1),
                ..*old(self)
            }),
    {
        self.ssd_corruptions = self.ssd_corruptions.wrapping_add(1);
    }

    /// Counts an SSD region reclaimed.
    pub fn record_ssd_region_eviction(&mut self)
        ensures
            *final(self) == (Metrics {
                ssd_region_evictions: old(self).ssd_region_evictions.wrapping_add(1),
                ..*old(self)
            }),
    {
        self.ssd_region_evictions = self.ssd_region_evictions.wrapping_add(1);
    }

    /// Counts one prefetch fetch that returned `bytes`.
    pub fn record_prefetch_fetch(&mut self, bytes: u64)
        ensures
            *final(self) == (Metrics {
                prefetch_fetch_requests: old(self).prefetch_fetch_requests.wrapping_add(1),
                prefetch_bytes_fetched: old(self).prefetch_bytes_fetched.wrapping_add(bytes),
                ..*old(self)
            }),
    {
        self.prefetch_fetch_requests = self.prefetch_fetch_requests.wrapping_add(1);
        self.prefetch_bytes_fetched = self.prefetch_bytes_fetched.wrapping_add(bytes);
    }

    /// Counts a prefetched block that a demand read consumed.
    pub fn record_prefetch_consumed(&mut self)
        ensures
            *final(self) == (Metrics {
                prefetch_blocks_consumed: old(self).prefetch_blocks_consumed.wrapping_add(1),
                ..*old(self)
            }),
    {
        self.prefetch_blocks_consumed = self.prefetch_blocks_consumed.wrapping_add(1);
    }

    /// Counts a prefetched block evicted unconsumed.
    pub fn record_prefetch_wasted(&mut self)
        ensures
            *final(self) == (Metrics {
                prefetch_blocks_wasted: old(self).prefetch_blocks_wasted.wrapping_add(1),
                ..*old(self)
            }),
    {
        self.prefetch_blocks_wasted = self.prefetch_blocks_wasted.wrapping_add(1);
    }

    /// Counts a failed prefetch fetch.
    pub fn record_prefetch_error(&mut self)
        ensures
            *final(self) == (Metrics {
                prefetch_errors: old(self).prefetch_errors.wrapping_add(1),
                ..*old(self)
            }),
    {
        self.prefetch_errors = self.prefetch_errors.wrapping_add(1);
    }

    /// Counts a file whose data prefetch was skipped.
    pub fn record_prefetch_file_skipped(&mut self)
        ensures
            *final(self) == (Metrics {
                prefetch_files_skipped: old(self).prefetch_files_skipped.wrapping_add(1),
                ..*old(self)
            }),
    {
        self.prefetch_files_skipped = self.prefetch_files_skipped.wrapping_add(1);
    }

    /// The counters as they stand.
    pub fn snapshot(&self) -> (s: MetricsSnapshot)
        ensures
            s == self.as_snapshot(),
    {
        MetricsSnapshot {
            hits: self.hits,
            misses: self.misses,
            fetches: self.fetches,
            bytes_fetched: self.bytes_fetched,
            evictions: self.evictions,
            invalidations: self.invalidations,
            ssd_hits: self.ssd_hits,
            ssd_writes: self.ssd_writes,
            ssd_corruptions: self.ssd_corruptions,
            ssd_region_evictions: self.ssd_region_evictions,
            prefetch_bytes_fetched: self.prefetch_bytes_fetched,
            prefetch_fetch_requests: self.prefetch_fetch_requests,
            prefetch_blocks_consumed: self.prefetch_blocks_consumed,
            prefetch_blocks_wasted: self.prefetch_blocks_wasted,
            prefetch_errors: self.prefetch_errors,
            prefetch_files_skipped: self.prefetch_files_skipped,
        }
    }
}

/// A snapshot has every counter as it stands, and counting starts at zero.
pub proof fn a_snapshot_has_every_counter(m: Metrics, s: MetricsSnapshot)
    requires
        s == m.as_snapshot(),
    ensures
        s.hits == m.hits && s.misses == m.misses && s.fetches == m.fetches,
        s.bytes_fetched == m.bytes_fetched && s.evictions == m.evictions,
        s.invalidations == m.invalidations && s.ssd_hits == m.ssd_hits,
        s.ssd_writes == m.ssd_writes && s.ssd_corruptions == m.ssd_corruptions,
        s.ssd_region_evictions == m.ssd_region_evictions,
        s.prefetch_bytes_fetched == m.prefetch_bytes_fetched,
        s.prefetch_fetch_requests == m.prefetch_fetch_requests,
        s.prefetch_blocks_consumed == m.prefetch_blocks_consumed,
        s.prefetch_blocks_wasted == m.prefetch_blocks_wasted,
        s.prefetch_errors == m.prefetch_errors,
        s.prefetch_files_skipped == m.prefetch_files_skipped,
        m == Metrics::zero() ==> m.hits == 0 && m.misses == 0 && m.fetches == 0
            && m.bytes_fetched == 0 && m.evictions == 0 && m.invalidations == 0 && m.ssd_hits == 0
            && m.ssd_writes == 0 && m.ssd_corruptions == 0 && m.ssd_region_evictions == 0
            && m.prefetch_bytes_fetched == 0 && m.prefetch_fetch_requests == 0
            && m.prefetch_blocks_consumed == 0 && m.prefetch_blocks_wasted == 0
            && m.prefetch_errors == 0 && m.prefetch_files_skipped == 0,
{
}

} // verus!
