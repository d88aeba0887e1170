//! Reads and read-ahead through the block cache, driven step by step.

use std::ops::Range;

use bytes::Bytes;
use comet_delta::cache::block_cache::{shard_index, BlockCache, Effects};
use comet_delta::cache::blocks::{assemble_range, coalesce_runs, concat_bytes, cut_block, needed_blocks};
use comet_delta::cache::config::BlockCacheConfig;
use comet_delta::cache::error::CacheError;
use comet_delta::cache::fill::{assemble_ranges, run_range, Fill, FillStep};
use comet_delta::cache::ledger::{PrefetchIntent, PrefetchLedger, PrefetchStats, ReleaseOutcome};
use comet_delta::cache::metrics::Metrics;
use comet_delta::cache::range_read::{RangeRead, ReadStage};
use comet_delta::cache::read_ahead::{run_charge, ReadAhead};
use comet_delta::cache::sieve::{Block, Shard};
use comet_delta::cache::ssd::{block_checksum, SsdEntry, SsdShard};
use comet_delta::cache::version::{FileKey, FileVersion};

const MIB: u64 = 1 << 20;

fn byte_at(off: u64) -> u8 {
    (off % 251) as u8
}

fn version(size: u64) -> FileVersion {
    FileVersion { size, e_tag: None, last_modified: None }
}

/// A store whose byte `i` is `i % 251`. Counts fetches; the first ones may fail.
struct SeqFetcher {
    size: u64,
    fetches: u64,
    failures: u64,
    e_tag: Option<String>,
}

impl SeqFetcher {
    fn new(size: u64) -> Self {
        SeqFetcher { size, fetches: 0, failures: 0, e_tag: None }
    }

    fn fetch(&mut self, r: Range<u64>) -> Result<(Vec<Bytes>, FileVersion), CacheError> {
        self.fetches += 1;
        if self.failures > 0 {
            self.failures -= 1;
            return Err(CacheError::Fetch("first attempt fails".to_string()));
        }
        let end = r.end.min(self.size);
        let v: Vec<u8> = (r.start.min(end)..end).map(byte_at).collect();
        let mut found = version(self.size);
        found.e_tag = self.e_tag.clone();
        Ok((vec![Bytes::from(v)], found))
    }
}

/// A cache with its ledgers, and the blocks handed to the SSD tier.
struct Driver {
    cache: BlockCache,
    ledgers: Vec<PrefetchLedger>,
    admitted: Vec<(u64, u32)>,
}

impl Driver {
    fn new(block_size: u64, budget: u64, shards: usize, ssd: bool) -> Self {
        let cache = BlockCache::new(
            BlockCacheConfig {
                block_size,
                memory_budget: budget,
                num_shards: shards,
                ..Default::default()
            },
            ssd,
        );
        Driver { cache, ledgers: vec![], admitted: vec![] }
    }

    fn ledger(&mut self, budget: u64) -> u64 {
        self.ledgers.push(PrefetchLedger::new(budget));
        self.ledgers.len() as u64 - 1
    }

    fn perform(&mut self, effects: Effects) {
        for r in effects.releases {
            self.ledgers[r.ledger as usize].release(r.bytes, r.outcome);
        }
        for (key, _) in effects.admits {
            self.admitted.push(key);
        }
    }

    fn get_ranges(
        &mut self,
        file: &FileKey,
        ranges: &[Range<u64>],
        fetcher: &mut SeqFetcher,
    ) -> Result<Vec<Bytes>, CacheError> {
        let (mut read, effects) = RangeRead::begin(&mut self.cache, file, ranges);
        self.perform(effects);
        read.start_filling(&mut self.cache);
        while read.stage() == ReadStage::Due {
            let claims = read.claim(&mut self.cache);
            self.perform(claims.effects);
            while let Some(range) = read.next_range() {
                match fetcher.fetch(range) {
                    Ok((pieces, v)) => {
                        let effects = read.take_fetched(&mut self.cache, pieces, &v);
                        self.perform(effects);
                    }
                    Err(e) => read.take_failure(&mut self.cache, e),
                }
            }
            // Nobody delivers what another reader had claimed.
            while read.next_awaited().is_some() {
                let dropped = CacheError::internal("fetch owner dropped");
                let effects = read.take_delivery(&mut self.cache, Err(dropped));
                self.perform(effects);
            }
            read.end_pass();
        }
        if read.stage() == ReadStage::Last {
            let effects = read.look_again(&mut self.cache);
            self.perform(effects);
        }
        read.finish(ranges)
    }

    fn prefetch_ranges(
        &mut self,
        file: &FileKey,
        ranges: &[Range<u64>],
        fetcher: &mut SeqFetcher,
        ledger: u64,
    ) -> PrefetchStats {
        let block_size = self.cache.block_size();
        let max = self.cache.max_coalesce_blocks();
        let ahead = self.cache.begin_read_ahead(file, ranges);
        let mut stats = ahead.stats;
        for run in coalesce_runs(&ahead.missing, max) {
            assert!(self.ledgers[ledger as usize].try_reserve(run_charge(&run, block_size)));
            let claim = self.cache.claim_run(ahead.file_id, &run);
            self.ledgers[ledger as usize].refund(claim.refund);
            stats.absorb(&claim.stats);
            for seg in coalesce_runs(&claim.owned, max) {
                match fetcher.fetch(run_range(&seg, block_size)) {
                    Ok((pieces, v)) => {
                        let effects = self.cache.complete_segment(
                            ahead.file_id,
                            &seg,
                            pieces,
                            &v,
                            PrefetchIntent::Prefetch,
                            ledger,
                            &mut stats,
                        );
                        self.perform(effects);
                    }
                    Err(_) => {
                        let r =
                            self.cache.fail_segment(ahead.file_id, &seg, ledger, &mut stats);
                        self.ledgers[r.ledger as usize].release(r.bytes, r.outcome);
                    }
                }
            }
        }
        stats
    }
}

fn check_bytes(got: &Bytes, r: Range<u64>) {
    assert_eq!(got.len() as u64, r.end - r.start);
    for (i, b) in got.iter().enumerate() {
        assert_eq!(*b, byte_at(r.start + i as u64));
    }
}

#[test]
fn prefetch_then_demand_consumes_and_stays_single_pass() {
    let mut d = Driver::new(MIB, 64 * MIB, 4, true);
    let file = FileKey::new(1, "a.parquet");
    let mut fetcher = SeqFetcher::new(4 * MIB);
    let ledger = d.ledger(32 * MIB);

    let stats = d.prefetch_ranges(&file, &[0..2 * MIB], &mut fetcher, ledger);
    assert_eq!(stats.blocks_fetched, 2);
    assert_eq!(d.ledgers[0].outstanding(), 2 * MIB, "unconsumed prefetched bytes held");
    assert_eq!(fetcher.fetches, 1, "two adjacent blocks coalesce to one GET");

    let out = d.get_ranges(&file, &[0..2 * MIB], &mut fetcher).unwrap();
    assert_eq!(fetcher.fetches, 1, "demand read is all hits");
    check_bytes(&out[0], 0..2 * MIB);

    assert_eq!(d.ledgers[0].outstanding(), 0, "consumption returns all credit");
    assert_eq!(d.ledgers[0].consumed_bytes(), 2 * MIB);
    let s = d.cache.stats();
    assert_eq!(s.prefetch_blocks_consumed, 2);
    assert_eq!(s.prefetch_blocks_wasted, 0);

    let effects = d.cache.set_memory_budget(0);
    d.perform(effects);
    assert!(d.admitted.is_empty(), "prefetch + single scan must not be SSD-admitted");
}

#[test]
fn blocks_read_again_are_handed_to_the_ssd_tier() {
    let mut d = Driver::new(MIB, 64 * MIB, 1, true);
    let file = FileKey::new(1, "a.parquet");
    let mut fetcher = SeqFetcher::new(4 * MIB);
    for _ in 0..2 {
        d.get_ranges(&file, &[0..MIB], &mut fetcher).unwrap();
    }
    d.get_ranges(&file, &[MIB..2 * MIB], &mut fetcher).unwrap();
    let effects = d.cache.set_memory_budget(0);
    d.perform(effects);
    let id = d.cache.intern(&file);
    assert_eq!(d.admitted, vec![(id, 0)], "only the block read twice");
    assert_eq!(d.cache.memory_budget(), 0);
}

#[test]
fn blocks_come_back_from_the_ssd_tier_as_they_left() {
    let mut d = Driver::new(MIB, 64 * MIB, 4, true);
    let file = FileKey::new(1, "a.parquet");
    let mut fetcher = SeqFetcher::new(2 * MIB + 100);
    for _ in 0..2 {
        d.get_ranges(&file, &[0..2 * MIB + 100], &mut fetcher).unwrap();
    }
    let id = d.cache.intern(&file);
    let effects = d.cache.set_memory_budget(0);
    assert_eq!(effects.admits.len(), 3);
    let mut ssd = SsdShard::new(2 * MIB, 2);
    let mut disk = vec![0u8; 4 * MIB as usize];
    let mut metrics = Metrics::default();
    for (key, data) in effects.admits {
        ssd.admit_block(key, data);
    }
    for (key, data) in ssd.take_batch().unwrap() {
        let scores = ssd.scores();
        let (region, offset) = ssd.reserve(key, data.len() as u64, &scores, &mut metrics);
        let at = ssd.file_offset(region, offset) as usize;
        disk[at..at + data.len()].copy_from_slice(&data);
        let crc = block_checksum(&data);
        let entry = SsdEntry { region, offset, len: data.len() as u32, crc };
        ssd.record_written(key, entry, &mut metrics);
    }
    for (b, r) in [(0u32, 0..MIB), (1, MIB..2 * MIB), (2, 2 * MIB..2 * MIB + 100)] {
        assert!(!d.cache.contains((id, b)));
        let e = ssd.lookup((id, b)).unwrap();
        let at = ssd.file_offset(e.region, e.offset) as usize;
        let got = Bytes::copy_from_slice(&disk[at..at + e.len as usize]);
        assert!(ssd.verify_read((id, b), e, &got, 1, &mut metrics));
        check_bytes(&got, r);
    }
}

#[test]
fn unconsumed_prefetch_evicted_counts_waste() {
    let mut d = Driver::new(MIB, 2 * (MIB + 64), 1, false);
    let file = FileKey::new(1, "a.parquet");
    let mut fetcher = SeqFetcher::new(8 * MIB);
    let ledger = d.ledger(64 * MIB);

    let stats = d.prefetch_ranges(&file, &[0..4 * MIB], &mut fetcher, ledger);
    assert_eq!(stats.blocks_fetched, 4);

    let s = d.cache.stats();
    assert_eq!(s.prefetch_blocks_wasted, 2, "two blocks evicted before any hit");
    assert_eq!(d.ledgers[0].wasted_bytes(), 2 * MIB);
    assert_eq!(
        d.ledgers[0].outstanding(),
        2 * MIB,
        "credit for the two still-resident unconsumed blocks stays held"
    );
}

#[test]
fn prefetch_probe_is_noop_when_already_cached() {
    let mut d = Driver::new(MIB, 64 * MIB, 4, false);
    let file = FileKey::new(1, "a.parquet");
    let mut fetcher = SeqFetcher::new(4 * MIB);
    d.get_ranges(&file, &[0..2 * MIB], &mut fetcher).unwrap();
    let after_demand = fetcher.fetches;

    let ledger = d.ledger(32 * MIB);
    let stats = d.prefetch_ranges(&file, &[0..2 * MIB], &mut fetcher, ledger);
    assert_eq!(stats.blocks_already_cached, 2);
    assert_eq!(stats.blocks_fetched, 0);
    assert_eq!(fetcher.fetches, after_demand, "no upstream fetch");
    assert_eq!(d.ledgers[0].outstanding(), 0, "nothing charged for a pure probe");
}

#[test]
fn waiter_retries_once_on_owner_error() {
    let mut d = Driver::new(MIB, 64 * MIB, 4, false);
    let file = FileKey::new(1, "a.parquet");
    let mut fetcher = SeqFetcher::new(MIB);
    // Another reader owns the block and fails it later: it is still in flight here.
    let id = d.cache.intern(&file);
    let mut other = std::collections::HashMap::new();
    let claims = d.cache.claim_pass(id, &vec![0], false, &mut other);
    assert_eq!(claims.owned, vec![0]);
    assert_eq!(d.cache.in_flight_len(), 1);

    // This reader waits first, is failed, and then fetches the block itself.
    let out = d.get_ranges(&file, &[0..MIB], &mut fetcher).unwrap();
    check_bytes(&out[0], 0..MIB);
    assert_eq!(fetcher.fetches, 1);
    assert_eq!(d.cache.in_flight_len(), 0);
}

#[test]
fn owner_error_is_not_retried() {
    let mut d = Driver::new(MIB, 64 * MIB, 4, false);
    let file = FileKey::new(1, "a.parquet");
    let mut fetcher = SeqFetcher::new(MIB);
    fetcher.failures = 1;
    match d.get_ranges(&file, &[0..MIB], &mut fetcher) {
        Err(CacheError::Fetch(m)) => assert_eq!(m, "first attempt fails"),
        other => panic!("expected the fetch error, got {other:?}"),
    }
    assert_eq!(fetcher.fetches, 1);
    assert_eq!(d.cache.stats().fetches, 1, "a failed fetch is a fetch");
    assert_eq!(d.cache.stats().bytes_fetched, 0);
    assert_eq!(d.cache.in_flight_len(), 0, "a failed fetch leaves nothing in flight");
    check_bytes(&d.get_ranges(&file, &[0..MIB], &mut fetcher).unwrap()[0], 0..MIB);
}

#[test]
fn cancelled_prefetch_does_not_leak_in_flight_entries() {
    let mut d = Driver::new(MIB, 64 * MIB, 4, false);
    let file = FileKey::new(1, "a.parquet");
    let ahead = d.cache.begin_read_ahead(&file, &[0..MIB]);
    let claim = d.cache.claim_run(ahead.file_id, &ahead.missing);
    assert_eq!(d.cache.in_flight_len(), 1, "prefetch claimed the block");
    d.cache.end_flights(ahead.file_id, &claim.owned);
    assert_eq!(d.cache.in_flight_len(), 0, "cancelled prefetch must not leak in-flight entries");
}

#[test]
fn failed_read_ahead_gives_its_credit_back() {
    let mut d = Driver::new(MIB, 64 * MIB, 4, false);
    let file = FileKey::new(1, "a.parquet");
    let mut fetcher = SeqFetcher::new(4 * MIB);
    fetcher.failures = 1;
    let ledger = d.ledger(32 * MIB);
    let stats = d.prefetch_ranges(&file, &[0..2 * MIB], &mut fetcher, ledger);
    assert_eq!((stats.errors, stats.blocks_fetched), (1, 0));
    assert_eq!((stats.fetch_requests, stats.bytes_fetched), (1, 0));
    assert_eq!(d.cache.stats().prefetch_fetch_requests, 1, "a failed fetch is a fetch");
    assert_eq!(d.cache.stats().prefetch_bytes_fetched, 0);
    assert_eq!(d.ledgers[0].outstanding(), 0);
    assert_eq!(d.ledgers[0].wasted_bytes(), 2 * MIB);
    assert_eq!(d.cache.stats().prefetch_errors, 1);
    assert_eq!(d.cache.in_flight_len(), 0);
}

#[test]
fn read_ahead_leaves_blocks_in_flight_to_their_readers() {
    let mut d = Driver::new(MIB, 64 * MIB, 4, false);
    let file = FileKey::new(1, "a.parquet");
    let mut fetcher = SeqFetcher::new(4 * MIB);
    let id = d.cache.intern(&file);
    let mut other = std::collections::HashMap::new();
    d.cache.claim_pass(id, &vec![1], false, &mut other);
    let ledger = d.ledger(32 * MIB);
    let stats = d.prefetch_ranges(&file, &[0..3 * MIB], &mut fetcher, ledger);
    assert_eq!(stats.blocks_in_flight, 1);
    assert_eq!(stats.blocks_fetched, 2);
    assert_eq!(stats.fetch_requests, 2, "the gap splits the run");
    assert_eq!(d.ledgers[0].outstanding(), 2 * MIB);
    assert!(d.cache.is_in_flight((id, 1)));
}

#[test]
fn every_read_gives_the_files_bytes() {
    let block = MIB;
    let size = 5 * block + 17;
    // Budgets from nothing to plenty: what is cached never changes what is read.
    for budget in [0, 3 * (block + 64), 64 * block] {
        let mut d = Driver::new(block, budget, 2, false);
        let file = FileKey::new(1, "a.parquet");
        let mut fetcher = SeqFetcher::new(size);
        let ranges = [
            0..10,
            block - 1..block + 1,
            5..5,
            2 * block..4 * block + 3,
            size - 5..size,
            0..size,
        ];
        for _ in 0..2 {
            let out = d.get_ranges(&file, &ranges, &mut fetcher).unwrap();
            for (b, r) in out.iter().zip(ranges.iter()) {
                check_bytes(b, r.clone());
            }
        }
    }
}

#[test]
fn reads_past_the_end_are_cut_short() {
    let mut d = Driver::new(MIB, 16 * MIB, 2, false);
    let file = FileKey::new(1, "a.parquet");
    let mut fetcher = SeqFetcher::new(100);
    let out = d.get_ranges(&file, &[90..200], &mut fetcher).unwrap();
    check_bytes(&out[0], 90..100);
}

#[test]
fn a_changed_file_is_read_anew() {
    let mut d = Driver::new(MIB, 16 * MIB, 2, false);
    let file = FileKey::new(1, "a.parquet");
    let mut fetcher = SeqFetcher::new(4 * MIB);
    d.get_ranges(&file, &[0..10], &mut fetcher).unwrap();
    let id = d.cache.intern(&file);
    assert!(d.cache.contains((id, 0)));
    assert_eq!(d.cache.file_version(&file).unwrap().size, 4 * MIB);

    fetcher.e_tag = Some("new".to_string());
    d.get_ranges(&file, &[3 * MIB..3 * MIB + 10], &mut fetcher).unwrap();
    assert!(!d.cache.contains((id, 0)), "a block of the old version must not be served");
    assert_eq!(d.cache.stats().invalidations, 1);
    assert_eq!(d.cache.file_version(&file).unwrap().e_tag.as_deref(), Some("new"));

    assert_eq!(d.cache.invalidate_file(&file), Some(id));
    assert!(!d.cache.contains((id, 3)));
    assert!(d.cache.file_version(&file).is_none());
    assert_eq!(d.cache.invalidate_file(&FileKey::new(1, "never seen")), None);
}

#[test]
fn the_ssd_tier_is_told_of_a_changed_file() {
    let mut d = Driver::new(MIB, 16 * MIB, 2, true);
    let id = d.cache.intern(&FileKey::new(1, "a.parquet"));
    let mut have = std::collections::HashMap::new();
    let mut complete = |d: &mut Driver, block: u32, size: u64| {
        d.cache.claim_pass(id, &vec![block], false, &mut have);
        let pieces = vec![Bytes::from_static(b"abc")];
        d.cache.complete_run(id, &vec![block], pieces, &version(size), &mut have).forgets
    };
    assert!(complete(&mut d, 0, 10).is_empty());
    assert!(complete(&mut d, 1, 10).is_empty());
    assert_eq!(complete(&mut d, 2, 11), vec![id]);
    let mut stats = PrefetchStats::default();
    let claim = d.cache.claim_run(id, &vec![5]);
    let effects = d.cache.complete_segment(
        id,
        &claim.owned,
        vec![Bytes::from_static(b"abc")],
        &version(12),
        PrefetchIntent::Prefetch,
        0,
        &mut stats,
    );
    assert_eq!(effects.forgets, vec![id]);
}

#[test]
fn only_what_goes_upstream_is_a_miss() {
    let mut d = Driver::new(MIB, 16 * MIB, 2, true);
    let file = FileKey::new(1, "a.parquet");
    let read = d.cache.begin_read(&file, &[0..2 * MIB]);
    assert_eq!(read.probe.missing, vec![0, 1]);
    // The SSD tier has the first block.
    let effects = d.cache.promote_from_ssd((read.file_id, 0), Bytes::from(vec![1u8; 10]));
    d.perform(effects);
    assert_eq!(d.cache.stats().misses, 0);
    let fill = d.cache.begin_fill(&vec![1]);
    assert_eq!(fill.blocks(), &vec![1]);
    assert_eq!(d.cache.stats().misses, 1);
}

#[test]
fn a_second_read_makes_no_fetch() {
    let mut d = Driver::new(MIB, 16 * MIB, 2, false);
    let file = FileKey::new(1, "a.parquet");
    let mut fetcher = SeqFetcher::new(4 * MIB);
    d.get_ranges(&file, &[0..2 * MIB, 10..20], &mut fetcher).unwrap();
    let before = d.cache.stats();
    assert_eq!((before.hits, before.misses, before.fetches), (0, 2, 1));
    d.get_ranges(&file, &[0..2 * MIB, 10..20], &mut fetcher).unwrap();
    let after = d.cache.stats();
    assert_eq!((after.hits, after.misses, after.fetches), (2, 2, 1));
}

#[test]
fn a_pass_takes_in_each_block_once() {
    let mut f = Fill::new(&vec![0, 1, 2]);
    let mut have = std::collections::HashMap::new();
    f.note_delivery(0, Ok(Bytes::from_static(b"x")), &mut have);
    f.note_delivery(1, Err(CacheError::Fetch("gone".into())), &mut have);
    f.note_fetch_error(CacheError::Fetch("own".into()));
    assert_eq!(have.len(), 1);
    assert_eq!(&have[&0][..], b"x");
    assert_eq!(f.after_pass(&have), FillStep::Retry);
    assert_eq!(f.blocks(), &vec![1]);
    match f.finish(&have) {
        Err(CacheError::Fetch(m)) => assert_eq!(m, "gone"),
        other => panic!("expected the first error, got {other:?}"),
    }
    f.note_delivery(1, Ok(Bytes::from_static(b"y")), &mut have);
    have.insert(2, Bytes::new());
    assert_eq!(f.after_pass(&have), FillStep::Done);
    assert!(f.finish(&have).is_ok());
}

#[test]
fn files_have_ids_of_their_own() {
    let mut d = Driver::new(MIB, 16 * MIB, 2, false);
    let a = d.cache.intern(&FileKey::new(1, "a"));
    let b = d.cache.intern(&FileKey::new(2, "a"));
    let c = d.cache.intern(&FileKey::new(1, "b"));
    assert!(a != b && b != c && a != c);
    assert_eq!(d.cache.intern(&FileKey::new(1, "a")), a);
}

#[test]
fn clearing_forgets_blocks() {
    let mut d = Driver::new(MIB, 16 * MIB, 2, false);
    let file = FileKey::new(1, "a");
    let mut fetcher = SeqFetcher::new(100);
    d.get_ranges(&file, &[0..10], &mut fetcher).unwrap();
    d.cache.clear();
    let id = d.cache.intern(&file);
    assert!(!d.cache.contains((id, 0)));
    d.cache.note_prefetch_file_skipped();
    assert_eq!(d.cache.stats().prefetch_files_skipped, 1);
}

#[test]
fn blocks_promoted_from_ssd_are_served() {
    let mut d = Driver::new(MIB, 16 * MIB, 2, true);
    let id = d.cache.intern(&FileKey::new(1, "a"));
    let effects = d.cache.promote_from_ssd((id, 0), Bytes::from_static(b"xyz"));
    d.perform(effects);
    let mut effects = Effects::none();
    let got = d.cache.note_demand_hit((id, 0), true, &mut effects);
    assert_eq!(got.as_deref(), Some(&b"xyz"[..]));
    assert!(effects.releases.is_empty());
}

#[test]
fn needed_blocks_are_listed_once() {
    assert_eq!(needed_blocks(&[0..10, 9..21, 5..5], 10), vec![0, 1, 2]);
    assert!(needed_blocks(&[], 10).is_empty());
}

#[test]
fn bytes_are_joined_and_cut() {
    let full = concat_bytes(vec![Bytes::from_static(b"abc"), Bytes::new(), Bytes::from_static(b"de")]);
    assert_eq!(&full[..], b"abcde");
    assert_eq!(&concat_bytes(vec![])[..], b"");
    assert_eq!(&concat_bytes(vec![Bytes::from_static(b"q")])[..], b"q");
    assert_eq!(&cut_block(&full, 0, 2)[..], b"ab");
    assert_eq!(&cut_block(&full, 2, 2)[..], b"e");
    assert_eq!(&cut_block(&full, 3, 2)[..], b"");
}

#[test]
fn ranges_are_assembled_from_blocks() {
    let mut have = std::collections::HashMap::new();
    have.insert(0u32, Bytes::from_static(b"abcd"));
    have.insert(1u32, Bytes::from_static(b"ef"));
    assert_eq!(&assemble_range(&(1..6), &have, 4).unwrap()[..], b"bcdef");
    assert_eq!(&assemble_range(&(1..3), &have, 4).unwrap()[..], b"bc");
    assert_eq!(&assemble_range(&(2..2), &have, 4).unwrap()[..], b"");
    assert!(assemble_range(&(7..9), &have, 4).is_err(), "a missing block is an error");
}

#[test]
fn blocks_spread_over_the_shards() {
    let mut seen = [0usize; 8];
    for file in 0..16u64 {
        for block in 0..64u32 {
            seen[shard_index((file, block), 8)] += 1;
        }
    }
    assert!(seen.iter().all(|n| *n > 0));
    assert_eq!(shard_index((7, 9), 1), 0);
}

#[test]
fn sieve_keeps_what_is_read() {
    // Room for two blocks of eight bytes.
    let mut s = Shard::new(2 * (8 + 64));
    let data = |n: u8| Bytes::from(vec![n; 8]);
    assert!(s.insert((0, 0), Block::new(data(0))).is_empty());
    assert!(s.insert((0, 1), Block::new(data(1))).is_empty());
    assert!(s.demand_hit((0, 0), true).is_some());
    let out = s.insert((0, 2), Block::new(data(2)));
    assert_eq!(out.len(), 1);
    assert!(s.contains((0, 0)), "the block that was read stays");
    assert!(!s.contains((0, 1)));
    assert!(s.demand_hit((0, 1), true).is_none());
    s.remove_file_blocks(0);
    assert!(!s.contains((0, 0)) && !s.contains((0, 2)));
}

#[test]
fn a_second_insert_changes_nothing() {
    let mut s = Shard::new(1 << 20);
    s.insert((0, 0), Block::new(Bytes::from_static(b"one")));
    s.insert((0, 0), Block::new(Bytes::from_static(b"two")));
    let (data, credit) = s.demand_hit((0, 0), true).unwrap();
    assert_eq!(&data[..], b"one");
    assert!(credit.is_none());
}

#[test]
fn credit_is_taken_by_the_first_read() {
    let mut s = Shard::new(1 << 20);
    s.insert((0, 0), Block::new_prefetch(Bytes::from_static(b"x"), 7, 100));
    let (_, credit) = s.demand_hit((0, 0), true).unwrap();
    let credit = credit.unwrap();
    assert_eq!((credit.ledger, credit.bytes), (7, 100));
    assert!(s.demand_hit((0, 0), true).unwrap().1.is_none());
}

#[test]
fn fill_finishes_with_the_first_error() {
    let missing = vec![3u32, 1, 3];
    let mut f = Fill::new(&missing);
    assert_eq!(f.blocks(), &vec![1, 3]);
    let mut have = std::collections::HashMap::new();
    f.note_fetch_error(CacheError::Fetch("one".into()));
    f.note_delivery(3, Err(CacheError::Fetch("late".into())), &mut have);
    assert_eq!(f.after_pass(&have), FillStep::Retry);
    assert!(f.reclaims());
    assert_eq!(f.blocks(), &vec![3]);
    f.note_delivery(3, Err(CacheError::Fetch("two".into())), &mut have);
    assert_eq!(f.after_pass(&have), FillStep::Reprobe);
    match f.finish(&have) {
        Err(CacheError::Fetch(m)) => assert_eq!(m, "one"),
        other => panic!("expected the first error, got {other:?}"),
    }
    let f = Fill::new(&missing);
    match f.finish(&have) {
        Err(CacheError::Internal(m)) => assert_eq!(m, "block missing after fill"),
        other => panic!("expected an internal error, got {other:?}"),
    }
}

#[test]
fn charge_within_budget_does_not_block() {
    let mut ledger = PrefetchLedger::new(100);
    assert!(ledger.try_reserve(40));
    assert!(ledger.try_reserve(40));
    assert_eq!(ledger.outstanding(), 80);
    assert_eq!(ledger.budget(), 100);
}

#[test]
fn charge_blocks_until_release() {
    let mut ledger = PrefetchLedger::new(100);
    assert!(ledger.try_reserve(80));
    assert!(!ledger.try_reserve(40), "charge should block while window is full");
    ledger.release(80, ReleaseOutcome::Consumed);
    assert!(ledger.try_reserve(40));
    assert_eq!(ledger.outstanding(), 40);
    assert_eq!(ledger.consumed_bytes(), 80);
}

#[test]
fn oversized_unit_admitted_when_idle() {
    let mut ledger = PrefetchLedger::new(100);
    assert!(ledger.try_reserve(500));
    assert_eq!(ledger.outstanding(), 500);
}

#[test]
fn release_saturates_and_tracks_waste() {
    let mut ledger = PrefetchLedger::new(100);
    assert!(ledger.try_reserve(50));
    ledger.release(50, ReleaseOutcome::Wasted);
    assert_eq!(ledger.outstanding(), 0);
    assert_eq!(ledger.wasted_bytes(), 50);
    // Over-release cannot wrap.
    ledger.release(50, ReleaseOutcome::Wasted);
    assert_eq!(ledger.outstanding(), 0);
}

#[test]
fn refunds_are_neither_consumed_nor_wasted() {
    let mut ledger = PrefetchLedger::new(100);
    assert!(ledger.try_reserve(50));
    ledger.refund(20);
    assert_eq!(ledger.outstanding(), 30);
    assert_eq!((ledger.consumed_bytes(), ledger.wasted_bytes()), (0, 0));
}

#[test]
fn metrics_count() {
    let mut m = Metrics::default();
    m.record_hit();
    m.record_miss();
    m.record_fetch(10);
    m.record_eviction();
    m.record_prefetch_fetch(7);
    m.record_prefetch_wasted();
    m.record_prefetch_file_skipped();
    let s = m.snapshot();
    assert_eq!((s.hits, s.misses, s.evictions), (1, 1, 1));
    assert_eq!(s.bytes_fetched, 10);
    assert_eq!(s.prefetch_bytes_fetched, 7);
    assert_eq!((s.prefetch_blocks_wasted, s.prefetch_files_skipped), (1, 1));
    assert_eq!(s.ssd_hits, 0);
}

#[test]
fn versions_agree_on_what_both_know() {
    let tagged = |t: &str| FileVersion {
        size: 5,
        e_tag: Some(t.to_string()),
        last_modified: None,
    };
    assert!(tagged("a").matches(&tagged("a")));
    assert!(!tagged("a").matches(&tagged("b")));
    assert!(!version(5).matches(&version(6)));
    assert!(version(5).matches(&version(5)));
}

#[test]
fn one_reader_fetches_for_all() {
    let mut d = Driver::new(MIB, 64 * MIB, 4, false);
    let id = d.cache.intern(&FileKey::new(1, "a.parquet"));
    let mut first = std::collections::HashMap::new();
    let claims = d.cache.claim_pass(id, &vec![0, 1], false, &mut first);
    assert_eq!(claims.owned, vec![0, 1]);

    // A second reader and a read-ahead own only what the first left.
    let mut second = std::collections::HashMap::new();
    let later = d.cache.claim_pass(id, &vec![1, 2], false, &mut second);
    assert_eq!((later.owned, later.waiting), (vec![2], vec![1]));
    let ahead = d.cache.claim_run(id, &vec![0, 1, 2, 3]);
    assert_eq!(ahead.owned, vec![3]);
    assert_eq!(ahead.stats.blocks_in_flight, 3);
    assert_eq!(d.cache.in_flight_len(), 4);

    // A completed fetch ends its flights, a failed one too, and others stay.
    let bytes = Bytes::from(vec![7u8; 2 * MIB as usize]);
    d.cache.complete_run(id, &vec![0, 1], vec![bytes], &version(4 * MIB), &mut first);
    assert_eq!(d.cache.in_flight_len(), 2);
    d.cache.end_flights(id, &vec![2]);
    assert_eq!(d.cache.in_flight_len(), 1);
    assert!(d.cache.contains((id, 0)) && d.cache.contains((id, 1)));
    assert!(!d.cache.contains((id, 2)), "a failed fetch caches nothing");
}

#[test]
fn a_read_takes_from_both_tiers_and_other_readers() {
    let mut d = Driver::new(MIB, 16 * MIB, 2, true);
    let file = FileKey::new(1, "a.parquet");
    let size = 4 * MIB + 7;
    let mut fetcher = SeqFetcher::new(size);
    let piece = |b: u64| -> Bytes {
        Bytes::from((b * MIB..((b + 1) * MIB).min(size)).map(byte_at).collect::<Vec<u8>>())
    };
    // Another reader has block 0 and fetches block 3.
    d.get_ranges(&file, &[0..1], &mut fetcher).unwrap();
    let (mut other, _) = RangeRead::begin(&mut d.cache, &file, &[3 * MIB..3 * MIB + 1]);
    other.start_filling(&mut d.cache);
    assert_eq!(other.claim(&mut d.cache).owned, vec![3]);

    let ranges = [10..3 * MIB + 20, size - 9..size, 5..5];
    let (mut read, effects) = RangeRead::begin(&mut d.cache, &file, &ranges);
    d.perform(effects);
    assert_eq!(read.next_missing(), Some(1));
    // The SSD tier has block 1 and not block 2.
    let effects = read.take_lookup(&mut d.cache, Some(piece(1)));
    d.perform(effects);
    assert!(d.cache.contains((read.file_id(), 1)));
    assert_eq!(read.next_missing(), Some(2));
    read.take_lookup(&mut d.cache, None);
    let misses = d.cache.stats().misses;
    read.start_filling(&mut d.cache);
    assert_eq!(d.cache.stats().misses, misses + 3);
    let claims = read.claim(&mut d.cache);
    assert_eq!((claims.owned, claims.waiting), (vec![2, 4], vec![3]));
    assert_eq!(read.next_run(), Some(vec![2]));
    for _ in 0..2 {
        let (pieces, v) = fetcher.fetch(read.next_range().unwrap()).unwrap();
        let effects = read.take_fetched(&mut d.cache, pieces, &v);
        d.perform(effects);
    }
    assert_eq!(read.block(2), Some(piece(2)));
    assert_eq!((read.next_run(), read.next_range()), (None, None));
    assert_eq!(read.next_awaited(), Some(3));
    // The other reader fails; this one takes the block over.
    other.take_failure(&mut d.cache, CacheError::Fetch("gone".into()));
    read.take_delivery(&mut d.cache, Err(CacheError::Fetch("gone".into())));
    assert_eq!(read.end_pass(), FillStep::Retry);
    let claims = read.claim(&mut d.cache);
    assert_eq!((claims.owned, claims.waiting), (vec![3], vec![]));
    let (pieces, v) = fetcher.fetch(read.next_range().unwrap()).unwrap();
    read.take_fetched(&mut d.cache, pieces, &v);
    assert_eq!(read.end_pass(), FillStep::Done);
    let out = read.finish(&ranges).unwrap();
    for (got, r) in out.iter().zip(ranges) {
        check_bytes(got, r);
    }
    // What it read is there for the next.
    let before = d.cache.stats();
    d.get_ranges(&file, &[10..3 * MIB + 20, size - 9..size], &mut fetcher).unwrap();
    let after = d.cache.stats();
    assert_eq!((after.fetches, after.misses), (before.fetches, before.misses));
    assert_eq!(after.hits, before.hits + 5);
}

#[test]
fn a_read_whose_fetch_fails_ends_with_the_first_error() {
    let mut d = Driver::new(MIB, 16 * MIB, 2, false);
    let file = FileKey::new(1, "a.parquet");
    let (mut read, _) = RangeRead::begin(&mut d.cache, &file, &[0..10, 2 * MIB..2 * MIB + 1]);
    read.start_filling(&mut d.cache);
    read.claim(&mut d.cache);
    read.take_failure(&mut d.cache, CacheError::Fetch("first".into()));
    read.take_failure(&mut d.cache, CacheError::Fetch("second".into()));
    assert_eq!(d.cache.stats().fetches, 2);
    assert_eq!(read.end_pass(), FillStep::Reprobe);
    assert_eq!(read.stage(), ReadStage::Last);
    // Another reader brought one of the two meanwhile.
    let mut fetcher = SeqFetcher::new(4 * MIB);
    d.get_ranges(&file, &[0..10], &mut fetcher).unwrap();
    let effects = read.look_again(&mut d.cache);
    d.perform(effects);
    assert!(read.block(0).is_some());
    match read.finish(&[0..10]) {
        Err(CacheError::Fetch(m)) => assert_eq!(m, "first"),
        other => panic!("expected the first error, got {other:?}"),
    }
}

#[test]
fn a_read_ahead_skips_what_the_ssd_tier_has() {
    let mut d = Driver::new(MIB, 16 * MIB, 2, true);
    let file = FileKey::new(1, "a.parquet");
    let mut fetcher = SeqFetcher::new(8 * MIB);
    d.get_ranges(&file, &[0..1], &mut fetcher).unwrap();
    let mut ahead: ReadAhead = d.cache.begin_read_ahead(&file, &[0..5 * MIB]);
    assert_eq!(ahead.missing, vec![1, 2, 3, 4]);
    let id = ahead.file_id;
    ahead.after_probe(&vec![(4, false), (2, true), (1, false), (3, true)]);
    assert_eq!(ahead.missing, vec![1, 4]);
    assert_eq!(ahead.stats.blocks_already_cached, 3);
    assert_eq!(ahead.stats.fetch_requests, 0);
    assert_eq!(ahead.file_id, id);
    assert!(d.cache.next_file_id() > id);
}
