//! The SSD tier, with a file in memory.

use bytes::Bytes;
use comet_delta::cache::config::BlockCacheConfig;
use comet_delta::cache::metrics::Metrics;
use comet_delta::cache::ssd::{
    block_checksum, is_shard_file, shard_file_name, SsdConfig, SsdEntry, SsdLayout, SsdShard,
};

/// A shard with its file.
struct Tier {
    shard: SsdShard,
    file: Vec<u8>,
    metrics: Metrics,
}

impl Tier {
    fn open(limit: u64, region: u64) -> Tier {
        let l = SsdConfig {
            dir: "/tmp".to_string(),
            total_limit: limit,
            num_shards: 1,
            region_size: region,
        }
        .layout()
        .expect("ssd tier should open");
        Tier {
            shard: SsdShard::new(l.region_size, l.max_regions),
            file: vec![0; l.max_regions * l.region_size as usize],
            metrics: Metrics::default(),
        }
    }

    fn queue(&mut self, key: (u64, u32), data: Bytes) {
        self.shard.admit_block(key, data);
    }

    fn flush(&mut self) {
        while let Some(batch) = self.shard.take_batch() {
            for (key, data) in batch {
                let decayed: Vec<u64> = self.shard.scores().iter().map(|s| s * 98 / 100).collect();
                let len = data.len() as u64;
                let (region, offset) =
                    self.shard.reserve(key, len, &decayed, &mut self.metrics);
                let at = self.shard.file_offset(region, offset) as usize;
                self.file[at..at + data.len()].copy_from_slice(&data);
                let entry = SsdEntry {
                    region,
                    offset,
                    len: data.len() as u32,
                    crc: block_checksum(&data),
                };
                self.shard.record_written(key, entry, &mut self.metrics);
            }
            self.shard.end_batch();
        }
    }

    fn get(&mut self, key: (u64, u32)) -> Option<Bytes> {
        let e = self.shard.lookup(key)?;
        let at = self.shard.file_offset(e.region, e.offset) as usize;
        let buf = Bytes::copy_from_slice(&self.file[at..at + e.len as usize]);
        let score = self.shard.scores()[e.region] + 100;
        if self.shard.verify_read(key, e, &buf, score, &mut self.metrics) {
            Some(buf)
        } else {
            None
        }
    }
}

#[test]
fn write_read_round_trip() {
    let mut t = Tier::open(4 * 4096, 4096);
    let key = (1u64, 0u32);
    let data = Bytes::from((0..1500u32).map(|i| i as u8).collect::<Vec<_>>());
    t.queue(key, data.clone());
    t.flush();
    assert_eq!(t.get(key), Some(data));
    let m = t.metrics.snapshot();
    assert_eq!(m.ssd_writes, 1);
    assert_eq!(m.ssd_hits, 1);
    assert_eq!(t.get((2, 0)), None);
}

#[test]
fn crc_mismatch_is_treated_as_miss() {
    let mut t = Tier::open(4 * 4096, 4096);
    let key = (9u64, 3u32);
    t.queue(key, Bytes::from(vec![0xABu8; 1000]));
    t.flush();
    assert!(t.get(key).is_some());
    for b in t.file.iter_mut().take(1000) {
        *b = 0;
    }
    assert_eq!(t.get(key), None, "corrupt block must be a miss");
    assert!(t.metrics.snapshot().ssd_corruptions >= 1);
    assert_eq!(t.get(key), None);
}

#[test]
fn region_eviction_reclaims_lowest_scored_region() {
    let mut t = Tier::open(3 * 4096, 4096);
    let mk = |n: u8| Bytes::from(vec![n; 1500]);
    for i in 0..6u32 {
        t.queue((0, i), mk(i as u8));
    }
    t.flush();
    assert_eq!(t.shard.region_count(), 3);
    for _ in 0..3 {
        let _ = t.get((0, 0));
        let _ = t.get((0, 4));
    }
    t.queue((0, 6), mk(6));
    t.flush();

    assert!(t.metrics.snapshot().ssd_region_evictions >= 1);
    assert!(t.get((0, 0)).is_some());
    assert!(t.get((0, 1)).is_some());
    assert!(t.get((0, 4)).is_some());
    assert!(t.get((0, 5)).is_some());
    assert_eq!(t.get((0, 2)), None, "coldest region should be evicted");
    assert_eq!(t.get((0, 3)), None);
    assert!(t.get((0, 6)).is_some());
}

#[test]
fn admit_skips_oversize_and_duplicate() {
    let mut t = Tier::open(4 * 4096, 4096);
    t.queue((0, 0), Bytes::from(vec![1u8; 5000]));
    t.queue((0, 1), Bytes::from(vec![2u8; 100]));
    t.queue((0, 1), Bytes::from(vec![2u8; 100]));
    t.flush();
    assert_eq!(t.metrics.snapshot().ssd_writes, 1);
    assert_eq!(t.get((0, 0)), None);
    assert!(t.get((0, 1)).is_some());
    // What was written is not queued again.
    t.queue((0, 1), Bytes::from(vec![2u8; 100]));
    t.flush();
    assert_eq!(t.metrics.snapshot().ssd_writes, 1);
}

#[test]
fn too_small_budget_disables_tier() {
    let c = SsdConfig {
        dir: "/tmp".to_string(),
        total_limit: 100,
        num_shards: 1,
        region_size: 4096,
    };
    assert!(c.layout().is_none());
}

#[test]
fn regions_are_shared_by_the_shards() {
    let layout = |limit: u64, shards: usize| {
        SsdConfig {
            dir: "/tmp".to_string(),
            total_limit: limit,
            num_shards: shards,
            region_size: 10,
        }
        .layout()
    };
    assert_eq!(layout(95, 2), Some(SsdLayout { num_shards: 2, max_regions: 4, region_size: 10 }));
    assert_eq!(layout(95, 0), Some(SsdLayout { num_shards: 1, max_regions: 9, region_size: 10 }));
    // No more shards than there are regions: the files stay within the limit.
    assert_eq!(layout(25, 8), Some(SsdLayout { num_shards: 2, max_regions: 1, region_size: 10 }));
    assert_eq!(layout(10, 2), Some(SsdLayout { num_shards: 1, max_regions: 1, region_size: 10 }));
    assert_eq!(layout(9, 2), None);
}

#[test]
fn stale_files_are_recognized() {
    assert_eq!(shard_file_name(77), "comet-data-cache-77.bin");
    assert!(is_shard_file("comet-data-cache-77.bin"));
    assert!(!is_shard_file("comet-data-cache-77.tmp"));
    assert!(!is_shard_file("other.bin"));
}

#[test]
fn a_cleared_tier_serves_nothing() {
    let mut t = Tier::open(4 * 4096, 4096);
    t.queue((0, 1), Bytes::from(vec![2u8; 100]));
    t.flush();
    t.shard.clear();
    assert_eq!(t.get((0, 1)), None);
    assert_eq!(t.shard.region_count(), 0);
}

#[test]
fn a_forgotten_file_is_not_served() {
    let mut t = Tier::open(4 * 4096, 4096);
    for file in 0..2u64 {
        for block in 0..3u32 {
            t.queue((file, block), Bytes::from(vec![file as u8; 100]));
        }
    }
    t.flush();
    t.queue((0, 7), Bytes::from(vec![0u8; 10]));
    t.queue((1, 7), Bytes::from(vec![1u8; 10]));
    t.shard.forget_file(0);
    assert_eq!(t.shard.pending_bytes(), 10);
    t.flush();
    for block in [0, 1, 2, 7] {
        assert_eq!(t.get((0, block)), None);
        assert!(t.get((1, block)).is_some());
    }
    // The file can be cached again.
    t.queue((0, 1), Bytes::from(vec![9u8; 5]));
    t.flush();
    assert_eq!(t.get((0, 1)), Some(Bytes::from(vec![9u8; 5])));
}

#[test]
fn a_block_forgotten_while_it_is_written_is_not_indexed() {
    let mut t = Tier::open(4 * 4096, 4096);
    let key = (3u64, 0u32);
    let (region, offset) = t.shard.reserve(key, 100, &vec![], &mut t.metrics);
    t.shard.forget_file(3);
    let entry = SsdEntry { region, offset, len: 100, crc: 0 };
    t.shard.record_written(key, entry, &mut t.metrics);
    assert_eq!(t.shard.lookup(key), None);
    assert_eq!(t.metrics.snapshot().ssd_writes, 1);
}

#[test]
fn a_failed_file_is_passed_by() {
    let mut t = Tier::open(4 * 4096, 4096);
    t.queue((0, 1), Bytes::from(vec![2u8; 100]));
    t.flush();
    t.queue((0, 2), Bytes::from(vec![2u8; 100]));
    assert!(!t.shard.is_degraded());
    t.shard.degrade();
    assert!(t.shard.is_degraded());
    assert_eq!(t.get((0, 1)), None);
    assert_eq!(t.shard.pending_bytes(), 0);
    assert!(!t.shard.admit_block((0, 3), Bytes::from(vec![2u8; 100])));
    t.flush();
    assert_eq!(t.get((0, 3)), None);
    t.shard.clear();
    assert!(t.shard.is_degraded());
}

#[test]
fn checksums_are_castagnoli() {
    assert_eq!(block_checksum(&Bytes::from_static(b"123456789")), 0xE306_9283);
}

#[test]
fn tier_needs_a_directory_and_a_limit() {
    let with = |dir: Option<String>, limit: u64| {
        BlockCacheConfig { ssd_dir: dir, ssd_limit: limit, ..Default::default() }
            .normalized()
            .ssd_config()
    };
    assert!(with(None, 1 << 30).is_none());
    assert!(with(Some("/tmp".to_string()), 0).is_none());
    let c = with(Some("/tmp".to_string()), 1 << 30).unwrap();
    assert_eq!(c.dir, "/tmp");
    assert!(c.region_size >= BlockCacheConfig::default().normalized().block_size);
}

#[test]
fn every_block_keeps_its_bytes() {
    let mut t = Tier::open(3 * 4096, 4096);
    for i in 0..5u32 {
        t.queue((0, i), Bytes::from(vec![i as u8; 1000 + i as usize]));
    }
    t.flush();
    for i in 0..5u32 {
        let want = Bytes::from(vec![i as u8; 1000 + i as usize]);
        assert_eq!(t.get((0, i)), Some(want));
    }
    // A second flush leaves them as they are.
    t.queue((1, 0), Bytes::from(vec![9u8; 4000]));
    t.flush();
    assert_eq!(t.shard.pending_bytes(), 0);
    assert_eq!(t.get((1, 0)), Some(Bytes::from(vec![9u8; 4000])));
    for i in 0..5u32 {
        let want = Bytes::from(vec![i as u8; 1000 + i as usize]);
        assert_eq!(t.get((0, i)), Some(want));
    }
    let m = t.metrics.snapshot();
    assert_eq!((m.ssd_writes, m.ssd_region_evictions), (6, 0));
}

#[test]
fn an_entry_outside_its_room_is_not_indexed() {
    let mut t = Tier::open(2 * 4096, 4096);
    let key = (3u64, 0u32);
    let (region, offset) = t.shard.reserve(key, 100, &vec![], &mut t.metrics);
    let entry = SsdEntry { region, offset, len: 101, crc: 0 };
    t.shard.record_written(key, entry, &mut t.metrics);
    assert_eq!(t.shard.lookup(key), None);
}

#[test]
fn a_read_during_which_the_tier_was_cleared_still_counts() {
    let mut t = Tier::open(4 * 4096, 4096);
    let data = Bytes::from(vec![2u8; 100]);
    t.queue((0, 1), data.clone());
    t.flush();
    let entry = t.shard.lookup((0, 1)).unwrap();
    t.shard.clear();
    assert!(t.shard.verify_read((0, 1), entry, &data, 1, &mut t.metrics));
    assert_eq!(t.metrics.snapshot().ssd_hits, 1);
    assert!(!t.shard.verify_read((0, 1), entry, &Bytes::new(), 1, &mut t.metrics));
    assert_eq!(t.metrics.snapshot().ssd_corruptions, 1);
}
