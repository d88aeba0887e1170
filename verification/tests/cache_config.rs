use comet_delta::cache::blocks::coalesce_runs;
use comet_delta::cache::config::{
    floor_pow2, BlockCacheConfig, MAX_BLOCK_SIZE, MIN_BLOCK_SIZE,
};

#[test]
fn floor_pow2_rounds_down() {
    assert_eq!(floor_pow2(1), 1);
    assert_eq!(floor_pow2(3), 2);
    assert_eq!(floor_pow2(5 << 20), 4 << 20);
    assert_eq!(floor_pow2(16 << 20), 16 << 20);
}

#[test]
fn config_normalizes_block_size_to_pow2_in_range() {
    let c = BlockCacheConfig {
        block_size: 5 << 20,
        ..Default::default()
    }
    .normalized();
    assert_eq!(c.block_size, 4 << 20);

    let c = BlockCacheConfig {
        block_size: 100 << 20,
        ..Default::default()
    }
    .normalized();
    assert_eq!(c.block_size, MAX_BLOCK_SIZE);

    let c = BlockCacheConfig {
        block_size: 0,
        ..Default::default()
    }
    .normalized();
    assert_eq!(c.block_size, MIN_BLOCK_SIZE);
}

#[test]
fn coalesce_runs_splits_gaps_and_caps() {
    // adjacent run [1,2,3] and isolated [5]
    assert_eq!(
        coalesce_runs(&[1, 2, 3, 5], 8),
        vec![vec![1, 2, 3], vec![5]]
    );
    // cap at 2 blocks per run
    assert_eq!(
        coalesce_runs(&[1, 2, 3, 4], 2),
        vec![vec![1, 2], vec![3, 4]]
    );
    assert!(coalesce_runs(&[], 4).is_empty());
}
