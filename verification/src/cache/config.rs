//! Configuration of the block cache and its normalization.

use vstd::arithmetic::power2::{lemma_pow2_strictly_increases, lemma_pow2_unfold, pow2};
use vstd::prelude::*;

verus! {

/// Smallest block size: 1 MiB.
pub const MIN_BLOCK_SIZE: u64 = 1048576;

/// Largest block size: 16 MiB.
pub const MAX_BLOCK_SIZE: u64 = 16777216;

/// Default block size: 4 MiB.
pub const DEFAULT_BLOCK_SIZE: u64 = 4194304;

/// Default number of memory-tier shards.
pub const DEFAULT_NUM_SHARDS: usize = 16;

/// Default cap on one coalesced upstream fetch: 16 MiB.
pub const DEFAULT_MAX_COALESCE_BYTES: u64 = 16777216;

/// Default memory-tier budget: 512 MiB.
pub const DEFAULT_MEMORY_BUDGET: u64 = 536870912;

/// Default SSD region size: 64 MiB. Blocks never span a region.
pub const DEFAULT_REGION_SIZE: u64 = 67108864;

/// Configuration of a block cache.
#[derive(Clone, Debug)]
pub struct BlockCacheConfig {
    /// Block quantum in bytes.
    pub block_size: u64,
    /// Memory-tier budget in bytes, process-wide.
    pub memory_budget: u64,
    /// Number of memory-tier shards.
    pub num_shards: usize,
    /// Cap on bytes fetched in a single coalesced upstream request.
    pub max_coalesce_bytes: u64,
    /// Directory for the SSD tier's region files; `None` disables the tier.
    pub ssd_dir: Option<String>,
    /// SSD-tier budget in bytes; `0` disables the tier.
    pub ssd_limit: u64,
    /// SSD region size in bytes.
    pub ssd_region_size: u64,
}

impl Default for BlockCacheConfig {
    fn default() -> (c: BlockCacheConfig)
        ensures
            c.block_size == DEFAULT_BLOCK_SIZE,
            c.memory_budget == DEFAULT_MEMORY_BUDGET,
            c.num_shards == DEFAULT_NUM_SHARDS,
            c.max_coalesce_bytes == DEFAULT_MAX_COALESCE_BYTES,
            c.ssd_dir is None,
            c.ssd_limit == 0,
            c.ssd_region_size == DEFAULT_REGION_SIZE,
    {
        BlockCacheConfig {
            block_size: DEFAULT_BLOCK_SIZE,
            memory_budget: DEFAULT_MEMORY_BUDGET,
            num_shards: DEFAULT_NUM_SHARDS,
            max_coalesce_bytes: DEFAULT_MAX_COALESCE_BYTES,
            ssd_dir: None,
            ssd_limit: 0,
            ssd_region_size: DEFAULT_REGION_SIZE,
        }
    }
}

/// `v` is a power of two.
pub open spec fn is_pow2(v: int) -> bool {
    exists|k: nat| v == #[trigger] pow2(k)
}

/// `p` is the largest power of two not above `v`; zero for zero.
pub open spec fn is_floor_pow2(v: int, p: int) -> bool {
    if v == 0 {
        p == 0
    } else {
        is_pow2(p) && p <= v < 2 * p
    }
}

/// Rounds `v` down to the largest power of two not above it.
pub fn floor_pow2(v: u64) -> (p: u64)
    ensures
        is_floor_pow2(v as int, p as int),
{
    if v == 0 {
        return 0;
    }
    let mut p: u64 = 1;
    let ghost mut k: nat = 0;
    proof {
        vstd::arithmetic::power2::lemma2_to64();
    }
    while p <= v / 2
        invariant
            p == pow2(k),
            1 <= p <= v,
        decreases v - p,
    {
        proof {
            lemma_pow2_unfold(k + 1);
            k = k + 1;
        }
        p = p * 2;
    }
    p
}

/// `v` brought into `[MIN_BLOCK_SIZE, MAX_BLOCK_SIZE]`.
pub open spec fn clamped_block_size(v: int) -> int {
    if v < MIN_BLOCK_SIZE {
        MIN_BLOCK_SIZE as int
    } else if v > MAX_BLOCK_SIZE {
        MAX_BLOCK_SIZE as int
    } else {
        v
    }
}

/// `n` is what normalizing `c` gives: the block size is the clamped size
/// rounded down to a power of two, there is at least one shard, and one fetch
/// may hold at least one block. Everything else is kept.
pub open spec fn is_normal_form(c: BlockCacheConfig, n: BlockCacheConfig) -> bool {
    &&& is_floor_pow2(clamped_block_size(c.block_size as int), n.block_size as int)
    &&& n.num_shards == if c.num_shards == 0 {
        1
    } else {
        c.num_shards
    }
    &&& n.max_coalesce_bytes == if c.max_coalesce_bytes < n.block_size {
        n.block_size
    } else {
        c.max_coalesce_bytes
    }
    &&& n.memory_budget == c.memory_budget
    &&& n.ssd_dir == c.ssd_dir
    &&& n.ssd_limit == c.ssd_limit
    &&& n.ssd_region_size == c.ssd_region_size
}

impl BlockCacheConfig {
    /// A valid configuration: the block size becomes a power of two within
    /// bounds, the shard count is at least one, and the coalesce cap is at
    /// least one block.
    pub fn normalized(self) -> (n: BlockCacheConfig)
        ensures
            is_normal_form(self, n),
            MIN_BLOCK_SIZE <= n.block_size <= MAX_BLOCK_SIZE,
    {
        let clamped: u64 = if self.block_size < MIN_BLOCK_SIZE {
            MIN_BLOCK_SIZE
        } else if self.block_size > MAX_BLOCK_SIZE {
            MAX_BLOCK_SIZE
        } else {
            self.block_size
        };
        let block_size: u64 = floor_pow2(clamped);
        proof {
            lemma_min_block_size_is_pow2();
            lemma_floor_pow2_monotone(MIN_BLOCK_SIZE as int, clamped as int, block_size as int);
        }
        let num_shards: usize = if self.num_shards == 0 {
            1
        } else {
            self.num_shards
        };
        let max_coalesce_bytes: u64 = if self.max_coalesce_bytes < block_size {
            block_size
        } else {
            self.max_coalesce_bytes
        };
        BlockCacheConfig {
            block_size,
            memory_budget: self.memory_budget,
            num_shards,
            max_coalesce_bytes,
            ssd_dir: self.ssd_dir,
            ssd_limit: self.ssd_limit,
            ssd_region_size: self.ssd_region_size,
        }
    }
}

proof fn lemma_min_block_size_is_pow2()
    ensures
        is_pow2(MIN_BLOCK_SIZE as int),
{
    vstd::arithmetic::power2::lemma2_to64();
    assert(pow2(20) == 0x100000);
    assert(MIN_BLOCK_SIZE as int == pow2(20));
}

/// A power of two below `v` is at most the largest power of two below `v`.
proof fn lemma_floor_pow2_monotone(q: int, v: int, p: int)
    requires
        0 < q <= v,
        is_pow2(q),
        is_floor_pow2(v, p),
    ensures
        q <= p,
{
    let i = choose|k: nat| q == #[trigger] pow2(k);
    let j = choose|k: nat| p == #[trigger] pow2(k);
    if q > p {
        if i <= j {
            if i < j {
                lemma_pow2_strictly_increases(i, j);
            }
            assert(false);
        }
        if j + 1 < i {
            lemma_pow2_strictly_increases(j + 1, i);
        }
        lemma_pow2_unfold(j + 1);
        assert(false);
    }
}

/// The largest power of two not above a number is unique.
pub proof fn floor_pow2_is_unique(v: int, p: int, q: int)
    requires
        0 <= v,
        is_floor_pow2(v, p),
        is_floor_pow2(v, q),
    ensures
        p == q,
{
    if v > 0 {
        assert(0 < p && 0 < q);
        lemma_floor_pow2_monotone(q, v, p);
        lemma_floor_pow2_monotone(p, v, q);
    }
}

/// Normalizing twice is normalizing once: a normal form is its own normal form.
pub proof fn normalizing_is_idempotent(
    c: BlockCacheConfig,
    n: BlockCacheConfig,
    m: BlockCacheConfig,
)
    requires
        is_normal_form(c, n),
        is_normal_form(n, m),
    ensures
        m == n,
{
    let v = clamped_block_size(c.block_size as int);
    lemma_min_block_size_is_pow2();
    lemma_floor_pow2_monotone(MIN_BLOCK_SIZE as int, v, n.block_size as int);
    assert(clamped_block_size(n.block_size as int) == n.block_size);
    floor_pow2_is_unique(n.block_size as int, n.block_size as int, m.block_size as int);
}

/// A block size within bounds is rounded down to a power of two, to more than half of it; one
/// that is too small becomes the smallest, and one that is too large the largest. There is at
/// least one shard, a fetch may hold at least one block, and all else stays as it was.
pub proof fn a_normal_form_stays_close(c: BlockCacheConfig, n: BlockCacheConfig)
    requires
        is_normal_form(c, n),
    ensures
        MIN_BLOCK_SIZE <= n.block_size <= MAX_BLOCK_SIZE,
        exists|k: nat| n.block_size == #[trigger] pow2(k),
        MIN_BLOCK_SIZE <= c.block_size <= MAX_BLOCK_SIZE ==> n.block_size <= c.block_size
            && c.block_size < 2 * n.block_size,
        c.block_size < MIN_BLOCK_SIZE ==> n.block_size == MIN_BLOCK_SIZE,
        c.block_size > MAX_BLOCK_SIZE ==> n.block_size == MAX_BLOCK_SIZE,
        c.num_shards >= 1 ==> n.num_shards == c.num_shards,
        c.num_shards == 0 ==> n.num_shards == 1,
        c.max_coalesce_bytes >= n.block_size ==> n.max_coalesce_bytes == c.max_coalesce_bytes,
        c.max_coalesce_bytes < n.block_size ==> n.max_coalesce_bytes == n.block_size,
        n.memory_budget == c.memory_budget,
        n.ssd_dir == c.ssd_dir,
        n.ssd_limit == c.ssd_limit,
        n.ssd_region_size == c.ssd_region_size,
{
    let v = clamped_block_size(c.block_size as int);
    lemma_min_block_size_is_pow2();
    lemma_max_block_size_is_pow2();
    lemma_floor_pow2_monotone(MIN_BLOCK_SIZE as int, v, n.block_size as int);
    if c.block_size < MIN_BLOCK_SIZE {
        floor_pow2_is_unique(v, MIN_BLOCK_SIZE as int, n.block_size as int);
    }
    if c.block_size > MAX_BLOCK_SIZE {
        floor_pow2_is_unique(v, MAX_BLOCK_SIZE as int, n.block_size as int);
    }
}

proof fn lemma_max_block_size_is_pow2()
    ensures
        is_pow2(MAX_BLOCK_SIZE as int),
{
    vstd::arithmetic::power2::lemma2_to64();
    assert(pow2(24) == 0x1000000);
    assert(MAX_BLOCK_SIZE as int == pow2(24));
}

} // verus!
