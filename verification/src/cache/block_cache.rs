//! The block cache: interned files, a sharded memory tier, and the steps a read
//! or a read-ahead takes through them. Each step is a state transition; the
//! caller performs the disk and network work between steps.

use std::collections::HashMap;

use bytes::Bytes;
use vstd::prelude::*;

use crate::cache::bytes_ops::{bytes_clone, content};
use crate::cache::config::{is_normal_form, BlockCacheConfig, MAX_BLOCK_SIZE, MIN_BLOCK_SIZE};
use crate::cache::ledger::ReleaseOutcome;
use crate::cache::metrics::{Metrics, MetricsSnapshot};
use crate::cache::sieve::{
    distinct_keys, evicted_until, holds, no_more_is_evicted_than_has_to_be, position, slots,
    spared, the_blocks_of_other_files_stay_in_order, total_charge, victim, without_file, wrapped, Block, BlockKey, BlockState, Credit, Evicted, Shard, ShardState, Slot,
};
use crate::cache::version::{FileKey, FileVersion};

verus! {

broadcast use vstd::std_specs::hash::group_hash_axioms;

/// Credit to give back to a ledger.
#[derive(Clone, Copy, Debug, PartialEq, Eq, Structural)]
pub struct Release {
    pub ledger: u64,
    pub bytes: u64,
    pub outcome: ReleaseOutcome,
}

/// What a step asks of its caller: credit to release, and files to forget and blocks
/// to take in for the SSD tier.
pub struct Effects {
    pub releases: Vec<Release>,
    pub admits: Vec<(BlockKey, Bytes)>,
    /// Files that the SSD tier has to forget, before it gets any block.
    pub forgets: Vec<u64>,
}

/// The blocks handed to the SSD tier, as mathematical values.
pub open spec fn admit_views(v: Seq<(BlockKey, Bytes)>) -> Seq<(BlockKey, Seq<u8>)> {
    Seq::new(v.len(), |i: int| (v[i].0, content(v[i].1)))
}

/// The credit a block gives back when it is resolved.
pub open spec fn release_of(credit: Option<Credit>, outcome: ReleaseOutcome) -> Seq<Release> {
    match credit {
        Some(c) => seq![Release { ledger: c.ledger, bytes: c.bytes, outcome }],
        None => Seq::empty(),
    }
}

/// The credit that evicted blocks give back: that of every block that was
/// prefetched and never read.
pub open spec fn wasted_credit(out: Seq<Slot>) -> Seq<Release>
    decreases out.len(),
{
    if out.len() == 0 {
        Seq::empty()
    } else {
        wasted_credit(out.drop_last()) + release_of(
            out.last().block.credit,
            ReleaseOutcome::Wasted,
        )
    }
}

/// The evicted blocks that the SSD tier gets: those read again while resident.
pub open spec fn revisited(out: Seq<Slot>) -> Seq<(BlockKey, Seq<u8>)>
    decreases out.len(),
{
    if out.len() == 0 {
        Seq::empty()
    } else if out.last().block.ever_visited {
        revisited(out.drop_last()).push((out.last().key, out.last().block.data))
    } else {
        revisited(out.drop_last())
    }
}

/// The counters after the given blocks were evicted.
pub open spec fn counted_evictions(m: Metrics, out: Seq<Slot>) -> Metrics
    decreases out.len(),
{
    if out.len() == 0 {
        m
    } else {
        let before = counted_evictions(m, out.drop_last());
        Metrics {
            evictions: before.evictions.wrapping_add(1),
            prefetch_blocks_wasted: if out.last().block.credit is Some {
                before.prefetch_blocks_wasted.wrapping_add(1)
            } else {
                before.prefetch_blocks_wasted
            },
            ..before
        }
    }
}

/// A mix of the key's bits.
pub open spec fn key_hash(key: BlockKey) -> u64 {
    let h = key.0.wrapping_mul(0x9E37_79B9_7F4A_7C15) ^ (key.1 as u64).wrapping_mul(
        0xD6E8_FEB8_6659_FD93,
    );
    h ^ (h >> 29u64)
}

/// The shard that a block lives in, of `n`.
pub open spec fn shard_slot(key: BlockKey, n: int) -> int {
    key_hash(key) as int % n
}

/// The shard of `num_shards` that owns a block key.
pub fn shard_index(key: BlockKey, num_shards: usize) -> (i: usize)
    requires
        num_shards > 0,
    ensures
        i == shard_slot(key, num_shards as int),
        i < num_shards,
{
    let mut h: u64 = key.0.wrapping_mul(0x9E37_79B9_7F4A_7C15);
    h = h ^ (key.1 as u64).wrapping_mul(0xD6E8_FEB8_6659_FD93);
    h = h ^ (h >> 29u64);
    (h % num_shards as u64) as usize
}

/// Every block of the queue is one of shard `i`, of `n`.
pub open spec fn lives_in(q: Seq<Slot>, i: int, n: int) -> bool {
    forall|j: int| 0 <= j < q.len() ==> shard_slot((#[trigger] q[j]).key, n) == i
}

/// Evicting blocks moves none to another shard.
pub(crate) proof fn lemma_evicting_keeps_shards(
    q: Seq<Slot>,
    hand: int,
    budget: int,
    i: int,
    n: int,
)
    requires
        lives_in(q, i, n),
    ensures
        lives_in(evicted_until(q, hand, budget).0, i, n),
    decreases q.len(),
{
    let h = wrapped(hand, q.len() as int);
    let v = victim(q, h);
    if q.len() > 0 && total_charge(q) > budget && 0 <= v < q.len() {
        let w = spared(q, h);
        let t = w.remove(v);
        assert forall|j: int| 0 <= j < t.len() implies shard_slot(
            (#[trigger] t[j]).key,
            n,
        ) == i by {
            let k = if j < v { j } else { j + 1 };
            assert(t[j] == w[k]);
            assert(w[k].key == q[k].key);
        }
        lemma_evicting_keeps_shards(t, v, budget, i, n);
    }
}

/// Leaving out a file's blocks moves none to another shard.
pub(crate) proof fn lemma_dropping_keeps_shards(q: Seq<Slot>, file_id: u64, i: int, n: int)
    requires
        lives_in(q, i, n),
    ensures
        lives_in(without_file(q, file_id), i, n),
    decreases q.len(),
{
    if q.len() > 0 {
        let t = q.drop_last();
        assert forall|j: int| 0 <= j < t.len() implies shard_slot(
            (#[trigger] t[j]).key,
            n,
        ) == i by {
            assert(t[j] == q[j]);
        }
        lemma_dropping_keeps_shards(t, file_id, i, n);
        assert(q[q.len() - 1] == q.last());
    }
}

/// Interned file identities and their captured versions.
pub struct FilesState {
    /// File ids by namespace and path.
    pub ids: Map<(u64, Seq<char>), u64>,
    /// Captured versions by file id.
    pub versions: Map<u64, FileVersion>,
    /// The next id to hand out.
    pub next_id: u64,
}

/// The state of a block cache.
pub struct CacheState {
    pub block_size: u64,
    pub max_coalesce_blocks: u32,
    pub shards: Seq<ShardState>,
    pub files: FilesState,
    pub memory_budget: u64,
    pub metrics: Metrics,
    pub ssd: bool,
}

impl CacheState {
    /// Where the block's shard is.
    pub open spec fn home(self, key: BlockKey) -> int {
        shard_slot(key, self.shards.len() as int)
    }

    /// The shard the block lives in.
    pub open spec fn shard(self, key: BlockKey) -> ShardState {
        self.shards[self.home(key)]
    }

    /// The cache with the block's shard as given.
    pub open spec fn with_shard(self, key: BlockKey, shard: ShardState) -> CacheState {
        CacheState { shards: self.shards.update(self.home(key), shard), ..self }
    }

    /// The cache with its counters as given.
    pub open spec fn with_metrics(self, metrics: Metrics) -> CacheState {
        CacheState { metrics, ..self }
    }

    /// The block is in the memory tier.
    pub open spec fn resident(self, key: BlockKey) -> bool {
        holds(self.shard(key).queue, key)
    }

    /// The resident block.
    pub open spec fn block(self, key: BlockKey) -> BlockState {
        self.shard(key).queue[position(self.shard(key).queue, key)].block
    }

    /// Some reader is fetching the block.
    pub open spec fn in_flight(self, key: BlockKey) -> bool {
        self.shard(key).in_flight.contains(key)
    }

    /// The cache after a demand read observed the block, where it is resident.
    pub open spec fn demand_hit(self, key: BlockKey, repeat: bool) -> CacheState {
        if self.resident(key) {
            let metrics = if self.block(key).credit is Some {
                Metrics {
                    prefetch_blocks_consumed: self.metrics.prefetch_blocks_consumed.wrapping_add(1),
                    ..self.metrics
                }
            } else {
                self.metrics
            };
            self.with_shard(key, self.shard(key).hit(key, repeat)).with_metrics(metrics)
        } else {
            self
        }
    }

    /// The credit that a demand read of the block gives back.
    pub open spec fn demand_release(self, key: BlockKey) -> Seq<Release> {
        if self.resident(key) {
            release_of(self.block(key).credit, ReleaseOutcome::Consumed)
        } else {
            Seq::empty()
        }
    }

    /// The cache after a block was put into the memory tier.
    pub open spec fn inserted(self, key: BlockKey, block: BlockState) -> CacheState {
        let out = self.shard(key).evicted_by(key, block);
        self.with_shard(key, self.shard(key).inserted(key, block)).with_metrics(
            counted_evictions(self.metrics, out),
        )
    }

    /// The blocks that putting a block into the memory tier evicts.
    pub open spec fn evicted_by(self, key: BlockKey, block: BlockState) -> Seq<Slot> {
        self.shard(key).evicted_by(key, block)
    }

    /// The cache with the block marked as being fetched.
    pub open spec fn flight_begun(self, key: BlockKey) -> CacheState {
        self.with_shard(
            key,
            ShardState { in_flight: self.shard(key).in_flight.insert(key), ..self.shard(key) },
        )
    }

    /// The cache with the block no longer marked as being fetched.
    pub open spec fn flight_ended(self, key: BlockKey) -> CacheState {
        self.with_shard(
            key,
            ShardState { in_flight: self.shard(key).in_flight.remove(key), ..self.shard(key) },
        )
    }

    /// The cache without the blocks of a file.
    pub open spec fn without_blocks_of(self, file_id: u64) -> CacheState {
        CacheState {
            shards: Seq::new(
                self.shards.len(),
                |i: int|
                    self.shards[i].with_queue(
                        without_file(self.shards[i].queue, file_id),
                        without_file(
                            self.shards[i].queue.take(self.shards[i].hand),
                            file_id,
                        ).len() as int,
                    ),
            ),
            ..self
        }
    }

    /// The evicted blocks that go to the SSD tier, where there is one.
    pub open spec fn admitted(self, out: Seq<Slot>) -> Seq<(BlockKey, Seq<u8>)> {
        if self.ssd {
            revisited(out)
        } else {
            Seq::empty()
        }
    }
}

/// A block-aligned data cache.
pub struct BlockCache {
    block_size: u64,
    max_coalesce_blocks: u32,
    shards: Vec<Shard>,
    ids: Vec<(FileKey, u64)>,
    versions: HashMap<u64, FileVersion>,
    next_id: u64,
    memory_budget: u64,
    metrics: Metrics,
    ssd: bool,
}

/// The states of the shards.
pub open spec fn shard_views(v: Seq<Shard>) -> Seq<ShardState> {
    Seq::new(v.len(), |i: int| v[i]@)
}

/// The interned ids by namespace and path.
pub open spec fn id_map(v: Seq<(FileKey, u64)>) -> Map<(u64, Seq<char>), u64>
    decreases v.len(),
{
    if v.len() == 0 {
        Map::empty()
    } else {
        id_map(v.drop_last()).insert((v.last().0.namespace, v.last().0.path@), v.last().1)
    }
}

impl View for BlockCache {
    type V = CacheState;

    closed spec fn view(&self) -> CacheState {
        CacheState {
            block_size: self.block_size,
            max_coalesce_blocks: self.max_coalesce_blocks,
            shards: shard_views(self.shards@),
            files: FilesState {
                ids: id_map(self.ids@),
                versions: self.versions@,
                next_id: self.next_id,
            },
            memory_budget: self.memory_budget,
            metrics: self.metrics,
            ssd: self.ssd,
        }
    }
}

/// No file is interned twice.
pub open spec fn distinct_files(v: Seq<(FileKey, u64)>) -> bool {
    forall|i: int, j: int|
        0 <= i < j < v.len() ==> !(#[trigger] v[i]).0.same((#[trigger] v[j]).0)
}

/// The map of interned ids holds exactly the listed files.
proof fn lemma_id_map(v: Seq<(FileKey, u64)>)
    requires
        distinct_files(v),
    ensures
        forall|i: int|
            0 <= i < v.len() ==> id_map(v).contains_key(
                ((#[trigger] v[i]).0.namespace, v[i].0.path@),
            ) && id_map(v)[(v[i].0.namespace, v[i].0.path@)] == v[i].1,
        forall|k: (u64, Seq<char>)| #[trigger]
            id_map(v).contains_key(k) ==> exists|i: int|
                0 <= i < v.len() && (#[trigger] v[i]).0.namespace == k.0 && v[i].0.path@ == k.1,
    decreases v.len(),
{
    if v.len() > 0 {
        let t = v.drop_last();
        assert(distinct_files(t)) by {
            assert forall|i: int, j: int| 0 <= i < j < t.len() implies !(#[trigger] t[i]).0.same(
                (#[trigger] t[j]).0,
            ) by {
                assert(!v[i].0.same(v[j].0));
            }
        }
        lemma_id_map(t);
        assert forall|i: int| 0 <= i < v.len() implies id_map(v).contains_key(
            ((#[trigger] v[i]).0.namespace, v[i].0.path@),
        ) && id_map(v)[(v[i].0.namespace, v[i].0.path@)] == v[i].1 by {
            if i < t.len() {
                assert(t[i] == v[i]);
                assert(!v[i].0.same(v[v.len() - 1].0));
            }
        }
        assert forall|k: (u64, Seq<char>)| #[trigger] id_map(v).contains_key(k) implies exists|
            i: int,
        |
            0 <= i < v.len() && (#[trigger] v[i]).0.namespace == k.0 && v[i].0.path@ == k.1 by {
            if k == (v.last().0.namespace, v.last().0.path@) {
                assert(v[v.len() - 1].0.namespace == k.0);
            } else {
                assert(id_map(t).contains_key(k));
                let i = choose|i: int|
                    0 <= i < t.len() && (#[trigger] t[i]).0.namespace == k.0 && t[i].0.path@ == k.1;
                assert(t[i] == v[i]);
                assert(v[i].0.namespace == k.0 && v[i].0.path@ == k.1);
            }
        }
    }
}

impl BlockCache {
    /// The block size is within bounds, the shards are sound, hold only blocks
    /// of their own and share the budget evenly, and interned ids are below the
    /// next one to hand out.
    pub closed spec fn wf(&self) -> bool {
        &&& MIN_BLOCK_SIZE <= self.block_size <= MAX_BLOCK_SIZE
        &&& self.shards@.len() > 0
        &&& forall|i: int|
            0 <= i < self.shards@.len() ==> (#[trigger] self.shards@[i]).wf()
                && self.shards@[i]@.budget == self.memory_budget as int / self.shards@.len() as int
                && lives_in(self.shards@[i]@.queue, i, self.shards@.len() as int)
        &&& distinct_files(self.ids@)
        &&& forall|i: int| 0 <= i < self.ids@.len() ==> (#[trigger] self.ids@[i]).1 < self.next_id
        &&& forall|i: int, j: int|
            0 <= i < j < self.ids@.len() ==> (#[trigger] self.ids@[i]).1 < (
            #[trigger] self.ids@[j]).1
    }

    /// A cache built from `config`, which is normalized first. `ssd` says that
    /// an SSD tier stands behind the memory tier.
    pub fn new(config: BlockCacheConfig, ssd: bool) -> (c: BlockCache)
        ensures
            c.wf(),
            exists|n: BlockCacheConfig| #[trigger]
                is_normal_form(config, n) && c@ == (CacheState {
                    block_size: n.block_size,
                    max_coalesce_blocks: (n.max_coalesce_bytes / n.block_size) as u32,
                    shards: Seq::new(
                        n.num_shards as nat,
                        |i: int|
                            ShardState {
                                queue: Seq::empty(),
                                hand: 0,
                                budget: n.memory_budget as int / n.num_shards as int,
                                in_flight: Set::empty(),
                            },
                    ),
                    files: FilesState { ids: Map::empty(), versions: Map::empty(), next_id: 0 },
                    memory_budget: n.memory_budget,
                    metrics: Metrics::zero(),
                    ssd,
                }),
    {
        let n: BlockCacheConfig = config.normalized();
        let per_shard: u64 = n.memory_budget / n.num_shards as u64;
        let mut shards: Vec<Shard> = Vec::new();
        let mut i: usize = 0;
        while i < n.num_shards
            invariant
                i <= n.num_shards,
                shards@.len() == i,
                forall|j: int|
                    0 <= j < i ==> (#[trigger] shards@[j]).wf() && shards@[j]@ == (ShardState {
                        queue: Seq::empty(),
                        hand: 0,
                        budget: per_shard as int,
                        in_flight: Set::empty(),
                    }),
            decreases n.num_shards - i,
        {
            shards.push(Shard::new(per_shard));
            i = i + 1;
        }
        let ratio: u64 = n.max_coalesce_bytes / n.block_size;
        proof {
            vstd::arithmetic::div_mod::lemma_div_is_ordered(
                n.block_size as int,
                n.max_coalesce_bytes as int,
                n.block_size as int,
            );
        }
        let max_coalesce_blocks: u32 = #[verifier::truncate] (ratio as u32);
        let c = BlockCache {
            block_size: n.block_size,
            max_coalesce_blocks,
            shards,
            ids: Vec::new(),
            versions: HashMap::new(),
            next_id: 0,
            memory_budget: n.memory_budget,
            metrics: Metrics::default(),
            ssd,
        };
        proof {
            assert(c@.shards =~= Seq::new(
                n.num_shards as nat,
                |i: int|
                    ShardState {
                        queue: Seq::empty(),
                        hand: 0,
                        budget: n.memory_budget as int / n.num_shards as int,
                        in_flight: Set::empty(),
                    },
            ));
            assert(is_normal_form(config, n));
        }
        c
    }

    /// The block quantum in bytes.
    pub fn block_size(&self) -> (n: u64)
        ensures
            n == self@.block_size,
            self.wf() ==> MIN_BLOCK_SIZE <= n <= MAX_BLOCK_SIZE,
    {
        proof {
            if self.wf() {
                self.wf_sound();
            }
        }
        self.block_size
    }

    /// The most blocks that one upstream fetch may hold.
    pub fn max_coalesce_blocks(&self) -> (n: u32)
        ensures
            n == self@.max_coalesce_blocks,
    {
        self.max_coalesce_blocks
    }

    /// The current memory-tier budget in bytes.
    pub fn memory_budget(&self) -> (n: u64)
        ensures
            n == self@.memory_budget,
    {
        self.memory_budget
    }

    /// A snapshot of the cache counters.
    pub fn stats(&self) -> (s: MetricsSnapshot)
        ensures
            s == self@.metrics.as_snapshot(),
    {
        self.metrics.snapshot()
    }
}

/// Counting evictions in two goes is counting them in one.
pub(crate) proof fn lemma_counted_append(m: Metrics, a: Seq<Slot>, b: Seq<Slot>)
    ensures
        counted_evictions(counted_evictions(m, a), b) == counted_evictions(m, a + b),
        wasted_credit(a + b) == wasted_credit(a) + wasted_credit(b),
        revisited(a + b) == revisited(a) + revisited(b),
    decreases b.len(),
{
    if b.len() == 0 {
        assert(a + b =~= a);
        assert(wasted_credit(a) + wasted_credit(b) =~= wasted_credit(a));
        assert(revisited(a) + revisited(b) =~= revisited(a));
    } else {
        lemma_counted_append(m, a, b.drop_last());
        assert((a + b).drop_last() =~= a + b.drop_last());
        assert((a + b).last() == b.last());
        assert(wasted_credit(a + b) =~= wasted_credit(a) + wasted_credit(b));
        assert(revisited(a + b) =~= revisited(a) + revisited(b));
    }
}

impl Effects {
    /// Nothing to do.
    pub fn none() -> (e: Effects)
        ensures
            e.releases@ == Seq::<Release>::empty(),
            admit_views(e.admits@) == Seq::<(BlockKey, Seq<u8>)>::empty(),
            e.forgets@ == Seq::<u64>::empty(),
    {
        let e = Effects { releases: Vec::new(), admits: Vec::new(), forgets: Vec::new() };
        assert(admit_views(e.admits@) =~= Seq::empty());
        e
    }

    /// Adds the credit that a demand read consumed, if there is any.
    pub(crate) fn consume(&mut self, credit: Option<Credit>)
        ensures
            final(self).releases@ == old(self).releases@ + release_of(
                credit,
                ReleaseOutcome::Consumed,
            ),
            final(self).admits@ == old(self).admits@,
            final(self).forgets@ == old(self).forgets@,
    {
        match credit {
            Some(c) => {
                self.releases.push(
                    Release {
                        ledger: c.ledger,
                        bytes: c.bytes,
                        outcome: ReleaseOutcome::Consumed,
                    },
                );
            },
            None => {},
        }
        assert(self.releases@ =~= old(self).releases@ + release_of(
            credit,
            ReleaseOutcome::Consumed,
        ));
    }
}

impl BlockCache {
    /// Accounts for evicted blocks: counts them, gives back the credit of those
    /// never read, and hands those read again to the SSD tier.
    fn admit_evicted(&mut self, out: Vec<Evicted>, effects: &mut Effects)
        ensures
            final(self)@ == old(self)@.with_metrics(
                counted_evictions(old(self)@.metrics, slots(out@)),
            ),
            *final(self) == (BlockCache { metrics: final(self).metrics, ..*old(self) }),
            final(effects).releases@ == old(effects).releases@ + wasted_credit(slots(out@)),
            admit_views(final(effects).admits@) == admit_views(old(effects).admits@) + old(
                self,
            )@.admitted(slots(out@)),
            final(effects).forgets@ == old(effects).forgets@,
    {
        let ghost all = slots(out@);
        let ghost m0 = self.metrics;
        let ghost r0 = effects.releases@;
        let ghost a0 = admit_views(effects.admits@);
        let mut i: usize = 0;
        proof {
            assert(all.take(0) =~= Seq::<Slot>::empty());
            assert(r0 + wasted_credit(all.take(0)) =~= r0);
            assert(a0 + self@.admitted(all.take(0)) =~= a0);
        }
        while i < out.len()
            invariant
                i <= out@.len(),
                all == slots(out@),
                self.ssd == old(self).ssd,
                self.metrics == counted_evictions(m0, all.take(i as int)),
                self@ == old(self)@.with_metrics(self.metrics),
                *self == (BlockCache { metrics: self.metrics, ..*old(self) }),
                m0 == old(self)@.metrics,
                r0 == old(effects).releases@,
                a0 == admit_views(old(effects).admits@),
                effects.releases@ == r0 + wasted_credit(all.take(i as int)),
                admit_views(effects.admits@) == a0 + old(self)@.admitted(all.take(i as int)),
                effects.forgets@ == old(effects).forgets@,
            decreases out@.len() - i,
        {
            proof {
                assert(all.take(i + 1).drop_last() =~= all.take(i as int));
                assert(all.take(i + 1).last() == out@[i as int]@);
            }
            let ghost rel = effects.releases@;
            let ghost adm = admit_views(effects.admits@);
            self.metrics.record_eviction();
            match out[i].block.credit {
                Some(c) => {
                    effects.releases.push(
                        Release {
                            ledger: c.ledger,
                            bytes: c.bytes,
                            outcome: ReleaseOutcome::Wasted,
                        },
                    );
                    self.metrics.record_prefetch_wasted();
                },
                None => {},
            }
            if self.ssd && out[i].block.ever_visited {
                effects.admits.push((out[i].key, bytes_clone(&out[i].block.data)));
                assert(admit_views(effects.admits@) =~= adm.push(
                    (all[i as int].key, all[i as int].block.data),
                ));
            }
            proof {
                assert(effects.releases@ =~= r0 + wasted_credit(all.take(i + 1)));
                assert(admit_views(effects.admits@) =~= a0 + old(self)@.admitted(all.take(i + 1)));
            }
            i = i + 1;
        }
        assert(all.take(out@.len() as int) =~= all);
    }

    /// Puts a block into the memory tier.
    pub(crate) fn insert_block(&mut self, key: BlockKey, block: Block, effects: &mut Effects)
        requires
            old(self).wf(),
        ensures
            final(self).wf(),
            final(self)@ == old(self)@.inserted(key, block@),
            final(effects).releases@ == old(effects).releases@ + wasted_credit(
                old(self)@.evicted_by(key, block@),
            ),
            admit_views(final(effects).admits@) == admit_views(old(effects).admits@) + old(
                self,
            )@.admitted(old(self)@.evicted_by(key, block@)),
            final(effects).forgets@ == old(effects).forgets@,
    {
        let i: usize = shard_index(key, self.shards.len());
        let ghost before = self@;
        let ghost n = self.shards@.len() as int;
        assert(self.shards@[i as int].wf());
        proof {
            let sh = self@.shards[i as int];
            assert(lives_in(sh.queue, i as int, n));
            assert(lives_in(sh.queue.push(Slot { key, block: block@ }), i as int, n));
            lemma_evicting_keeps_shards(
                sh.queue.push(Slot { key, block: block@ }),
                sh.hand,
                sh.budget,
                i as int,
                n,
            );
        }
        let out: Vec<Evicted> = self.shards[i].insert(key, block);
        assert(self@.shards =~= before.shards.update(
            i as int,
            before.shards[i as int].inserted(key, block@),
        ));
        self.admit_evicted(out, effects);
    }

    /// Records a demand read of the block, where it is resident, and returns the
    /// block's bytes. The first demand read of a prefetched block consumes its
    /// credit; only a repeated read marks the block as read again.
    pub fn note_demand_hit(
        &mut self,
        key: BlockKey,
        repeat_access: bool,
        effects: &mut Effects,
    ) -> (data: Option<Bytes>)
        requires
            old(self).wf(),
        ensures
            final(self).wf(),
            final(self)@ == old(self)@.demand_hit(key, repeat_access),
            final(effects).releases@ == old(effects).releases@ + old(self)@.demand_release(key),
            final(effects).admits@ == old(effects).admits@,
            final(effects).forgets@ == old(effects).forgets@,
            match data {
                Some(b) => old(self)@.resident(key) && content(b) == old(self)@.block(key).data,
                None => !old(self)@.resident(key),
            },
    {
        let i: usize = shard_index(key, self.shards.len());
        let ghost before = self@;
        match self.shards[i].demand_hit(key, repeat_access) {
            Some(hit) => {
                assert(self@.shards =~= before.shards.update(
                    i as int,
                    before.shards[i as int].hit(key, repeat_access),
                ));
                effects.consume(hit.1);
                if hit.1.is_some() {
                    self.metrics.record_prefetch_consumed();
                }
                Some(hit.0)
            },
            None => {
                assert(self@.shards =~= before.shards);
                assert(effects.releases@ + Seq::<Release>::empty() =~= effects.releases@);
                None
            },
        }
    }

    /// Whether the block is in the memory tier. This is no demand read.
    pub fn contains(&self, key: BlockKey) -> (r: bool)
        requires
            self.wf(),
        ensures
            r == self@.resident(key),
    {
        let i: usize = shard_index(key, self.shards.len());
        self.shards[i].contains(key)
    }

    /// Whether some reader is fetching the block.
    pub fn is_in_flight(&self, key: BlockKey) -> (r: bool)
        requires
            self.wf(),
        ensures
            r == self@.in_flight(key),
    {
        let i: usize = shard_index(key, self.shards.len());
        self.shards[i].in_flight_contains(key)
    }

    pub(crate) fn begin_flight(&mut self, key: BlockKey)
        requires
            old(self).wf(),
        ensures
            final(self).wf(),
            final(self)@ == old(self)@.flight_begun(key),
    {
        let i: usize = shard_index(key, self.shards.len());
        let ghost before = self@;
        self.shards[i].in_flight_insert(key);
        assert(self@.shards =~= before.flight_begun(key).shards);
    }

    pub(crate) fn end_flight(&mut self, key: BlockKey)
        requires
            old(self).wf(),
        ensures
            final(self).wf(),
            final(self)@ == old(self)@.flight_ended(key),
    {
        let i: usize = shard_index(key, self.shards.len());
        let ghost before = self@;
        self.shards[i].in_flight_remove(key);
        assert(self@.shards =~= before.flight_ended(key).shards);
    }

    /// Puts a block read from the SSD tier back into the memory tier, marked as
    /// read so that it is kept.
    pub fn promote_from_ssd(&mut self, key: BlockKey, bytes: Bytes) -> (effects: Effects)
        requires
            old(self).wf(),
        ensures
            final(self).wf(),
            final(self)@ == old(self)@.inserted(key, BlockState::promoted(content(bytes))),
            effects.releases@ == wasted_credit(
                old(self)@.evicted_by(key, BlockState::promoted(content(bytes))),
            ),
            admit_views(effects.admits@) == old(self)@.admitted(
                old(self)@.evicted_by(key, BlockState::promoted(content(bytes))),
            ),
            effects.forgets@ == Seq::<u64>::empty(),
    {
        let mut effects: Effects = Effects::none();
        let ghost out = self@.evicted_by(key, BlockState::promoted(content(bytes)));
        assert(Seq::<Release>::empty() + wasted_credit(out) =~= wasted_credit(out));
        assert(Seq::<(BlockKey, Seq<u8>)>::empty() + self@.admitted(out) =~= self@.admitted(out));
        self.insert_block(key, Block::new_promoted(bytes), &mut effects);
        effects
    }
}

/// The decision made after comparing a fetched version with the stored one.
#[derive(Clone, Copy, Debug, PartialEq, Eq, Structural)]
pub enum VersionDecision {
    /// The file is as it was.
    Unchanged,
    /// The file was never fetched before.
    FirstSeen,
    /// The file changed under its key.
    Overwritten,
}

impl FilesState {
    /// How a fetched version compares with the stored one.
    pub open spec fn decision(self, file_id: u64, version: FileVersion) -> VersionDecision {
        if !self.versions.contains_key(file_id) {
            VersionDecision::FirstSeen
        } else if self.versions[file_id].agrees(version) {
            VersionDecision::Unchanged
        } else {
            VersionDecision::Overwritten
        }
    }

    /// The files that the SSD tier has to forget after a fetch observed `version`.
    pub open spec fn outdated(self, file_id: u64, version: FileVersion) -> Seq<u64> {
        if self.decision(file_id, version) == VersionDecision::Overwritten {
            seq![file_id]
        } else {
            Seq::empty()
        }
    }

    /// The table after a fetch observed `version`.
    pub open spec fn observed(self, file_id: u64, version: FileVersion) -> FilesState {
        if self.decision(file_id, version) == VersionDecision::Unchanged {
            self
        } else {
            FilesState { versions: self.versions.insert(file_id, version), ..self }
        }
    }

    /// The table after the file was interned.
    pub open spec fn interned(self, file: (u64, Seq<char>)) -> FilesState {
        if self.ids.contains_key(file) {
            self
        } else {
            FilesState {
                ids: self.ids.insert(file, self.next_id),
                next_id: (self.next_id + 1) as u64,
                ..self
            }
        }
    }
}

impl CacheState {
    /// The cache with its file table as given.
    pub open spec fn with_files(self, files: FilesState) -> CacheState {
        CacheState { files, ..self }
    }

    /// The cache after a fetch observed `version` of a file: on a change every
    /// block of the file is dropped.
    pub open spec fn reconciled(self, file_id: u64, version: FileVersion) -> CacheState {
        let noted = self.with_files(self.files.observed(file_id, version));
        if self.files.decision(file_id, version) == VersionDecision::Overwritten {
            noted.without_blocks_of(file_id).with_metrics(
                Metrics {
                    invalidations: self.metrics.invalidations.wrapping_add(1),
                    ..self.metrics
                },
            )
        } else {
            noted
        }
    }

    /// The shards after the budget of each was set to `per_shard`.
    pub open spec fn resized_shard(self, i: int, per_shard: int) -> ShardState {
        let r = evicted_until(self.shards[i].queue, self.shards[i].hand, per_shard);
        (ShardState { budget: per_shard, ..self.shards[i] }).with_queue(r.0, r.1)
    }

    /// What shrinking the first `n` shards to `per_shard` evicts.
    pub open spec fn resize_evictions(self, n: int, per_shard: int) -> Seq<Slot>
        decreases n,
    {
        if n <= 0 {
            Seq::empty()
        } else {
            self.resize_evictions(n - 1, per_shard) + evicted_until(
                self.shards[n - 1].queue,
                self.shards[n - 1].hand,
                per_shard,
            ).2
        }
    }

    /// The cache after its memory budget was set to `bytes`.
    pub open spec fn resized(self, bytes: u64) -> CacheState {
        let n = self.shards.len() as int;
        let per_shard = bytes as int / n;
        CacheState {
            shards: Seq::new(self.shards.len(), |i: int| self.resized_shard(i, per_shard)),
            memory_budget: bytes,
            metrics: counted_evictions(self.metrics, self.resize_evictions(n, per_shard)),
            ..self
        }
    }

    /// The number of fetches in flight in the first `n` shards.
    pub open spec fn flights(self, n: int) -> int
        decreases n,
    {
        if n <= 0 {
            0
        } else {
            self.flights(n - 1) + self.shards[n - 1].in_flight.len()
        }
    }
}

impl BlockCache {
    fn find_file(&self, file: &FileKey) -> (r: Option<u64>)
        requires
            self.wf(),
        ensures
            match r {
                Some(id) => self@.files.ids.contains_key((file.namespace, file.path@))
                    && self@.files.ids[(file.namespace, file.path@)] == id,
                None => !self@.files.ids.contains_key((file.namespace, file.path@)),
            },
    {
        proof {
            lemma_id_map(self.ids@);
        }
        let mut i: usize = 0;
        while i < self.ids.len()
            invariant
                i <= self.ids@.len(),
                self@.files.ids == id_map(self.ids@),
                forall|j: int|
                    0 <= j < self.ids@.len() ==> id_map(self.ids@).contains_key(
                        ((#[trigger] self.ids@[j]).0.namespace, self.ids@[j].0.path@),
                    ) && id_map(self.ids@)[(self.ids@[j].0.namespace, self.ids@[j].0.path@)]
                        == self.ids@[j].1,
                forall|j: int| 0 <= j < i ==> !(#[trigger] self.ids@[j]).0.same(*file),
            decreases self.ids@.len() - i,
        {
            if self.ids[i].0.same_as(file) {
                assert(self.ids@[i as int].0.same(*file));
                return Some(self.ids[i].1);
            }
            i = i + 1;
        }
        None
    }

    /// The id of a file, assigned on first sight.
    pub fn intern(&mut self, file: &FileKey) -> (id: u64)
        requires
            old(self).wf(),
            old(self)@.files.next_id < u64::MAX,
        ensures
            final(self).wf(),
            final(self)@ == old(self)@.with_files(
                old(self)@.files.interned((file.namespace, file.path@)),
            ),
            id == final(self)@.files.ids[(file.namespace, file.path@)],
    {
        match self.find_file(file) {
            Some(id) => id,
            None => {
                let id: u64 = self.next_id;
                let ghost before = self.ids@;
                proof {
                    lemma_id_map(before);
                }
                self.ids.push((file.duplicate(), id));
                self.next_id = self.next_id + 1;
                proof {
                    let after = self.ids@;
                    assert(after.drop_last() =~= before);
                    assert(distinct_files(after)) by {
                        assert forall|i: int, j: int| 0 <= i < j < after.len() implies !(
                        #[trigger] after[i]).0.same((#[trigger] after[j]).0) by {
                            assert(after[i] == before[i]);
                            if j < before.len() {
                                assert(after[j] == before[j]);
                                assert(!before[i].0.same(before[j].0));
                            } else {
                                assert(id_map(before).contains_key(
                                    (before[i].0.namespace, before[i].0.path@),
                                ));
                            }
                        }
                    }
                    assert forall|i: int| 0 <= i < after.len() implies (#[trigger] after[i]).1
                        < self.next_id by {
                        if i < before.len() {
                            assert(after[i] == before[i]);
                            assert(before[i].1 < id);
                        }
                    }
                    assert forall|i: int, j: int| 0 <= i < j < after.len() implies (
                    #[trigger] after[i]).1 < (#[trigger] after[j]).1 by {
                        assert(after[i] == before[i]);
                        if j < before.len() {
                            assert(after[j] == before[j]);
                        }
                    }
                }
                id
            },
        }
    }

    /// The id that the next file gets. While it is not the last there is, a file can be
    /// interned.
    pub fn next_file_id(&self) -> (id: u64)
        ensures
            id == self@.files.next_id,
    {
        self.next_id
    }

    /// The version most recently captured for a file, if it was ever fetched.
    pub fn file_version(&self, file: &FileKey) -> (v: Option<FileVersion>)
        requires
            self.wf(),
        ensures
            match v {
                Some(x) => self@.files.ids.contains_key((file.namespace, file.path@))
                    && self@.files.versions.contains_key(
                    self@.files.ids[(file.namespace, file.path@)],
                ) && x == self@.files.versions[self@.files.ids[(file.namespace, file.path@)]],
                None => !(self@.files.ids.contains_key((file.namespace, file.path@))
                    && self@.files.versions.contains_key(
                    self@.files.ids[(file.namespace, file.path@)],
                )),
            },
    {
        match self.find_file(file) {
            None => None,
            Some(id) => match self.versions.get(&id) {
                Some(v) => Some(v.duplicate()),
                None => None,
            },
        }
    }

    /// Drops every block of a file from the memory tier.
    fn invalidate_blocks(&mut self, file_id: u64)
        requires
            old(self).wf(),
        ensures
            final(self).wf(),
            final(self)@ == old(self)@.without_blocks_of(file_id),
    {
        let ghost before = self.shards@;
        let mut i: usize = 0;
        while i < self.shards.len()
            invariant
                i <= self.shards@.len() == before.len(),
                before == old(self).shards@,
                old(self).wf(),
                forall|j: int|
                    i <= j < before.len() ==> #[trigger] self.shards@[j] == before[j],
                forall|j: int|
                    0 <= j < i ==> (#[trigger] self.shards@[j]).wf() && self.shards@[j]@
                        == before[j]@.with_queue(
                        without_file(before[j]@.queue, file_id),
                        without_file(before[j]@.queue.take(before[j]@.hand), file_id).len() as int,
                    ),
                self.block_size == old(self).block_size,
                self.max_coalesce_blocks == old(self).max_coalesce_blocks,
                self.ids == old(self).ids,
                self.versions == old(self).versions,
                self.next_id == old(self).next_id,
                self.memory_budget == old(self).memory_budget,
                self.metrics == old(self).metrics,
                self.ssd == old(self).ssd,
            decreases self.shards@.len() - i,
        {
            assert(self.shards@[i as int] == before[i as int]);
            assert(before[i as int].wf());
            self.shards[i].remove_file_blocks(file_id);
            i = i + 1;
        }
        proof {
            assert(self@.shards =~= old(self)@.without_blocks_of(file_id).shards);
            assert forall|j: int| 0 <= j < self.shards@.len() implies (
            #[trigger] self.shards@[j]).wf() && self.shards@[j]@.budget == self.memory_budget as int
                / self.shards@.len() as int && lives_in(
                self.shards@[j]@.queue,
                j,
                self.shards@.len() as int,
            ) by {
                assert(before[j].wf());
                lemma_dropping_keeps_shards(
                    before[j]@.queue,
                    file_id,
                    j,
                    self.shards@.len() as int,
                );
            }
        }
    }

    /// Compares a fetched version with the stored one. On a change, every block
    /// of the file is dropped and the new version recorded. Says whether it was one.
    pub(crate) fn reconcile_version(&mut self, file_id: u64, version: &FileVersion) -> (changed:
        bool)
        requires
            old(self).wf(),
        ensures
            final(self).wf(),
            final(self)@ == old(self)@.reconciled(file_id, *version),
            changed == (old(self)@.files.decision(file_id, *version)
                == VersionDecision::Overwritten),
    {
        let decision: VersionDecision = match self.versions.get(&file_id) {
            None => VersionDecision::FirstSeen,
            Some(existing) => if existing.matches(version) {
                VersionDecision::Unchanged
            } else {
                VersionDecision::Overwritten
            },
        };
        assert(decision == old(self)@.files.decision(file_id, *version));
        match decision {
            VersionDecision::Unchanged => false,
            VersionDecision::FirstSeen => {
                self.versions.insert(file_id, version.duplicate());
                false
            },
            VersionDecision::Overwritten => {
                self.versions.insert(file_id, version.duplicate());
                self.invalidate_blocks(file_id);
                self.metrics.record_invalidation();
                true
            },
        }
    }

    /// Drops all cached state of a file, and says which file the SSD tier has to forget.
    pub fn invalidate_file(&mut self, file: &FileKey) -> (forget: Option<u64>)
        requires
            old(self).wf(),
        ensures
            final(self).wf(),
            match forget {
                Some(id) => old(self)@.files.ids.contains_key((file.namespace, file.path@)) && id
                    == old(self)@.files.ids[(file.namespace, file.path@)],
                None => !old(self)@.files.ids.contains_key((file.namespace, file.path@)),
            },
            ({
                let key = (file.namespace, file.path@);
                let id = old(self)@.files.ids[key];
                final(self)@ == if old(self)@.files.ids.contains_key(key) {
                    old(self)@.without_blocks_of(id).with_files(
                        FilesState {
                            versions: old(self)@.files.versions.remove(id),
                            ..old(self)@.files
                        },
                    )
                } else {
                    old(self)@
                }
            }),
    {
        match self.find_file(file) {
            None => None,
            Some(id) => {
                self.invalidate_blocks(id);
                self.versions.remove(&id);
                Some(id)
            },
        }
    }

    /// Changes the memory budget. A reduction evicts until every shard is within
    /// its share.
    pub fn set_memory_budget(&mut self, bytes: u64) -> (effects: Effects)
        requires
            old(self).wf(),
        ensures
            final(self).wf(),
            final(self)@ == old(self)@.resized(bytes),
            ({
                let n = old(self)@.shards.len() as int;
                let out = old(self)@.resize_evictions(n, bytes as int / n);
                effects.releases@ == wasted_credit(out) && admit_views(effects.admits@) == old(
                    self,
                )@.admitted(out)
            }),
            effects.forgets@ == Seq::<u64>::empty(),
    {
        let ghost before = self@;
        let ghost exec_before = self.shards@;
        let n: usize = self.shards.len();
        let per_shard: u64 = bytes / n as u64;
        self.memory_budget = bytes;
        let mut effects: Effects = Effects::none();
        let mut i: usize = 0;
        proof {
            assert(before.admitted(Seq::<Slot>::empty()) =~= Seq::empty());
        }
        while i < n
            invariant
                i <= n == self.shards@.len() == exec_before.len() == before.shards.len(),
                n > 0,
                per_shard as int == bytes as int / n as int,
                before == old(self)@,
                exec_before == old(self).shards@,
                old(self).wf(),
                forall|j: int| i <= j < n ==> #[trigger] self.shards@[j] == exec_before[j],
                forall|j: int|
                    0 <= j < i ==> (#[trigger] self.shards@[j]).wf() && self.shards@[j]@
                        == before.resized_shard(j, per_shard as int),
                self.block_size == old(self).block_size,
                self.max_coalesce_blocks == old(self).max_coalesce_blocks,
                self.ids == old(self).ids,
                self.versions == old(self).versions,
                self.next_id == old(self).next_id,
                self.memory_budget == bytes,
                self.ssd == old(self).ssd,
                self.metrics == counted_evictions(
                    before.metrics,
                    before.resize_evictions(i as int, per_shard as int),
                ),
                effects.releases@ == wasted_credit(
                    before.resize_evictions(i as int, per_shard as int),
                ),
                admit_views(effects.admits@) == before.admitted(
                    before.resize_evictions(i as int, per_shard as int),
                ),
                effects.forgets@ == Seq::<u64>::empty(),
            decreases n - i,
        {
            assert(self.shards@[i as int] == exec_before[i as int]);
            assert(exec_before[i as int].wf());
            assert(before.shards[i as int] == exec_before[i as int]@);
            let ghost done = before.resize_evictions(i as int, per_shard as int);
            let out: Vec<Evicted> = self.shards[i].set_budget(per_shard);
            let ghost fresh = slots(out@);
            self.admit_evicted(out, &mut effects);
            proof {
                lemma_counted_append(before.metrics, done, fresh);
                assert(before.admitted(done + fresh) =~= before.admitted(done) + before.admitted(
                    fresh,
                ));
            }
            i = i + 1;
        }
        proof {
            assert(self@.shards =~= before.resized(bytes).shards);
            assert forall|j: int| 0 <= j < self.shards@.len() implies (
            #[trigger] self.shards@[j]).wf() && self.shards@[j]@.budget == self.memory_budget as int
                / self.shards@.len() as int && lives_in(
                self.shards@[j]@.queue,
                j,
                self.shards@.len() as int,
            ) by {
                assert(exec_before[j].wf());
                lemma_evicting_keeps_shards(
                    before.shards[j].queue,
                    before.shards[j].hand,
                    per_shard as int,
                    j,
                    n as int,
                );
            }
        }
        effects
    }
}

impl CacheState {
    /// The shards hold no block twice and none of another shard, are within
    /// their budgets, and share the memory budget evenly; the block size is
    /// within bounds.
    pub open spec fn sound(self) -> bool {
        &&& MIN_BLOCK_SIZE <= self.block_size <= MAX_BLOCK_SIZE
        &&& self.shards.len() > 0
        &&& forall|i: int|
            0 <= i < self.shards.len() ==> sound_shard(#[trigger] self.shards[i])
                && self.shards[i].budget == self.memory_budget as int / self.shards.len() as int
                && lives_in(self.shards[i].queue, i, self.shards.len() as int)
    }
}

/// The shard holds no block twice and is within its budget.
pub open spec fn sound_shard(s: ShardState) -> bool {
    &&& distinct_keys(s.queue)
    &&& total_charge(s.queue) <= s.budget
    &&& 0 <= s.hand <= s.queue.len()
}

impl BlockCache {
    /// The invariant makes the state sound.
    pub proof fn wf_sound(&self)
        requires
            self.wf(),
        ensures
            self@.sound(),
    {
        assert forall|i: int| 0 <= i < self@.shards.len() implies sound_shard(
            #[trigger] self@.shards[i],
        ) && self@.shards[i].budget == self@.memory_budget as int / self@.shards.len() as int
            && lives_in(self@.shards[i].queue, i, self@.shards.len() as int) by {
            assert(self.shards@[i].wf());
            self.shards@[i].wf_facts();
        }
    }

    /// The counters, to be updated in place.
    pub(crate) fn metrics_mut(&mut self) -> (m: &mut Metrics)
        requires
            old(self).wf(),
        ensures
            *m == old(self)@.metrics,
            final(self)@ == old(self)@.with_metrics(*final(m)),
            final(self).wf(),
    {
        &mut self.metrics
    }

    /// Records that a file's data prefetch was skipped.
    pub fn note_prefetch_file_skipped(&mut self)
        requires
            old(self).wf(),
        ensures
            final(self).wf(),
            final(self)@ == old(self)@.with_metrics(
                Metrics {
                    prefetch_files_skipped: old(self)@.metrics.prefetch_files_skipped.wrapping_add(
                        1,
                    ),
                    ..old(self)@.metrics
                },
            ),
    {
        self.metrics.record_prefetch_file_skipped();
    }

    /// Number of fetches in flight.
    pub fn in_flight_len(&self) -> (n: usize)
        requires
            self.wf(),
            self@.flights(self@.shards.len() as int) <= usize::MAX,
        ensures
            n == self@.flights(self@.shards.len() as int),
    {
        let mut n: usize = 0;
        let mut i: usize = 0;
        while i < self.shards.len()
            invariant
                self.wf(),
                i <= self.shards@.len(),
                n == self@.flights(i as int),
                self@.flights(self@.shards.len() as int) <= usize::MAX,
            decreases self.shards@.len() - i,
        {
            proof {
                lemma_flights_grow(self@, i + 1, self@.shards.len() as int);
            }
            assert(self.shards@[i as int].wf());
            n = n + self.shards[i].in_flight_len();
            i = i + 1;
        }
        n
    }

    /// Drops all blocks and captured versions, so that later reads fetch anew.
    /// Ids already handed out are not handed out again.
    pub fn clear(&mut self)
        requires
            old(self).wf(),
        ensures
            final(self).wf(),
            final(self)@ == (CacheState {
                shards: Seq::new(
                    old(self)@.shards.len(),
                    |i: int| old(self)@.shards[i].with_queue(Seq::empty(), 0),
                ),
                files: FilesState {
                    ids: Map::empty(),
                    versions: Map::empty(),
                    next_id: old(self)@.files.next_id,
                },
                ..old(self)@
            }),
    {
        let ghost before = self.shards@;
        let mut i: usize = 0;
        while i < self.shards.len()
            invariant
                i <= self.shards@.len() == before.len(),
                before == old(self).shards@,
                old(self).wf(),
                forall|j: int|
                    i <= j < before.len() ==> #[trigger] self.shards@[j] == before[j],
                forall|j: int|
                    0 <= j < i ==> (#[trigger] self.shards@[j]).wf() && self.shards@[j]@
                        == before[j]@.with_queue(Seq::empty(), 0),
                self.block_size == old(self).block_size,
                self.max_coalesce_blocks == old(self).max_coalesce_blocks,
                self.ids == old(self).ids,
                self.versions == old(self).versions,
                self.next_id == old(self).next_id,
                self.memory_budget == old(self).memory_budget,
                self.metrics == old(self).metrics,
                self.ssd == old(self).ssd,
            decreases self.shards@.len() - i,
        {
            assert(self.shards@[i as int] == before[i as int]);
            assert(before[i as int].wf());
            self.shards[i].clear();
            i = i + 1;
        }
        self.ids.clear();
        self.versions.clear();
        proof {
            assert(self@.shards =~= Seq::new(
                old(self)@.shards.len(),
                |i: int| old(self)@.shards[i].with_queue(Seq::empty(), 0),
            ));
            assert forall|j: int| 0 <= j < self.shards@.len() implies (
            #[trigger] self.shards@[j]).wf() && self.shards@[j]@.budget == self.memory_budget as int
                / self.shards@.len() as int by {
                assert(before[j].wf());
            }
        }
    }
}

proof fn lemma_flights_grow(s: CacheState, a: int, b: int)
    requires
        a <= b <= s.shards.len(),
    ensures
        s.flights(a) <= s.flights(b),
    decreases b - a,
{
    if a < b {
        lemma_flights_grow(s, a, b - 1);
    }
}

impl FilesState {
    /// Ids are below the next one to hand out, and no two files share one.
    pub open spec fn unique_ids(self) -> bool {
        &&& forall|k: (u64, Seq<char>)| #[trigger]
            self.ids.contains_key(k) ==> self.ids[k] < self.next_id
        &&& forall|a: (u64, Seq<char>), b: (u64, Seq<char>)|
            #[trigger] self.ids.contains_key(a) && #[trigger] self.ids.contains_key(b) && a != b
                ==> self.ids[a] != self.ids[b]
    }
}

impl BlockCache {
    /// No two files share an id, and no file has the id that comes next.
    pub proof fn file_ids_are_unique(&self)
        requires
            self.wf(),
        ensures
            self@.files.unique_ids(),
    {
        let v = self.ids@;
        lemma_id_map(v);
        assert forall|k: (u64, Seq<char>)| #[trigger]
            self@.files.ids.contains_key(k) implies self@.files.ids[k] < self@.files.next_id by {
            let i = choose|i: int|
                0 <= i < v.len() && (#[trigger] v[i]).0.namespace == k.0 && v[i].0.path@ == k.1;
            assert(k == (v[i].0.namespace, v[i].0.path@));
        }
        assert forall|a: (u64, Seq<char>), b: (u64, Seq<char>)|
            #[trigger] self@.files.ids.contains_key(a) && #[trigger] self@.files.ids.contains_key(b)
                && a != b implies self@.files.ids[a] != self@.files.ids[b] by {
            let i = choose|i: int|
                0 <= i < v.len() && (#[trigger] v[i]).0.namespace == a.0 && v[i].0.path@ == a.1;
            let j = choose|j: int|
                0 <= j < v.len() && (#[trigger] v[j]).0.namespace == b.0 && v[j].0.path@ == b.1;
            assert(a == (v[i].0.namespace, v[i].0.path@));
            assert(b == (v[j].0.namespace, v[j].0.path@));
            if i < j {
                assert(v[i].1 < v[j].1);
            } else if j < i {
                assert(v[j].1 < v[i].1);
            }
        }
    }
}

/// Interning keeps ids unique: a file keeps the id it has, and a file seen for
/// the first time gets one that no file has or had.
pub proof fn interning_keeps_ids_unique(f: FilesState, file: (u64, Seq<char>))
    requires
        f.unique_ids(),
        f.next_id < u64::MAX,
    ensures
        f.interned(file).unique_ids(),
        f.interned(file).ids.contains_key(file),
        forall|k: (u64, Seq<char>)| #[trigger]
            f.ids.contains_key(k) ==> f.interned(file).ids.contains_key(k) && f.interned(
                file,
            ).ids[k] == f.ids[k],
        f.interned(file).interned(file) == f.interned(file),
        !f.ids.contains_key(file) ==> f.interned(file).ids[file] == f.next_id,
{
}

/// Credit that is given back is all of it, to the ledger that it was charged to, and with the
/// outcome it had; a block without credit gives none back.
pub proof fn credit_goes_back_to_its_ledger(credit: Option<Credit>, outcome: ReleaseOutcome)
    ensures
        credit is None ==> release_of(credit, outcome).len() == 0,
        credit matches Some(c) ==> {
            let r = release_of(credit, outcome);
            r.len() == 1 && r[0].ledger == c.ledger && r[0].bytes == c.bytes && r[0].outcome
                == outcome
        },
{
}

/// The evicted blocks that hold credit waste it, each in its turn, and the others waste none.
pub proof fn evicted_credit_is_wasted(out: Seq<Slot>)
    ensures
        wasted_credit(out) == out.filter(|x: Slot| x.block.credit is Some).map(
            |i: int, x: Slot|
                Release {
                    ledger: x.block.credit->0.ledger,
                    bytes: x.block.credit->0.bytes,
                    outcome: ReleaseOutcome::Wasted,
                },
        ),
    decreases out.len(),
{
    reveal(Seq::filter);
    if out.len() > 0 {
        evicted_credit_is_wasted(out.drop_last());
    }
    assert(wasted_credit(out) =~= out.filter(|x: Slot| x.block.credit is Some).map(
        |i: int, x: Slot|
            Release {
                ledger: x.block.credit->0.ledger,
                bytes: x.block.credit->0.bytes,
                outcome: ReleaseOutcome::Wasted,
            },
    ));
}

/// With an SSD tier the evicted blocks that were read again go to it, with their bytes and in
/// their order, and no others do; without one none does.
pub proof fn blocks_read_again_go_to_the_ssd(s: CacheState, out: Seq<Slot>)
    ensures
        s.ssd ==> s.admitted(out) == out.filter(|x: Slot| x.block.ever_visited).map(
            |i: int, x: Slot| (x.key, x.block.data),
        ),
        !s.ssd ==> s.admitted(out).len() == 0,
    decreases out.len(),
{
    reveal(Seq::filter);
    if out.len() > 0 {
        blocks_read_again_go_to_the_ssd(s, out.drop_last());
    }
    assert(revisited(out) =~= out.filter(|x: Slot| x.block.ever_visited).map(
        |i: int, x: Slot| (x.key, x.block.data),
    )) by {
        if out.len() > 0 {
            blocks_read_again_go_to_the_ssd(
                CacheState { ssd: true, ..s },
                out.drop_last(),
            );
            assert((CacheState { ssd: true, ..s }).admitted(out.drop_last()) == revisited(
                out.drop_last(),
            ));
        }
    }
}

/// Every evicted block counts as evicted, those that still held credit count as wasted too,
/// and no other counter moves.
pub proof fn evictions_are_counted(m: Metrics, out: Seq<Slot>)
    ensures
        counted_evictions(m, out) == (Metrics {
            evictions: counted_evictions(m, out).evictions,
            prefetch_blocks_wasted: counted_evictions(m, out).prefetch_blocks_wasted,
            ..m
        }),
        m.evictions + out.len() <= u64::MAX ==> counted_evictions(m, out).evictions == m.evictions
            + out.len(),
        m.prefetch_blocks_wasted + wasted_credit(out).len() <= u64::MAX ==> counted_evictions(
            m,
            out,
        ).prefetch_blocks_wasted == m.prefetch_blocks_wasted + wasted_credit(out).len(),
    decreases out.len(),
{
    if out.len() > 0 {
        evictions_are_counted(m, out.drop_last());
    }
}

/// The first version of a file is taken as it is; a later one changes nothing where it agrees
/// with the stored one, and takes its place where it does not. Only then is the file to be
/// forgotten, and other files are never affected.
pub proof fn a_fetched_version_is_remembered(f: FilesState, file_id: u64, version: FileVersion)
    ensures
        f.observed(file_id, version).ids == f.ids && f.observed(file_id, version).next_id
            == f.next_id,
        f.observed(file_id, version).versions.contains_key(file_id),
        !f.versions.contains_key(file_id) || !f.versions[file_id].agrees(version) ==> f.observed(
            file_id,
            version,
        ).versions[file_id] == version,
        f.versions.contains_key(file_id) && f.versions[file_id].agrees(version) ==> f.observed(
            file_id,
            version,
        ) == f,
        forall|other: u64|
            other != file_id ==> (#[trigger] f.observed(file_id, version).versions.contains_key(
                other,
            ) <==> f.versions.contains_key(other)) && f.observed(file_id, version).versions[other]
                == f.versions[other],
        f.outdated(file_id, version).len() > 0 <==> f.versions.contains_key(file_id)
            && !f.versions[file_id].agrees(version),
        f.outdated(file_id, version).len() <= 1,
        forall|i: int|
            0 <= i < f.outdated(file_id, version).len() ==> #[trigger] f.outdated(
                file_id,
                version,
            )[i] == file_id,
{
}

/// A change of a file is counted once and drops its blocks; anything else drops none.
pub proof fn a_changed_file_is_dropped(s: CacheState, file_id: u64, version: FileVersion)
    ensures
        ({
            let t = s.reconciled(file_id, version);
            let changed = s.files.versions.contains_key(file_id) && !s.files.versions[file_id].agrees(
                version,
            );
            &&& t.files == s.files.observed(file_id, version)
            &&& t.block_size == s.block_size && t.memory_budget == s.memory_budget && t.ssd == s.ssd
            &&& t.max_coalesce_blocks == s.max_coalesce_blocks
            &&& t.shards.len() == s.shards.len()
            &&& !changed ==> t.shards == s.shards && t.metrics == s.metrics
            &&& changed ==> t.metrics == (Metrics {
                invalidations: t.metrics.invalidations,
                ..s.metrics
            })
            &&& changed && s.metrics.invalidations < u64::MAX ==> t.metrics.invalidations
                == s.metrics.invalidations + 1
            &&& changed ==> forall|i: int|
                0 <= i < s.shards.len() ==> (#[trigger] t.shards[i]).queue == s.shards[i].queue.filter(
                    |x: Slot| x.key.0 != file_id,
                ) && t.shards[i].in_flight == s.shards[i].in_flight && t.shards[i].budget
                    == s.shards[i].budget
        }),
{
    assert forall|i: int| 0 <= i < s.shards.len() implies without_file(
        (#[trigger] s.shards[i]).queue,
        file_id,
    ) == s.shards[i].queue.filter(|x: Slot| x.key.0 != file_id) by {
        the_blocks_of_other_files_stay_in_order(s.shards[i].queue, file_id);
    }
}

/// A demand read of a block that was read ahead consumes its credit and counts as one that
/// was of use; one of any other block does neither.
pub proof fn a_read_consumes_the_credit_of_a_block(s: CacheState, key: BlockKey, repeat: bool)
    ensures
        ({
            let t = s.demand_hit(key, repeat);
            let paid = s.resident(key) && s.block(key).credit is Some;
            &&& paid ==> s.demand_release(key).len() == 1 && s.demand_release(key)[0] == (Release {
                ledger: s.block(key).credit->0.ledger,
                bytes: s.block(key).credit->0.bytes,
                outcome: ReleaseOutcome::Consumed,
            })
            &&& !paid ==> s.demand_release(key).len() == 0 && t.metrics == s.metrics
            &&& paid ==> t.metrics == (Metrics {
                prefetch_blocks_consumed: t.metrics.prefetch_blocks_consumed,
                ..s.metrics
            })
            &&& paid && s.metrics.prefetch_blocks_consumed < u64::MAX
                ==> t.metrics.prefetch_blocks_consumed == s.metrics.prefetch_blocks_consumed + 1
            &&& t.files == s.files && t.memory_budget == s.memory_budget
            &&& !s.resident(key) ==> t == s
        }),
{
}

/// A budget that is no smaller evicts nothing, and every shard gets its share of it.
pub proof fn a_larger_budget_evicts_nothing(s: CacheState, bytes: u64)
    requires
        s.sound(),
    ensures
        s.resized(bytes).memory_budget == bytes,
        forall|i: int|
            0 <= i < s.shards.len() ==> (#[trigger] s.resized(bytes).shards[i]).budget
                == bytes as int / s.shards.len() as int && s.resized(bytes).shards[i].in_flight
                == s.shards[i].in_flight,
        bytes >= s.memory_budget ==> s.resize_evictions(
            s.shards.len() as int,
            bytes as int / s.shards.len() as int,
        ).len() == 0 && s.resized(bytes).metrics == s.metrics,
        bytes >= s.memory_budget ==> forall|i: int|
            0 <= i < s.shards.len() ==> (#[trigger] s.resized(bytes).shards[i]).queue
                == s.shards[i].queue && s.resized(bytes).shards[i].hand == s.shards[i].hand,
{
    let n = s.shards.len() as int;
    let share = bytes as int / n;
    if bytes >= s.memory_budget {
        vstd::arithmetic::div_mod::lemma_div_is_ordered(s.memory_budget as int, bytes as int, n);
        vstd::arithmetic::div_mod::lemma_div_pos_is_pos(bytes as int, n);
        assert forall|i: int| 0 <= i < n implies evicted_until(
            (#[trigger] s.shards[i]).queue,
            s.shards[i].hand,
            share,
        ) == (s.shards[i].queue, s.shards[i].hand, Seq::<Slot>::empty()) by {
            assert(sound_shard(s.shards[i]));
            no_more_is_evicted_than_has_to_be(s.shards[i].queue, s.shards[i].hand, share);
            assert(evicted_until(s.shards[i].queue, s.shards[i].hand, share).2 =~= Seq::empty());
        }
        lemma_nothing_resized(s, n, share);
    }
}

proof fn lemma_nothing_resized(s: CacheState, n: int, share: int)
    requires
        0 <= n <= s.shards.len(),
        forall|i: int|
            0 <= i < n ==> evicted_until(
                (#[trigger] s.shards[i]).queue,
                s.shards[i].hand,
                share,
            ).2.len() == 0,
    ensures
        s.resize_evictions(n, share).len() == 0,
    decreases n,
{
    if n > 0 {
        lemma_nothing_resized(s, n - 1, share);
        assert(evicted_until(s.shards[n - 1].queue, s.shards[n - 1].hand, share).2.len() == 0);
    }
}

/// What a smaller budget evicts is what each shard evicts, one shard after the other.
pub proof fn shards_are_shrunk_one_by_one(s: CacheState, n: int, share: int)
    requires
        0 <= n <= s.shards.len(),
    ensures
        s.resize_evictions(n, share) == Seq::new(
            n as nat,
            |i: int| evicted_until(s.shards[i].queue, s.shards[i].hand, share).2,
        ).flatten(),
    decreases n,
{
    let all = Seq::new(
        n as nat,
        |i: int| evicted_until(s.shards[i].queue, s.shards[i].hand, share).2,
    );
    all.lemma_flatten_and_flatten_alt_are_equivalent();
    if n > 0 {
        let less = Seq::new(
            (n - 1) as nat,
            |i: int| evicted_until(s.shards[i].queue, s.shards[i].hand, share).2,
        );
        shards_are_shrunk_one_by_one(s, n - 1, share);
        less.lemma_flatten_and_flatten_alt_are_equivalent();
        assert(all.drop_last() =~= less);
    }
}

/// Every fetch in flight counts once: one that begins makes one more.
pub proof fn flights_are_counted(s: CacheState, key: BlockKey)
    requires
        s.shards.len() > 0,
        forall|i: int| 0 <= i < s.shards.len() ==> (#[trigger] s.shards[i]).in_flight.finite(),
        !s.in_flight(key),
    ensures
        s.flight_begun(key).flights(s.shards.len() as int) == s.flights(s.shards.len() as int) + 1,
        (forall|i: int| 0 <= i < s.shards.len() ==> (#[trigger] s.shards[i]).in_flight.len() == 0)
            ==> s.flights(s.shards.len() as int) == 0,
{
    vstd::arithmetic::div_mod::lemma_mod_bound(key_hash(key) as int, s.shards.len() as int);
    lemma_one_more_flight(s, key, s.shards.len() as int);
    if forall|i: int| 0 <= i < s.shards.len() ==> (#[trigger] s.shards[i]).in_flight.len() == 0 {
        lemma_no_flights(s, s.shards.len() as int);
    }
}

proof fn lemma_one_more_flight(s: CacheState, key: BlockKey, n: int)
    requires
        0 <= n <= s.shards.len(),
        0 <= s.home(key) < s.shards.len(),
        s.shards[s.home(key)].in_flight.finite(),
        !s.in_flight(key),
    ensures
        s.flight_begun(key).flights(n) == s.flights(n) + if s.home(key) < n {
            1int
        } else {
            0
        },
    decreases n,
{
    if n > 0 {
        lemma_one_more_flight(s, key, n - 1);
    }
}

proof fn lemma_no_flights(s: CacheState, n: int)
    requires
        0 <= n <= s.shards.len(),
        forall|i: int| 0 <= i < s.shards.len() ==> (#[trigger] s.shards[i]).in_flight.len() == 0,
    ensures
        s.flights(n) == 0,
    decreases n,
{
    if n > 0 {
        lemma_no_flights(s, n - 1);
        assert(s.shards[n - 1].in_flight.len() == 0);
    }
}

} // verus!
