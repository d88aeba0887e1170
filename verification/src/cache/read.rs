//! The steps of a demand read: probe the memory tier, claim what is missing,
//! publish what was fetched, and decide whether to try again.

use std::collections::HashMap;

use bytes::Bytes;
use vstd::prelude::*;

use crate::cache::block_cache::{
    admit_views, wasted_credit, BlockCache, CacheState, Effects, Release,
};
use crate::cache::blocks::{
    block_slice, concat_bytes, cut_block, joined_bytes,
};
use crate::cache::bytes_ops::{bytes_clone, bytes_len, content};
use crate::cache::coherence::demand_hit_keeps_contents;
use crate::cache::config::MAX_BLOCK_SIZE;
use crate::cache::metrics::Metrics;
use crate::cache::sieve::{Block, BlockKey, BlockState, Credit, Slot};
use crate::cache::version::FileVersion;

verus! {

broadcast use vstd::std_specs::hash::group_hash_axioms;

impl CacheState {
    /// The cache after a demand read probed one block.
    pub open spec fn probed_block(self, key: BlockKey) -> CacheState {
        if self.resident(key) {
            self.with_metrics(
                Metrics { hits: self.metrics.hits.wrapping_add(1), ..self.metrics },
            ).demand_hit(key, true)
        } else {
            self
        }
    }

    /// The cache after a demand read probed blocks of a file, one by one.
    pub open spec fn probed(self, file_id: u64, blocks: Seq<u32>) -> CacheState
        decreases blocks.len(),
    {
        if blocks.len() == 0 {
            self
        } else {
            self.probed(file_id, blocks.drop_last()).probed_block((file_id, blocks.last()))
        }
    }

    /// The credit that probing the blocks gives back.
    pub open spec fn probe_releases(self, file_id: u64, blocks: Seq<u32>) -> Seq<Release>
        decreases blocks.len(),
    {
        if blocks.len() == 0 {
            Seq::empty()
        } else {
            self.probe_releases(file_id, blocks.drop_last()) + self.probed(
                file_id,
                blocks.drop_last(),
            ).demand_release((file_id, blocks.last()))
        }
    }

    /// The blocks that are not resident, in order.
    pub open spec fn absent(self, file_id: u64, blocks: Seq<u32>) -> Seq<u32>
        decreases blocks.len(),
    {
        if blocks.len() == 0 {
            Seq::empty()
        } else if self.resident((file_id, blocks.last())) {
            self.absent(file_id, blocks.drop_last())
        } else {
            self.absent(file_id, blocks.drop_last()).push(blocks.last())
        }
    }

    /// The two states have the same blocks resident, with the same bytes.
    pub open spec fn same_contents(self, other: CacheState) -> bool {
        &&& self.block_size == other.block_size
        &&& self.shards.len() == other.shards.len()
        &&& forall|k: BlockKey| #[trigger]
            self.resident(k) == other.resident(k) && (self.resident(k) ==> self.block(k).data
                == other.block(k).data)
    }
}

/// Probing blocks keeps the state sound and every block's bytes.
pub proof fn probing_keeps_contents(s: CacheState, file_id: u64, blocks: Seq<u32>)
    requires
        s.sound(),
    ensures
        s.probed(file_id, blocks).sound(),
        s.probed(file_id, blocks).same_contents(s),
    decreases blocks.len(),
{
    if blocks.len() > 0 {
        let t = s.probed(file_id, blocks.drop_last());
        let key = (file_id, blocks.last());
        probing_keeps_contents(s, file_id, blocks.drop_last());
        let hits = t.with_metrics(Metrics { hits: t.metrics.hits.wrapping_add(1), ..t.metrics });
        assert(hits.sound());
        demand_hit_keeps_contents(hits, key, true);
        let u = s.probed(file_id, blocks);
        assert(u.sound());
        assert forall|k: BlockKey| #[trigger] u.resident(k) == s.resident(k) && (u.resident(k)
            ==> u.block(k).data == s.block(k).data) by {
            assert(t.resident(k) == s.resident(k));
            assert(hits.resident(k) == t.resident(k));
            assert(hits.block(k) == t.block(k));
            if t.resident(key) {
                assert(u == hits.demand_hit(key, true));
                assert(u.resident(k) == hits.resident(k));
            }
        }
    }
}

/// What probing the memory tier found.
pub struct Probe {
    /// The bytes of the resident blocks.
    pub have: HashMap<u32, Bytes>,
    /// The blocks that are not resident.
    pub missing: Vec<u32>,
    /// What the caller has to do.
    pub effects: Effects,
}

impl BlockCache {
    /// Probes the memory tier for the given blocks of a file.
    pub fn probe(&mut self, file_id: u64, blocks: &Vec<u32>) -> (p: Probe)
        requires
            old(self).wf(),
        ensures
            final(self).wf(),
            final(self)@ == old(self)@.probed(file_id, blocks@),
            p.missing@ == old(self)@.absent(file_id, blocks@),
            p.effects.releases@ == old(self)@.probe_releases(file_id, blocks@),
            admit_views(p.effects.admits@) == Seq::<(BlockKey, Seq<u8>)>::empty(),
            p.effects.forgets@ == Seq::<u64>::empty(),
            forall|b: u32| #[trigger]
                p.have@.contains_key(b) <==> (blocks@.contains(b) && old(self)@.resident(
                    (file_id, b),
                )),
            forall|b: u32| #[trigger]
                p.have@.contains_key(b) ==> content(p.have@[b]) == old(self)@.block(
                    (file_id, b),
                ).data,
    {
        let ghost s = self@;
        let mut have: HashMap<u32, Bytes> = HashMap::new();
        let mut missing: Vec<u32> = Vec::new();
        let mut effects: Effects = Effects::none();
        let mut i: usize = 0;
        proof {
            self.wf_sound();
            assert(blocks@.take(0) =~= Seq::<u32>::empty());
        }
        while i < blocks.len()
            invariant
                i <= blocks@.len(),
                self.wf(),
                s == old(self)@,
                s.sound(),
                self@ == s.probed(file_id, blocks@.take(i as int)),
                missing@ == s.absent(file_id, blocks@.take(i as int)),
                effects.releases@ == s.probe_releases(file_id, blocks@.take(i as int)),
                admit_views(effects.admits@) == Seq::<(BlockKey, Seq<u8>)>::empty(),
                effects.forgets@ == Seq::<u64>::empty(),
                forall|b: u32| #[trigger]
                    have@.contains_key(b) <==> (blocks@.take(i as int).contains(b) && s.resident(
                        (file_id, b),
                    )),
                forall|b: u32| #[trigger]
                    have@.contains_key(b) ==> content(have@[b]) == s.block((file_id, b)).data,
            decreases blocks@.len() - i,
        {
            let b: u32 = blocks[i];
            let key: BlockKey = (file_id, b);
            let ghost prefix = blocks@.take(i as int);
            proof {
                assert(blocks@.take(i + 1).drop_last() =~= prefix);
                assert(blocks@.take(i + 1).last() == b);
                probing_keeps_contents(s, file_id, prefix);
                assert(self@.resident(key) == s.resident(key));
                assert forall|x: u32| blocks@.take(i + 1).contains(x) <==> (prefix.contains(x) || x
                    == b) by {
                    let w = blocks@.take(i + 1);
                    if prefix.contains(x) {
                        let j = choose|j: int| 0 <= j < prefix.len() && prefix[j] == x;
                        assert(w[j] == x);
                    }
                    if x == b {
                        assert(w[i as int] == x);
                    }
                    if w.contains(x) {
                        let j = choose|j: int| 0 <= j < w.len() && w[j] == x;
                        if j < i {
                            assert(prefix[j] == x);
                        }
                    }
                }
            }
            if self.contains(key) {
                self.metrics_mut().record_hit();
                let ghost counted = self@;
                assert(counted.resident(key));
                assert(counted.block(key) == s.probed(file_id, prefix).block(key));
                let data: Option<Bytes> = self.note_demand_hit(key, true, &mut effects);
                match data {
                    Some(d) => {
                        have.insert(b, d);
                    },
                    None => {},
                }
            } else {
                missing.push(b);
                assert(s.probed(file_id, prefix).demand_release(key) =~= Seq::<Release>::empty());
                assert(effects.releases@ + Seq::<Release>::empty() =~= effects.releases@);
            }
            i = i + 1;
        }
        assert(blocks@.take(blocks@.len() as int) =~= blocks@);
        Probe { have, missing, effects }
    }
}

/// How a block that was missing when probed is obtained.
pub enum ClaimKind {
    /// It has become resident meanwhile.
    Cached,
    /// Another reader is fetching it.
    Wait,
    /// This reader fetches it.
    Own,
}

impl CacheState {
    /// How a reader obtains the block. A reader that reclaims does not wait for
    /// a fetch in flight: its owner has failed it once.
    pub open spec fn claim_kind(self, key: BlockKey, reclaim: bool) -> ClaimKind {
        if self.resident(key) {
            ClaimKind::Cached
        } else if !reclaim && self.in_flight(key) {
            ClaimKind::Wait
        } else {
            ClaimKind::Own
        }
    }

    /// The cache after a reader claimed one block.
    pub open spec fn claimed_block(self, key: BlockKey, reclaim: bool) -> CacheState {
        match self.claim_kind(key, reclaim) {
            ClaimKind::Cached => self.demand_hit(key, true),
            ClaimKind::Wait => self,
            ClaimKind::Own => self.flight_begun(key),
        }
    }

    /// The cache after a reader claimed blocks of a file, one by one.
    pub open spec fn claimed(self, file_id: u64, blocks: Seq<u32>, reclaim: bool) -> CacheState
        decreases blocks.len(),
    {
        if blocks.len() == 0 {
            self
        } else {
            self.claimed(file_id, blocks.drop_last(), reclaim).claimed_block(
                (file_id, blocks.last()),
                reclaim,
            )
        }
    }

    /// How the last of the blocks is obtained, once the others are claimed.
    pub open spec fn last_claim(self, file_id: u64, blocks: Seq<u32>, reclaim: bool) -> ClaimKind {
        self.claimed(file_id, blocks.drop_last(), reclaim).claim_kind(
            (file_id, blocks.last()),
            reclaim,
        )
    }

    /// The blocks that the reader fetches itself, in order.
    pub open spec fn owned(self, file_id: u64, blocks: Seq<u32>, reclaim: bool) -> Seq<u32>
        decreases blocks.len(),
    {
        if blocks.len() == 0 {
            Seq::empty()
        } else if self.last_claim(file_id, blocks, reclaim) is Own {
            self.owned(file_id, blocks.drop_last(), reclaim).push(blocks.last())
        } else {
            self.owned(file_id, blocks.drop_last(), reclaim)
        }
    }

    /// The blocks that the reader waits for, in order.
    pub open spec fn awaited(self, file_id: u64, blocks: Seq<u32>, reclaim: bool) -> Seq<u32>
        decreases blocks.len(),
    {
        if blocks.len() == 0 {
            Seq::empty()
        } else if self.last_claim(file_id, blocks, reclaim) is Wait {
            self.awaited(file_id, blocks.drop_last(), reclaim).push(blocks.last())
        } else {
            self.awaited(file_id, blocks.drop_last(), reclaim)
        }
    }

    /// The credit that claiming the blocks gives back.
    pub open spec fn claim_releases(self, file_id: u64, blocks: Seq<u32>, reclaim: bool) -> Seq<
        Release,
    >
        decreases blocks.len(),
    {
        if blocks.len() == 0 {
            Seq::empty()
        } else {
            self.claim_releases(file_id, blocks.drop_last(), reclaim) + self.claimed(
                file_id,
                blocks.drop_last(),
                reclaim,
            ).demand_release((file_id, blocks.last()))
        }
    }

    /// The bytes at hand after claiming the blocks: those at hand before, and
    /// those of the blocks that have become resident.
    pub open spec fn gathered(
        self,
        have: Map<u32, Seq<u8>>,
        file_id: u64,
        blocks: Seq<u32>,
        reclaim: bool,
    ) -> Map<u32, Seq<u8>>
        decreases blocks.len(),
    {
        if blocks.len() == 0 {
            have
        } else {
            let before = self.gathered(have, file_id, blocks.drop_last(), reclaim);
            if self.last_claim(file_id, blocks, reclaim) is Cached {
                before.insert(
                    blocks.last(),
                    self.claimed(file_id, blocks.drop_last(), reclaim).block(
                        (file_id, blocks.last()),
                    ).data,
                )
            } else {
                before
            }
        }
    }
}

/// The bytes at hand by block.
pub open spec fn at_hand(have: Map<u32, Bytes>) -> Map<u32, Seq<u8>> {
    have.map_values(|b: Bytes| content(b))
}

/// What a reader obtained of the blocks it claimed.
pub struct Claims {
    /// The blocks to fetch.
    pub owned: Vec<u32>,
    /// The blocks to wait for.
    pub waiting: Vec<u32>,
    /// What the caller has to do.
    pub effects: Effects,
}

impl BlockCache {
    /// Decides, block by block, whether the bytes are at hand by now, another
    /// reader delivers them, or this reader fetches them.
    pub fn claim_pass(
        &mut self,
        file_id: u64,
        blocks: &Vec<u32>,
        reclaim: bool,
        have: &mut HashMap<u32, Bytes>,
    ) -> (c: Claims)
        requires
            old(self).wf(),
        ensures
            final(self).wf(),
            final(self)@ == old(self)@.claimed(file_id, blocks@, reclaim),
            c.owned@ == old(self)@.owned(file_id, blocks@, reclaim),
            c.waiting@ == old(self)@.awaited(file_id, blocks@, reclaim),
            c.effects.releases@ == old(self)@.claim_releases(file_id, blocks@, reclaim),
            admit_views(c.effects.admits@) == Seq::<(BlockKey, Seq<u8>)>::empty(),
            c.effects.forgets@ == Seq::<u64>::empty(),
            at_hand(final(have)@) == old(self)@.gathered(
                at_hand(old(have)@),
                file_id,
                blocks@,
                reclaim,
            ),
    {
        let ghost s = self@;
        let ghost have0 = at_hand(have@);
        let mut owned: Vec<u32> = Vec::new();
        let mut waiting: Vec<u32> = Vec::new();
        let mut effects: Effects = Effects::none();
        let mut i: usize = 0;
        assert(blocks@.take(0) =~= Seq::<u32>::empty());
        while i < blocks.len()
            invariant
                i <= blocks@.len(),
                self.wf(),
                s == old(self)@,
                have0 == at_hand(old(have)@),
                self@ == s.claimed(file_id, blocks@.take(i as int), reclaim),
                owned@ == s.owned(file_id, blocks@.take(i as int), reclaim),
                waiting@ == s.awaited(file_id, blocks@.take(i as int), reclaim),
                effects.releases@ == s.claim_releases(file_id, blocks@.take(i as int), reclaim),
                admit_views(effects.admits@) == Seq::<(BlockKey, Seq<u8>)>::empty(),
                effects.forgets@ == Seq::<u64>::empty(),
                at_hand(have@) == s.gathered(have0, file_id, blocks@.take(i as int), reclaim),
            decreases blocks@.len() - i,
        {
            let b: u32 = blocks[i];
            let key: BlockKey = (file_id, b);
            proof {
                assert(blocks@.take(i + 1).drop_last() =~= blocks@.take(i as int));
                assert(blocks@.take(i + 1).last() == b);
            }
            let ghost t = self@;
            let ghost rel = effects.releases@;
            let ghost hand0 = have@;
            let data: Option<Bytes> = self.note_demand_hit(key, true, &mut effects);
            match data {
                Some(d) => {
                    have.insert(b, d);
                    assert(at_hand(have@) =~= at_hand(hand0).insert(b, t.block(key).data));
                },
                None => {
                    assert(rel + Seq::<Release>::empty() =~= rel);
                    if !reclaim && self.is_in_flight(key) {
                        waiting.push(b);
                    } else {
                        self.begin_flight(key);
                        owned.push(b);
                    }
                },
            }
            i = i + 1;
        }
        assert(blocks@.take(blocks@.len() as int) =~= blocks@);
        Claims { owned, waiting, effects }
    }
}

/// The block made of fetched bytes: tagged with credit where it was read ahead.
pub open spec fn block_for(data: Seq<u8>, credit: Option<Credit>) -> BlockState {
    match credit {
        Some(c) => BlockState::prefetched(data, c),
        None => BlockState::fresh(data),
    }
}

impl CacheState {
    /// Block `b` of a run that starts at `start` and was fetched as `full`.
    pub open spec fn run_block(
        self,
        start: u32,
        b: u32,
        full: Seq<u8>,
        credit: Option<Credit>,
    ) -> BlockState {
        block_for(block_slice(full, b - start, self.block_size as int), credit)
    }

    /// The cache after the blocks of a fetched run were put into the memory tier
    /// and taken out of flight, one by one.
    pub open spec fn published(
        self,
        file_id: u64,
        start: u32,
        run: Seq<u32>,
        full: Seq<u8>,
        credit: Option<Credit>,
    ) -> CacheState
        decreases run.len(),
    {
        if run.len() == 0 {
            self
        } else {
            let key = (file_id, run.last());
            self.published(file_id, start, run.drop_last(), full, credit).inserted(
                key,
                self.run_block(start, run.last(), full, credit),
            ).flight_ended(key)
        }
    }

    /// The blocks that publishing a run evicts.
    pub open spec fn publish_evictions(
        self,
        file_id: u64,
        start: u32,
        run: Seq<u32>,
        full: Seq<u8>,
        credit: Option<Credit>,
    ) -> Seq<Slot>
        decreases run.len(),
    {
        if run.len() == 0 {
            Seq::empty()
        } else {
            self.publish_evictions(file_id, start, run.drop_last(), full, credit) + self.published(
                file_id,
                start,
                run.drop_last(),
                full,
                credit,
            ).evicted_by(
                (file_id, run.last()),
                self.run_block(start, run.last(), full, credit),
            )
        }
    }

    /// The cache after the blocks of a run were taken out of flight.
    pub open spec fn flights_ended(self, file_id: u64, run: Seq<u32>) -> CacheState
        decreases run.len(),
    {
        if run.len() == 0 {
            self
        } else {
            self.flights_ended(file_id, run.drop_last()).flight_ended((file_id, run.last()))
        }
    }

    /// The cache after a demand fetch of a run returned `full` at `version`.
    pub open spec fn run_completed(
        self,
        file_id: u64,
        run: Seq<u32>,
        full: Seq<u8>,
        version: FileVersion,
    ) -> CacheState {
        self.run_fetched(full).reconciled(file_id, version).published(
            file_id,
            run[0],
            run,
            full,
            None,
        )
    }

    /// The cache after a demand fetch of a run failed: it counts as a fetch of nothing.
    pub open spec fn run_failed(self, file_id: u64, run: Seq<u32>) -> CacheState {
        self.with_metrics(
            Metrics { fetches: self.metrics.fetches.wrapping_add(1), ..self.metrics },
        ).flights_ended(file_id, run)
    }

    /// The cache with a demand fetch counted.
    pub open spec fn run_fetched(self, full: Seq<u8>) -> CacheState {
        self.with_metrics(
            Metrics {
                fetches: self.metrics.fetches.wrapping_add(1),
                bytes_fetched: self.metrics.bytes_fetched.wrapping_add(full.len() as u64),
                ..self.metrics
            },
        )
    }
}

/// Publishing and ending flights keep the block size and the tiers.
pub(crate) proof fn lemma_published_settings(
    s: CacheState,
    file_id: u64,
    start: u32,
    run: Seq<u32>,
    full: Seq<u8>,
    credit: Option<Credit>,
)
    ensures
        s.published(file_id, start, run, full, credit).block_size == s.block_size,
        s.published(file_id, start, run, full, credit).ssd == s.ssd,
    decreases run.len(),
{
    if run.len() > 0 {
        lemma_published_settings(s, file_id, start, run.drop_last(), full, credit);
    }
}

/// The bytes at hand after a run was published: its blocks beside the others.
pub open spec fn handed_over(
    have: Map<u32, Seq<u8>>,
    start: u32,
    run: Seq<u32>,
    full: Seq<u8>,
    block_size: u64,
) -> Map<u32, Seq<u8>>
    decreases run.len(),
{
    if run.len() == 0 {
        have
    } else {
        handed_over(have, start, run.drop_last(), full, block_size).insert(
            run.last(),
            block_slice(full, run.last() - start, block_size as int),
        )
    }
}

impl BlockCache {
    /// Cuts a fetched run into blocks and publishes each: into the memory tier,
    /// to the reader's bytes at hand, and out of flight. Returns what the caller
    /// has to do.
    pub(crate) fn publish_run(
        &mut self,
        file_id: u64,
        run: &Vec<u32>,
        full: &Bytes,
        credit: Option<Credit>,
        have: &mut HashMap<u32, Bytes>,
    ) -> (effects: Effects)
        requires
            old(self).wf(),
            run@.len() > 0,
            forall|i: int| 0 <= i < run@.len() ==> run@[0] <= #[trigger] run@[i],
        ensures
            final(self).wf(),
            final(self)@ == old(self)@.published(file_id, run@[0], run@, content(*full), credit),
            effects.releases@ == wasted_credit(
                old(self)@.publish_evictions(file_id, run@[0], run@, content(*full), credit),
            ),
            admit_views(effects.admits@) == old(self)@.admitted(
                old(self)@.publish_evictions(file_id, run@[0], run@, content(*full), credit),
            ),
            effects.forgets@ == Seq::<u64>::empty(),
            at_hand(final(have)@) == handed_over(
                at_hand(old(have)@),
                run@[0],
                run@,
                content(*full),
                old(self)@.block_size,
            ),
    {
        let ghost s = self@;
        let ghost data = content(*full);
        let ghost have0 = at_hand(have@);
        let start: u32 = run[0];
        let block_size: u64 = self.block_size();
        let mut effects: Effects = Effects::none();
        let mut i: usize = 0;
        proof {
            self.wf_sound();
            assert(run@.take(0) =~= Seq::<u32>::empty());
            assert(s.admitted(Seq::<Slot>::empty()) =~= Seq::empty());
        }
        while i < run.len()
            invariant
                i <= run@.len(),
                start == run@[0],
                s == old(self)@,
                data == content(*full),
                have0 == at_hand(old(have)@),
                block_size == s.block_size,
                0 < block_size <= MAX_BLOCK_SIZE,
                forall|j: int| 0 <= j < run@.len() ==> run@[0] <= #[trigger] run@[j],
                self.wf(),
                self@ == s.published(file_id, start, run@.take(i as int), data, credit),
                effects.releases@ == wasted_credit(
                    s.publish_evictions(file_id, start, run@.take(i as int), data, credit),
                ),
                admit_views(effects.admits@) == s.admitted(
                    s.publish_evictions(file_id, start, run@.take(i as int), data, credit),
                ),
                effects.forgets@ == Seq::<u64>::empty(),
                at_hand(have@) == handed_over(
                    have0,
                    start,
                    run@.take(i as int),
                    data,
                    block_size,
                ),
            decreases run@.len() - i,
        {
            let b: u32 = run[i];
            let key: BlockKey = (file_id, b);
            let ghost prefix = run@.take(i as int);
            proof {
                assert(run@.take(i + 1).drop_last() =~= prefix);
                assert(run@.take(i + 1).last() == b);
                lemma_published_settings(s, file_id, start, prefix, data, credit);
            }
            let cut: Bytes = cut_block(full, b - start, block_size);
            let kept: Bytes = bytes_clone(&cut);
            let block: Block = match credit {
                Some(c) => Block::new_prefetch(cut, c.ledger, c.bytes),
                None => Block::new(cut),
            };
            let ghost hand0 = have@;
            let ghost out = self@.evicted_by(key, block@);
            let ghost before = s.publish_evictions(file_id, start, prefix, data, credit);
            self.insert_block(key, block, &mut effects);
            self.end_flight(key);
            have.insert(b, kept);
            proof {
                crate::cache::block_cache::lemma_counted_append(s.metrics, before, out);
                assert(s.admitted(before + out) =~= s.admitted(before) + s.admitted(out));
                assert(at_hand(have@) =~= at_hand(hand0).insert(
                    b,
                    block_slice(data, b - start, block_size as int),
                ));
            }
            i = i + 1;
        }
        assert(run@.take(run@.len() as int) =~= run@);
        effects
    }

    /// Takes the blocks of a run out of flight: their fetch was dropped.
    pub fn end_flights(&mut self, file_id: u64, run: &Vec<u32>)
        requires
            old(self).wf(),
        ensures
            final(self).wf(),
            final(self)@ == old(self)@.flights_ended(file_id, run@),
    {
        let mut i: usize = 0;
        assert(run@.take(0) =~= Seq::<u32>::empty());
        while i < run.len()
            invariant
                i <= run@.len(),
                self.wf(),
                self@ == old(self)@.flights_ended(file_id, run@.take(i as int)),
            decreases run@.len() - i,
        {
            proof {
                assert(run@.take(i + 1).drop_last() =~= run@.take(i as int));
                assert(run@.take(i + 1).last() == run@[i as int]);
            }
            self.end_flight((file_id, run[i]));
            i = i + 1;
        }
        assert(run@.take(run@.len() as int) =~= run@);
    }

    /// Takes in what a demand fetch of a run returned: counts it, drops the
    /// file's blocks if the file has changed, and publishes the run's blocks.
    pub fn complete_run(
        &mut self,
        file_id: u64,
        run: &Vec<u32>,
        pieces: Vec<Bytes>,
        version: &FileVersion,
        have: &mut HashMap<u32, Bytes>,
    ) -> (effects: Effects)
        requires
            old(self).wf(),
            run@.len() > 0,
            forall|i: int| 0 <= i < run@.len() ==> run@[0] <= #[trigger] run@[i],
            pieces@.len() > 1 ==> joined_bytes(pieces@).len() <= isize::MAX,
        ensures
            final(self).wf(),
            final(self)@ == old(self)@.run_completed(
                file_id,
                run@,
                joined_bytes(pieces@),
                *version,
            ),
            ({
                let full = joined_bytes(pieces@);
                let s = old(self)@.run_fetched(full).reconciled(file_id, *version);
                let out = s.publish_evictions(file_id, run@[0], run@, full, None);
                &&& effects.releases@ == wasted_credit(out)
                &&& admit_views(effects.admits@) == s.admitted(out)
                &&& effects.forgets@ == old(self)@.files.outdated(file_id, *version)
                &&& at_hand(final(have)@) == handed_over(
                    at_hand(old(have)@),
                    run@[0],
                    run@,
                    full,
                    old(self)@.block_size,
                )
            }),
    {
        let full: Bytes = concat_bytes(pieces);
        let len: u64 = bytes_len(&full) as u64;
        self.metrics_mut().record_fetch(len);
        let changed: bool = self.reconcile_version(file_id, version);
        let mut effects: Effects = self.publish_run(file_id, run, &full, None, have);
        if changed {
            effects.forgets.push(file_id);
        }
        assert(effects.forgets@ =~= old(self)@.files.outdated(file_id, *version));
        effects
    }

    /// Takes in that a demand fetch of a run failed: counts it, and takes the run's
    /// blocks out of flight.
    pub fn fail_run(&mut self, file_id: u64, run: &Vec<u32>)
        requires
            old(self).wf(),
        ensures
            final(self).wf(),
            final(self)@ == old(self)@.run_failed(file_id, run@),
    {
        self.metrics_mut().record_fetch(0);
        self.end_flights(file_id, run);
    }
}

/// The blocks that are not resident are all of those, in their order.
pub proof fn missing_blocks_are_those_not_resident(s: CacheState, file_id: u64, blocks: Seq<u32>)
    ensures
        s.absent(file_id, blocks) == blocks.filter(|b: u32| !s.resident((file_id, b))),
    decreases blocks.len(),
{
    reveal(Seq::filter);
    if blocks.len() > 0 {
        missing_blocks_are_those_not_resident(s, file_id, blocks.drop_last());
    }
}

/// A probe counts a hit for every block that it finds resident.
pub proof fn a_probe_counts_its_hits(s: CacheState, file_id: u64, blocks: Seq<u32>)
    requires
        s.sound(),
        s.metrics.hits + blocks.len() <= u64::MAX,
    ensures
        s.absent(file_id, blocks).len() <= blocks.len(),
        s.probed(file_id, blocks).metrics.hits == s.metrics.hits + blocks.len() - s.absent(
            file_id,
            blocks,
        ).len(),
    decreases blocks.len(),
{
    if blocks.len() > 0 {
        let t = s.probed(file_id, blocks.drop_last());
        a_probe_counts_its_hits(s, file_id, blocks.drop_last());
        probing_keeps_contents(s, file_id, blocks.drop_last());
        assert(t.resident((file_id, blocks.last())) == s.resident((file_id, blocks.last())));
    }
}

/// The blocks of a fetched run are at hand with the bytes of their places in it, and what was
/// at hand of other blocks stays as it was.
pub proof fn a_fetched_run_is_at_hand(
    have: Map<u32, Seq<u8>>,
    start: u32,
    run: Seq<u32>,
    full: Seq<u8>,
    block_size: u64,
    b: u32,
)
    ensures
        ({
            let after = handed_over(have, start, run, full, block_size);
            &&& run.contains(b) ==> after.contains_key(b) && after[b] == block_slice(
                full,
                b - start,
                block_size as int,
            )
            &&& !run.contains(b) ==> (after.contains_key(b) <==> have.contains_key(b))
            &&& !run.contains(b) ==> after[b] == have[b]
        }),
    decreases run.len(),
{
    if run.len() > 0 {
        let t = run.drop_last();
        a_fetched_run_is_at_hand(have, start, t, full, block_size, b);
        assert(run[run.len() - 1] == run.last());
        if t.contains(b) {
            let i = choose|i: int| 0 <= i < t.len() && t[i] == b;
            assert(run[i] == b);
        }
        if run.contains(b) && b != run.last() {
            let i = choose|i: int| 0 <= i < run.len() && run[i] == b;
            assert(t[i] == b);
        }
    }
}

/// A fetched block has the bytes it was cut to, and credit exactly where it was read ahead.
pub proof fn a_fetched_block_has_its_bytes(
    s: CacheState,
    start: u32,
    b: u32,
    full: Seq<u8>,
    credit: Option<Credit>,
)
    ensures
        s.run_block(start, b, full, credit).data == block_slice(
            full,
            b - start,
            s.block_size as int,
        ),
        s.run_block(start, b, full, credit).credit == credit,
        !s.run_block(start, b, full, credit).visited,
        !s.run_block(start, b, full, credit).ever_visited,
{
}

/// Every demand fetch counts, with the bytes that it brought; one that failed brought none.
pub proof fn fetches_are_counted(s: CacheState, full: Seq<u8>, file_id: u64, run: Seq<u32>)
    ensures
        ({
            let t = s.run_fetched(full);
            let m = t.metrics;
            &&& s.metrics.fetches < u64::MAX ==> m.fetches == s.metrics.fetches + 1
            &&& s.metrics.bytes_fetched + full.len() <= u64::MAX ==> m.bytes_fetched
                == s.metrics.bytes_fetched + full.len()
            &&& m == (Metrics { fetches: m.fetches, bytes_fetched: m.bytes_fetched, ..s.metrics })
            &&& t.shards == s.shards && t.files == s.files
        }),
        ({
            let m = s.run_failed(file_id, run).metrics;
            &&& s.metrics.fetches < u64::MAX ==> m.fetches == s.metrics.fetches + 1
            &&& m == (Metrics { fetches: m.fetches, ..s.metrics })
            &&& s.run_failed(file_id, run).files == s.files
        }),
{
    let t = s.with_metrics(
        Metrics { fetches: s.metrics.fetches.wrapping_add(1), ..s.metrics },
    );
    lemma_ended_flights_only(t, file_id, run);
}

proof fn lemma_ended_flights_only(s: CacheState, file_id: u64, run: Seq<u32>)
    ensures
        s.flights_ended(file_id, run).metrics == s.metrics,
        s.flights_ended(file_id, run).files == s.files,
    decreases run.len(),
{
    if run.len() > 0 {
        lemma_ended_flights_only(s, file_id, run.drop_last());
    }
}

} // verus!
