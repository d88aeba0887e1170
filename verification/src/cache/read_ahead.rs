//! The steps of a read-ahead: probe, charge, claim, publish. A read-ahead never
//! waits for another reader and never serves bytes; it only puts blocks into
//! the memory tier, each holding the credit that was charged for it.

use std::collections::HashMap;
use std::ops::Range;

use bytes::Bytes;
use vstd::prelude::*;

use crate::cache::block_cache::{
    admit_views, wasted_credit, BlockCache, CacheState, Effects, Release,
};
use crate::cache::blocks::{
    concat_bytes, increasing, insert_increasing, joined_bytes, needed_blocks, touches,
};
use crate::cache::bytes_ops::bytes_len;
use crate::cache::ledger::{PrefetchIntent, PrefetchStats, ReleaseOutcome};
use crate::cache::metrics::Metrics;
use crate::cache::sieve::{BlockKey, Credit};
use crate::cache::version::{FileKey, FileVersion};

verus! {

broadcast use vstd::std_specs::hash::group_hash_axioms;

/// A read-ahead of ranges of a file, after the memory tier was probed.
pub struct ReadAhead {
    /// The file's id.
    pub file_id: u64,
    /// The blocks that are not resident, in increasing order.
    pub missing: Vec<u32>,
    /// What the call did so far.
    pub stats: PrefetchStats,
}

/// Blocks that are not resident are some of the blocks, in the same order.
pub(crate) proof fn lemma_absent(s: CacheState, file_id: u64, blocks: Seq<u32>)
    ensures
        s.absent(file_id, blocks).len() <= blocks.len(),
        forall|b: u32| #[trigger]
            s.absent(file_id, blocks).contains(b) <==> (blocks.contains(b) && !s.resident(
                (file_id, b),
            )),
        increasing(blocks) ==> increasing(s.absent(file_id, blocks)),
    decreases blocks.len(),
{
    let a = s.absent(file_id, blocks);
    if blocks.len() > 0 {
        let t = blocks.drop_last();
        let at = s.absent(file_id, t);
        lemma_absent(s, file_id, t);
        let last = blocks.last();
        assert forall|b: u32| #[trigger] a.contains(b) <==> (blocks.contains(b) && !s.resident(
            (file_id, b),
        )) by {
            assert(blocks.contains(b) <==> (t.contains(b) || b == last)) by {
                if t.contains(b) {
                    let j = choose|j: int| 0 <= j < t.len() && t[j] == b;
                    assert(blocks[j] == b);
                }
                if b == last {
                    assert(blocks[blocks.len() - 1] == b);
                }
                if blocks.contains(b) {
                    let j = choose|j: int| 0 <= j < blocks.len() && blocks[j] == b;
                    if j < t.len() {
                        assert(t[j] == b);
                    }
                }
            }
            assert(at.contains(b) <==> (t.contains(b) && !s.resident((file_id, b))));
            if !s.resident((file_id, last)) {
                assert(a.contains(b) <==> (at.contains(b) || b == last)) by {
                    if at.contains(b) {
                        let j = choose|j: int| 0 <= j < at.len() && at[j] == b;
                        assert(a[j] == b);
                    }
                    if b == last {
                        assert(a[a.len() - 1] == b);
                    }
                    if a.contains(b) {
                        let j = choose|j: int| 0 <= j < a.len() && a[j] == b;
                        if j < at.len() {
                            assert(at[j] == b);
                        }
                    }
                }
            }
        }
        if increasing(blocks) {
            assert(increasing(t));
            if !s.resident((file_id, last)) {
                assert forall|i: int, j: int| 0 <= i < j < a.len() implies a[i] < a[j] by {
                    if j == at.len() {
                        assert(at.contains(at[i]));
                        assert(t.contains(at[i]));
                        let k = choose|k: int| 0 <= k < t.len() && t[k] == at[i];
                        assert(blocks[k] < blocks[blocks.len() - 1]);
                    } else {
                        assert(at[i] < at[j]);
                    }
                }
            }
        }
    }
}

impl BlockCache {
    /// Starts a read-ahead: interns the file and looks which of the blocks that
    /// the ranges touch are resident. This is no demand read: no block is marked
    /// read and no credit is given back.
    pub fn begin_read_ahead(&mut self, file: &FileKey, ranges: &[Range<u64>]) -> (r: ReadAhead)
        requires
            old(self).wf(),
            old(self)@.files.next_id < u64::MAX,
        ensures
            final(self).wf(),
            final(self)@ == old(self)@.with_files(
                old(self)@.files.interned((file.namespace, file.path@)),
            ),
            r.file_id == final(self)@.files.ids[(file.namespace, file.path@)],
            increasing(r.missing@),
            exists|needed: Seq<u32>|
                {
                    &&& #[trigger] increasing(needed)
                    &&& forall|b: u32|
                        needed.contains(b) <==> exists|i: int|
                            0 <= i < ranges@.len() && touches(
                                #[trigger] ranges@[i],
                                final(self)@.block_size,
                                b,
                            )
                    &&& r.missing@ == final(self)@.absent(r.file_id, needed)
                    &&& r.stats == (PrefetchStats {
                        blocks_already_cached: (needed.len() - r.missing@.len()) as u64,
                        ..PrefetchStats::zero()
                    })
                },
    {
        proof {
            self.wf_sound();
        }
        let file_id: u64 = self.intern(file);
        let block_size: u64 = self.block_size();
        let needed: Vec<u32> = needed_blocks(ranges, block_size);
        let mut missing: Vec<u32> = Vec::new();
        let mut stats: PrefetchStats = PrefetchStats::default();
        let mut i: usize = 0;
        assert(needed@.take(0) =~= Seq::<u32>::empty());
        while i < needed.len()
            invariant
                i <= needed@.len(),
                self.wf(),
                missing@ == self@.absent(file_id, needed@.take(i as int)),
                stats == (PrefetchStats {
                    blocks_already_cached: (i - missing@.len()) as u64,
                    ..PrefetchStats::zero()
                }),
                missing@.len() <= i,
            decreases needed@.len() - i,
        {
            let b: u32 = needed[i];
            proof {
                assert(needed@.take(i + 1).drop_last() =~= needed@.take(i as int));
                assert(needed@.take(i + 1).last() == b);
            }
            if self.contains((file_id, b)) {
                stats.blocks_already_cached = stats.blocks_already_cached + 1;
            } else {
                missing.push(b);
            }
            i = i + 1;
        }
        proof {
            assert(needed@.take(needed@.len() as int) =~= needed@);
            lemma_absent(self@, file_id, needed@);
        }
        ReadAhead { file_id, missing, stats }
    }
}

/// How many of the blocks looked for were there.
pub open spec fn hits(results: Seq<(u32, bool)>) -> int
    decreases results.len(),
{
    if results.len() == 0 {
        0
    } else {
        hits(results.drop_last()) + if results.last().1 {
            1int
        } else {
            0
        }
    }
}

proof fn lemma_hits(results: Seq<(u32, bool)>)
    ensures
        0 <= hits(results) <= results.len(),
    decreases results.len(),
{
    if results.len() > 0 {
        lemma_hits(results.drop_last());
    }
}

impl ReadAhead {
    /// Takes in which blocks the SSD tier had, in whatever order it was asked: those that it
    /// had count as cached, and the others are missing.
    pub fn after_probe(&mut self, results: &Vec<(u32, bool)>)
        requires
            old(self).stats.blocks_already_cached + hits(results@) <= u64::MAX,
        ensures
            increasing(final(self).missing@),
            forall|b: u32| #[trigger]
                final(self).missing@.contains(b) <==> results@.contains((b, false)),
            final(self).stats == (PrefetchStats {
                blocks_already_cached: (old(self).stats.blocks_already_cached + hits(
                    results@,
                )) as u64,
                ..old(self).stats
            }),
            final(self).file_id == old(self).file_id,
    {
        let ghost cached = self.stats.blocks_already_cached;
        let mut missing: Vec<u32> = Vec::new();
        let mut i: usize = 0;
        proof {
            assert(results@.take(0) =~= Seq::<(u32, bool)>::empty());
            assert(increasing(missing@));
        }
        while i < results.len()
            invariant
                i <= results@.len(),
                increasing(missing@),
                forall|b: u32| #[trigger]
                    missing@.contains(b) <==> results@.take(i as int).contains((b, false)),
                cached == old(self).stats.blocks_already_cached,
                cached + hits(results@) <= u64::MAX,
                self.stats == (PrefetchStats {
                    blocks_already_cached: (cached + hits(results@.take(i as int))) as u64,
                    ..old(self).stats
                }),
                self.file_id == old(self).file_id,
            decreases results@.len() - i,
        {
            let ghost before = missing@;
            let ghost p = results@.take(i as int);
            let ghost w = results@.take(i + 1);
            proof {
                assert(w.drop_last() =~= p);
                assert(w.last() == results@[i as int]);
                lemma_hits(p);
                lemma_hits_grow(results@, i + 1);
            }
            let b: u32 = results[i].0;
            if results[i].1 {
                self.stats.blocks_already_cached = self.stats.blocks_already_cached + 1;
            } else {
                insert_increasing(&mut missing, b);
            }
            proof {
                assert forall|x: u32| #[trigger] missing@.contains(x) <==> w.contains(
                    (x, false),
                ) by {
                    assert(before.contains(x) <==> p.contains((x, false)));
                    if p.contains((x, false)) {
                        let j = choose|j: int| 0 <= j < p.len() && p[j] == (x, false);
                        assert(w[j] == (x, false));
                    }
                    if w.contains((x, false)) {
                        let j = choose|j: int| 0 <= j < w.len() && w[j] == (x, false);
                        if j < i {
                            assert(p[j] == (x, false));
                        }
                    }
                    if results@[i as int] == (x, false) {
                        assert(w[i as int] == (x, false));
                    }
                }
            }
            i = i + 1;
        }
        assert(results@.take(results@.len() as int) =~= results@);
        self.missing = missing;
    }
}

proof fn lemma_hits_grow(results: Seq<(u32, bool)>, n: int)
    requires
        0 <= n <= results.len(),
    ensures
        hits(results.take(n)) <= hits(results),
    decreases results.len() - n,
{
    if n == results.len() {
        assert(results.take(n) =~= results);
    } else {
        lemma_hits_grow(results, n + 1);
        assert(results.take(n + 1).drop_last() =~= results.take(n));
    }
}

/// How a read-ahead treats a block.
pub enum AheadKind {
    /// It is resident: nothing to do.
    Cached,
    /// Some reader is fetching it: it is left to that reader.
    InFlight,
    /// This read-ahead fetches it.
    Own,
}

impl CacheState {
    /// How a read-ahead treats the block.
    pub open spec fn ahead_kind(self, key: BlockKey) -> AheadKind {
        if self.resident(key) {
            AheadKind::Cached
        } else if self.in_flight(key) {
            AheadKind::InFlight
        } else {
            AheadKind::Own
        }
    }

    /// The cache after a read-ahead claimed blocks of a file, one by one.
    pub open spec fn claimed_ahead(self, file_id: u64, run: Seq<u32>) -> CacheState
        decreases run.len(),
    {
        if run.len() == 0 {
            self
        } else {
            let before = self.claimed_ahead(file_id, run.drop_last());
            if before.ahead_kind((file_id, run.last())) is Own {
                before.flight_begun((file_id, run.last()))
            } else {
                before
            }
        }
    }

    /// How the last of the blocks is treated, once the others are claimed.
    pub open spec fn last_ahead(self, file_id: u64, run: Seq<u32>) -> AheadKind {
        self.claimed_ahead(file_id, run.drop_last()).ahead_kind((file_id, run.last()))
    }

    /// The blocks that the read-ahead fetches, in order.
    pub open spec fn owned_ahead(self, file_id: u64, run: Seq<u32>) -> Seq<u32>
        decreases run.len(),
    {
        if run.len() == 0 {
            Seq::empty()
        } else if self.last_ahead(file_id, run) is Own {
            self.owned_ahead(file_id, run.drop_last()).push(run.last())
        } else {
            self.owned_ahead(file_id, run.drop_last())
        }
    }

    /// How many of the blocks are resident.
    pub open spec fn cached_ahead(self, file_id: u64, run: Seq<u32>) -> int
        decreases run.len(),
    {
        if run.len() == 0 {
            0
        } else {
            self.cached_ahead(file_id, run.drop_last()) + (if self.last_ahead(
                file_id,
                run,
            ) is Cached {
                1int
            } else {
                0
            })
        }
    }

    /// How many of the blocks are left to other readers.
    pub open spec fn left_ahead(self, file_id: u64, run: Seq<u32>) -> int
        decreases run.len(),
    {
        if run.len() == 0 {
            0
        } else {
            self.left_ahead(file_id, run.drop_last()) + (if self.last_ahead(
                file_id,
                run,
            ) is InFlight {
                1int
            } else {
                0
            })
        }
    }
}

/// Every block of a run is resident, left to another reader, or owned.
pub proof fn run_is_cached_left_or_owned(s: CacheState, file_id: u64, run: Seq<u32>)
    ensures
        s.cached_ahead(file_id, run) + s.left_ahead(file_id, run) + s.owned_ahead(
            file_id,
            run,
        ).len() == run.len(),
        0 <= s.cached_ahead(file_id, run),
        0 <= s.left_ahead(file_id, run),
    decreases run.len(),
{
    if run.len() > 0 {
        run_is_cached_left_or_owned(s, file_id, run.drop_last());
    }
}

/// What a read-ahead obtained of a run.
pub struct RunClaim {
    /// The blocks to fetch.
    pub owned: Vec<u32>,
    /// Credit charged for the run that is not needed.
    pub refund: u64,
    /// What the run found.
    pub stats: PrefetchStats,
}

/// The credit to charge for a run before any of its blocks is claimed: one block
/// size for each block. Charging first means that a read-ahead which waits for
/// credit holds no block that a demand read could wait for.
pub fn run_charge(run: &Vec<u32>, block_size: u64) -> (bytes: u64)
    requires
        run@.len() * block_size <= u64::MAX,
    ensures
        bytes == run@.len() * block_size,
{
    run.len() as u64 * block_size
}

impl BlockCache {
    /// Claims the blocks of a run that are neither resident nor in flight, and
    /// says how much of the run's charge the other blocks leave over.
    pub fn claim_run(&mut self, file_id: u64, run: &Vec<u32>) -> (c: RunClaim)
        requires
            old(self).wf(),
            run@.len() * old(self)@.block_size <= u64::MAX,
        ensures
            final(self).wf(),
            final(self)@ == old(self)@.claimed_ahead(file_id, run@),
            c.owned@ == old(self)@.owned_ahead(file_id, run@),
            c.refund == (run@.len() - c.owned@.len()) * old(self)@.block_size,
            c.stats == (PrefetchStats {
                blocks_already_cached: old(self)@.cached_ahead(file_id, run@) as u64,
                blocks_in_flight: old(self)@.left_ahead(file_id, run@) as u64,
                ..PrefetchStats::zero()
            }),
    {
        let ghost s = self@;
        let block_size: u64 = self.block_size();
        let mut owned: Vec<u32> = Vec::new();
        let mut stats: PrefetchStats = PrefetchStats::default();
        let mut i: usize = 0;
        assert(run@.take(0) =~= Seq::<u32>::empty());
        while i < run.len()
            invariant
                i <= run@.len(),
                self.wf(),
                s == old(self)@,
                self@ == s.claimed_ahead(file_id, run@.take(i as int)),
                owned@ == s.owned_ahead(file_id, run@.take(i as int)),
                stats == (PrefetchStats {
                    blocks_already_cached: s.cached_ahead(file_id, run@.take(i as int)) as u64,
                    blocks_in_flight: s.left_ahead(file_id, run@.take(i as int)) as u64,
                    ..PrefetchStats::zero()
                }),
            decreases run@.len() - i,
        {
            let key: BlockKey = (file_id, run[i]);
            proof {
                assert(run@.take(i + 1).drop_last() =~= run@.take(i as int));
                assert(run@.take(i + 1).last() == run@[i as int]);
                run_is_cached_left_or_owned(s, file_id, run@.take(i as int));
            }
            if self.contains(key) {
                stats.blocks_already_cached = stats.blocks_already_cached + 1;
            } else if self.is_in_flight(key) {
                stats.blocks_in_flight = stats.blocks_in_flight + 1;
            } else {
                self.begin_flight(key);
                owned.push(run[i]);
            }
            i = i + 1;
        }
        proof {
            assert(run@.take(run@.len() as int) =~= run@);
            run_is_cached_left_or_owned(s, file_id, run@);
            let rest = run@.len() - owned@.len();
            assert(rest * block_size <= run@.len() * block_size) by (nonlinear_arith)
                requires
                    0 <= rest <= run@.len(),
                    block_size >= 0,
            ;
        }
        let refund: u64 = (run.len() - owned.len()) as u64 * block_size;
        RunClaim { owned, refund, stats }
    }
}

impl CacheState {
    /// The cache with a read-ahead fetch counted.
    pub open spec fn segment_fetched(self, full: Seq<u8>) -> CacheState {
        self.with_metrics(
            Metrics {
                prefetch_fetch_requests: self.metrics.prefetch_fetch_requests.wrapping_add(1),
                prefetch_bytes_fetched: self.metrics.prefetch_bytes_fetched.wrapping_add(
                    full.len() as u64,
                ),
                ..self.metrics
            },
        )
    }

    /// The credit that each block of a read-ahead by `ledger` holds.
    pub open spec fn block_credit(self, ledger: u64) -> Credit {
        Credit { ledger, bytes: self.block_size }
    }
}

/// What a fetched segment adds to the statistics.
pub open spec fn segment_stats(blocks: int, bytes: int) -> PrefetchStats {
    PrefetchStats {
        blocks_fetched: blocks as u64,
        bytes_fetched: bytes as u64,
        fetch_requests: 1,
        ..PrefetchStats::zero()
    }
}

impl BlockCache {
    /// Takes in what the fetch of a segment returned: counts it, drops the
    /// file's blocks if the file has changed, and publishes the segment's blocks,
    /// each holding one block size of credit.
    pub fn complete_segment(
        &mut self,
        file_id: u64,
        seg: &Vec<u32>,
        pieces: Vec<Bytes>,
        version: &FileVersion,
        intent: PrefetchIntent,
        ledger: u64,
        stats: &mut PrefetchStats,
    ) -> (effects: Effects)
        requires
            old(self).wf(),
            seg@.len() > 0,
            forall|i: int| 0 <= i < seg@.len() ==> seg@[0] <= #[trigger] seg@[i],
            pieces@.len() > 1 ==> joined_bytes(pieces@).len() <= isize::MAX,
            old(stats).blocks_fetched + seg@.len() <= u64::MAX,
            old(stats).bytes_fetched + joined_bytes(pieces@).len() <= u64::MAX,
            old(stats).fetch_requests < u64::MAX,
        ensures
            final(self).wf(),
            ({
                let full = joined_bytes(pieces@);
                let s = old(self)@.segment_fetched(full).reconciled(file_id, *version);
                let credit = match intent {
                    PrefetchIntent::Prefetch => Some(s.block_credit(ledger)),
                };
                let out = s.publish_evictions(file_id, seg@[0], seg@, full, credit);
                &&& final(self)@ == s.published(file_id, seg@[0], seg@, full, credit)
                &&& effects.releases@ == wasted_credit(out)
                &&& admit_views(effects.admits@) == s.admitted(out)
                &&& effects.forgets@ == old(self)@.files.outdated(file_id, *version)
                &&& *final(stats) == old(stats).plus(
                    segment_stats(seg@.len() as int, full.len() as int),
                )
            }),
    {
        let full: Bytes = concat_bytes(pieces);
        let len: u64 = bytes_len(&full) as u64;
        self.metrics_mut().record_prefetch_fetch(len);
        stats.fetch_requests = stats.fetch_requests + 1;
        stats.bytes_fetched = stats.bytes_fetched + len;
        let changed: bool = self.reconcile_version(file_id, version);
        let credit: Option<Credit> = match intent {
            PrefetchIntent::Prefetch => Some(Credit { ledger, bytes: self.block_size() }),
        };
        let mut scratch: HashMap<u32, Bytes> = HashMap::new();
        let mut effects: Effects = self.publish_run(file_id, seg, &full, credit, &mut scratch);
        if changed {
            effects.forgets.push(file_id);
        }
        assert(effects.forgets@ =~= old(self)@.files.outdated(file_id, *version));
        stats.blocks_fetched = stats.blocks_fetched + seg.len() as u64;
        effects
    }

    /// Takes in that the fetch of a segment failed: its blocks leave flight, its
    /// credit is given back as wasted, and the fetch and the error are counted.
    pub fn fail_segment(
        &mut self,
        file_id: u64,
        seg: &Vec<u32>,
        ledger: u64,
        stats: &mut PrefetchStats,
    ) -> (release: Release)
        requires
            old(self).wf(),
            seg@.len() * old(self)@.block_size <= u64::MAX,
            old(stats).errors < u64::MAX,
            old(stats).fetch_requests < u64::MAX,
        ensures
            final(self).wf(),
            ({
                let s = old(self)@.flights_ended(file_id, seg@);
                final(self)@ == s.with_metrics(
                    Metrics {
                        prefetch_fetch_requests: s.metrics.prefetch_fetch_requests.wrapping_add(1),
                        prefetch_errors: s.metrics.prefetch_errors.wrapping_add(1),
                        ..s.metrics
                    },
                )
            }),
            release == (Release {
                ledger,
                bytes: (seg@.len() * old(self)@.block_size) as u64,
                outcome: ReleaseOutcome::Wasted,
            }),
            *final(stats) == (PrefetchStats {
                errors: (old(stats).errors + 1) as u64,
                fetch_requests: (old(stats).fetch_requests + 1) as u64,
                ..*old(stats)
            }),
    {
        let bytes: u64 = seg.len() as u64 * self.block_size();
        self.end_flights(file_id, seg);
        self.metrics_mut().record_prefetch_fetch(0);
        self.metrics_mut().record_prefetch_error();
        stats.fetch_requests = stats.fetch_requests + 1;
        stats.errors = stats.errors + 1;
        Release { ledger, bytes, outcome: ReleaseOutcome::Wasted }
    }
}

/// What is charged for a run is what is refunded plus one block size for each
/// block owned: no credit is lost or made up when a run is claimed.
pub proof fn charge_covers_refund_and_owned(s: CacheState, file_id: u64, run: Seq<u32>, refund: int)
    requires
        refund == (run.len() - s.owned_ahead(file_id, run).len()) * s.block_size,
    ensures
        run.len() * s.block_size == refund + s.owned_ahead(file_id, run).len() * s.block_size,
{
    let n = run.len() as int;
    let m = s.owned_ahead(file_id, run).len() as int;
    let b = s.block_size as int;
    assert(n * b == (n - m) * b + m * b) by (nonlinear_arith);
}

/// The segments that owned blocks are fetched in hold, all together, one block
/// size of credit for each owned block.
pub proof fn segments_hold_the_credit_of_owned_blocks(runs: Seq<Seq<u32>>, owned: Seq<u32>)
    requires
        crate::cache::blocks::joined(runs) == owned,
    ensures
        total_len(runs) == owned.len(),
    decreases runs.len(),
{
    if runs.len() > 0 {
        segments_hold_the_credit_of_owned_blocks(
            runs.drop_last(),
            crate::cache::blocks::joined(runs.drop_last()),
        );
    }
}

/// The number of blocks in the runs, all together.
pub open spec fn total_len(runs: Seq<Seq<u32>>) -> int
    decreases runs.len(),
{
    if runs.len() == 0 {
        0
    } else {
        total_len(runs.drop_last()) + runs.last().len()
    }
}

/// The blocks that were found are counted, and no others.
pub proof fn found_blocks_are_counted(results: Seq<(u32, bool)>)
    ensures
        hits(results) == results.filter(|x: (u32, bool)| x.1).len(),
    decreases results.len(),
{
    reveal(Seq::filter);
    if results.len() > 0 {
        found_blocks_are_counted(results.drop_last());
    }
}

/// Every read-ahead fetch counts, with the bytes that it brought, and charges one block size to
/// its ledger for each block.
pub proof fn read_ahead_fetches_are_counted(s: CacheState, full: Seq<u8>, ledger: u64, blocks: int)
    requires
        0 <= blocks <= u64::MAX,
        full.len() <= u64::MAX,
    ensures
        ({
            let t = s.segment_fetched(full);
            let m = t.metrics;
            &&& s.metrics.prefetch_fetch_requests < u64::MAX ==> m.prefetch_fetch_requests
                == s.metrics.prefetch_fetch_requests + 1
            &&& s.metrics.prefetch_bytes_fetched + full.len() <= u64::MAX
                ==> m.prefetch_bytes_fetched == s.metrics.prefetch_bytes_fetched + full.len()
            &&& m == (Metrics {
                prefetch_fetch_requests: m.prefetch_fetch_requests,
                prefetch_bytes_fetched: m.prefetch_bytes_fetched,
                ..s.metrics
            })
            &&& t.shards == s.shards && t.files == s.files
        }),
        s.block_credit(ledger).ledger == ledger && s.block_credit(ledger).bytes == s.block_size,
        ({
            let x = segment_stats(blocks, full.len() as int);
            &&& x.blocks_fetched == blocks
            &&& x.bytes_fetched == full.len()
            &&& x.fetch_requests == 1
            &&& x.blocks_already_cached == 0 && x.blocks_in_flight == 0 && x.errors == 0
        }),
{
}

/// The blocks of runs are as many as the runs hold together.
pub proof fn blocks_of_runs_are_counted(runs: Seq<Seq<u32>>)
    ensures
        total_len(runs) == runs.flatten().len(),
    decreases runs.len(),
{
    runs.lemma_flatten_and_flatten_alt_are_equivalent();
    if runs.len() > 0 {
        blocks_of_runs_are_counted(runs.drop_last());
        runs.drop_last().lemma_flatten_and_flatten_alt_are_equivalent();
    }
}

} // verus!
