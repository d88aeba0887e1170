//! Filling a demand read's missing blocks: which blocks a pass works on, when a
//! second pass is due, and what the read ends with.

use std::collections::HashMap;
use std::ops::Range;

use bytes::Bytes;
use vstd::prelude::*;

use crate::cache::block_cache::{admit_views, BlockCache, CacheState, Effects, Release};
use crate::cache::blocks::{
    assemble_range, assembled, block_of, increasing, insert_increasing, needed_blocks, spliced,
    touches,
};
use crate::cache::bytes_ops::content;
use crate::cache::coherence::demand_hit_keeps_contents;
use crate::cache::config::MAX_BLOCK_SIZE;
use crate::cache::error::CacheError;
use crate::cache::metrics::Metrics;
use crate::cache::read::{at_hand, Probe};
use crate::cache::sieve::BlockKey;
use crate::cache::version::FileKey;

verus! {

broadcast use vstd::std_specs::hash::group_hash_axioms;

/// What to do after a pass over missing blocks.
#[derive(Clone, Copy, Debug, PartialEq, Eq, Structural)]
pub enum FillStep {
    /// Every block is at hand.
    Done,
    /// Run a second pass over the blocks whose owner failed them.
    Retry,
    /// Look into the memory tier once more, then finish.
    Reprobe,
}

/// The filling of a read's missing blocks.
pub struct Fill {
    all: Vec<u32>,
    to_process: Vec<u32>,
    reclaim: bool,
    saved_error: Option<CacheError>,
    retry: Vec<u32>,
}

/// The state of a filling.
pub struct FillState {
    /// Every block that was missing, in increasing order.
    pub all: Seq<u32>,
    /// The blocks that the coming pass works on.
    pub to_process: Seq<u32>,
    /// The coming pass takes blocks over from their owners.
    pub reclaim: bool,
    /// The first error seen.
    pub saved_error: Option<CacheError>,
    /// The blocks of this pass whose owner failed or was dropped.
    pub retry: Seq<u32>,
}

impl FillState {
    /// The filling after an error was seen: the first one is kept.
    pub open spec fn with_error(self, e: CacheError) -> FillState {
        FillState {
            saved_error: match self.saved_error {
                Some(first) => Some(first),
                None => Some(e),
            },
            ..self
        }
    }

    /// The filling after the owner of a block failed it.
    pub open spec fn with_retry(self, b: u32, e: CacheError) -> FillState {
        FillState { retry: self.retry.push(b), ..self.with_error(e) }
    }

    /// What is due after a pass that left `have` at hand.
    pub open spec fn next_step(self, have: Map<u32, Bytes>) -> FillStep {
        if all_at_hand(self.all, have) {
            FillStep::Done
        } else if self.reclaim || self.retry.len() == 0 {
            FillStep::Reprobe
        } else {
            FillStep::Retry
        }
    }

    /// The filling before the coming pass: one over the blocks to be tried again, where
    /// that is due.
    pub open spec fn after(self, step: FillStep) -> FillState {
        if step == FillStep::Retry {
            FillState { to_process: self.retry, reclaim: true, retry: Seq::empty(), ..self }
        } else {
            self
        }
    }
}

impl View for Fill {
    type V = FillState;

    closed spec fn view(&self) -> FillState {
        FillState {
            all: self.all@,
            to_process: self.to_process@,
            reclaim: self.reclaim,
            saved_error: self.saved_error,
            retry: self.retry@,
        }
    }
}

/// Every one of the blocks is at hand.
pub open spec fn all_at_hand(blocks: Seq<u32>, have: Map<u32, Bytes>) -> bool {
    forall|i: int| 0 <= i < blocks.len() ==> have.contains_key(#[trigger] blocks[i])
}

fn has_every(blocks: &Vec<u32>, have: &HashMap<u32, Bytes>) -> (r: bool)
    ensures
        r == all_at_hand(blocks@, have@),
{
    let mut i: usize = 0;
    while i < blocks.len()
        invariant
            i <= blocks@.len(),
            forall|j: int| 0 <= j < i ==> have@.contains_key(#[trigger] blocks@[j]),
        decreases blocks@.len() - i,
    {
        if !have.contains_key(&blocks[i]) {
            assert(!have@.contains_key(blocks@[i as int]));
            return false;
        }
        i = i + 1;
    }
    true
}

/// The blocks in increasing order, each once.
pub fn sorted_distinct(blocks: &Vec<u32>) -> (r: Vec<u32>)
    ensures
        increasing(r@),
        forall|b: u32| #[trigger] r@.contains(b) <==> blocks@.contains(b),
{
    let mut r: Vec<u32> = Vec::new();
    let mut i: usize = 0;
    while i < blocks.len()
        invariant
            i <= blocks@.len(),
            increasing(r@),
            forall|b: u32| #[trigger] r@.contains(b) <==> blocks@.take(i as int).contains(b),
        decreases blocks@.len() - i,
    {
        let ghost before = r@;
        insert_increasing(&mut r, blocks[i]);
        proof {
            let w = blocks@.take(i + 1);
            let p = blocks@.take(i as int);
            assert forall|b: u32| #[trigger] r@.contains(b) <==> w.contains(b) by {
                assert(before.contains(b) <==> p.contains(b));
                if p.contains(b) {
                    let j = choose|j: int| 0 <= j < p.len() && p[j] == b;
                    assert(w[j] == b);
                }
                if b == blocks@[i as int] {
                    assert(w[i as int] == b);
                }
                if w.contains(b) {
                    let j = choose|j: int| 0 <= j < w.len() && w[j] == b;
                    if j < i {
                        assert(p[j] == b);
                    }
                }
            }
        }
        i = i + 1;
    }
    assert(blocks@.take(blocks@.len() as int) =~= blocks@);
    r
}

impl Fill {
    /// The filling of the given missing blocks, before its first pass.
    pub fn new(missing: &Vec<u32>) -> (f: Fill)
        ensures
            increasing(f@.all),
            forall|b: u32| #[trigger] f@.all.contains(b) <==> missing@.contains(b),
            f@.to_process == f@.all,
            !f@.reclaim,
            f@.saved_error is None,
            f@.retry == Seq::<u32>::empty(),
    {
        let all: Vec<u32> = sorted_distinct(missing);
        let mut to_process: Vec<u32> = Vec::new();
        let mut i: usize = 0;
        while i < all.len()
            invariant
                i <= all@.len(),
                to_process@ == all@.take(i as int),
            decreases all@.len() - i,
        {
            to_process.push(all[i]);
            assert(all@.take(i + 1) =~= all@.take(i as int).push(all@[i as int]));
            i = i + 1;
        }
        assert(all@.take(all@.len() as int) =~= all@);
        Fill { all, to_process, reclaim: false, saved_error: None, retry: Vec::new() }
    }

    /// The blocks that the coming pass works on.
    pub fn blocks(&self) -> (b: &Vec<u32>)
        ensures
            b@ == self@.to_process,
    {
        &self.to_process
    }

    /// Whether the coming pass takes blocks over from their owners.
    pub fn reclaims(&self) -> (r: bool)
        ensures
            r == self@.reclaim,
    {
        self.reclaim
    }

    /// Takes in that a fetch of this reader failed. Its blocks are not tried again.
    pub fn note_fetch_error(&mut self, e: CacheError)
        ensures
            final(self)@ == old(self)@.with_error(e),
    {
        if self.saved_error.is_none() {
            self.saved_error = Some(e);
        }
    }

    /// Takes in what another reader delivered: the block's bytes, or the error that
    /// kept them away, after which the block is tried again.
    pub fn note_delivery(
        &mut self,
        b: u32,
        delivered: Result<Bytes, CacheError>,
        have: &mut HashMap<u32, Bytes>,
    )
        ensures
            match delivered {
                Ok(data) => final(self)@ == old(self)@ && final(have)@ == old(have)@.insert(
                    b,
                    data,
                ),
                Err(e) => final(self)@ == old(self)@.with_retry(b, e) && final(have)@ == old(
                    have,
                )@,
            },
    {
        match delivered {
            Ok(data) => {
                have.insert(b, data);
            },
            Err(e) => {
                self.retry.push(b);
                self.note_fetch_error(e);
            },
        }
    }

    /// Ends a pass and says what is due. Only blocks whose owner failed them are tried
    /// again, and only once.
    pub fn after_pass(&mut self, have: &HashMap<u32, Bytes>) -> (step: FillStep)
        ensures
            step == old(self)@.next_step(have@),
            final(self)@ == old(self)@.after(step),
    {
        if has_every(&self.all, have) {
            return FillStep::Done;
        }
        if self.reclaim || self.retry.len() == 0 {
            return FillStep::Reprobe;
        }
        let mut again: Vec<u32> = Vec::new();
        std::mem::swap(&mut again, &mut self.retry);
        self.to_process = again;
        self.reclaim = true;
        assert(self@.retry =~= Seq::empty());
        FillStep::Retry
    }

    /// The outcome of the filling: success if every block is at hand, else the
    /// first error seen.
    pub fn finish(&self, have: &HashMap<u32, Bytes>) -> (r: Result<(), CacheError>)
        ensures
            match r {
                Ok(()) => all_at_hand(self@.all, have@),
                Err(e) => !all_at_hand(self@.all, have@) && match self@.saved_error {
                    Some(saved) => e == saved,
                    None => e.is_internal("block missing after fill"@),
                },
            },
    {
        if has_every(&self.all, have) {
            return Ok(());
        }
        match &self.saved_error {
            Some(e) => Err(e.duplicate()),
            None => Err(CacheError::internal("block missing after fill")),
        }
    }
}

impl CacheState {
    /// The cache after blocks were found in neither tier.
    pub open spec fn missed(self, blocks: nat) -> CacheState {
        self.with_metrics(
            Metrics {
                misses: self.metrics.misses.wrapping_add(blocks as u64),
                ..self.metrics
            },
        )
    }

    /// The cache after the memory tier was consulted once more for the blocks
    /// that are not in `have`.
    pub open spec fn reprobed(
        self,
        file_id: u64,
        blocks: Seq<u32>,
        have: Map<u32, Seq<u8>>,
    ) -> CacheState
        decreases blocks.len(),
    {
        if blocks.len() == 0 {
            self
        } else if self.regathered(file_id, blocks.drop_last(), have).contains_key(blocks.last()) {
            self.reprobed(file_id, blocks.drop_last(), have)
        } else {
            self.reprobed(file_id, blocks.drop_last(), have).demand_hit(
                (file_id, blocks.last()),
                true,
            )
        }
    }

    /// The bytes at hand after the memory tier was consulted once more.
    pub open spec fn regathered(
        self,
        file_id: u64,
        blocks: Seq<u32>,
        have: Map<u32, Seq<u8>>,
    ) -> Map<u32, Seq<u8>>
        decreases blocks.len(),
    {
        if blocks.len() == 0 {
            have
        } else {
            let before = self.regathered(file_id, blocks.drop_last(), have);
            let s = self.reprobed(file_id, blocks.drop_last(), have);
            let key = (file_id, blocks.last());
            if before.contains_key(blocks.last()) || !s.resident(key) {
                before
            } else {
                before.insert(blocks.last(), s.block(key).data)
            }
        }
    }

    /// The credit that consulting the memory tier once more gives back.
    pub open spec fn reprobe_releases(
        self,
        file_id: u64,
        blocks: Seq<u32>,
        have: Map<u32, Seq<u8>>,
    ) -> Seq<Release>
        decreases blocks.len(),
    {
        if blocks.len() == 0 {
            Seq::empty()
        } else if self.regathered(file_id, blocks.drop_last(), have).contains_key(blocks.last()) {
            self.reprobe_releases(file_id, blocks.drop_last(), have)
        } else {
            self.reprobe_releases(file_id, blocks.drop_last(), have) + self.reprobed(
                file_id,
                blocks.drop_last(),
                have,
            ).demand_release((file_id, blocks.last()))
        }
    }
}

impl BlockCache {
    /// Consults the memory tier once more for the blocks of a filling that are
    /// not at hand: another reader may have fetched them meanwhile.
    pub fn reprobe(
        &mut self,
        file_id: u64,
        fill: &Fill,
        have: &mut HashMap<u32, Bytes>,
    ) -> (effects: Effects)
        requires
            old(self).wf(),
        ensures
            final(self).wf(),
            final(self)@ == old(self)@.reprobed(file_id, fill@.all, at_hand(old(have)@)),
            at_hand(final(have)@) == old(self)@.regathered(
                file_id,
                fill@.all,
                at_hand(old(have)@),
            ),
            effects.releases@ == old(self)@.reprobe_releases(
                file_id,
                fill@.all,
                at_hand(old(have)@),
            ),
            admit_views(effects.admits@) == Seq::<(BlockKey, Seq<u8>)>::empty(),
            effects.forgets@ == Seq::<u64>::empty(),
    {
        let ghost s = self@;
        let ghost have0 = at_hand(have@);
        let ghost blocks = fill@.all;
        let mut effects: Effects = Effects::none();
        let mut i: usize = 0;
        assert(blocks.take(0) =~= Seq::<u32>::empty());
        while i < fill.all.len()
            invariant
                i <= blocks.len(),
                blocks == fill@.all,
                self.wf(),
                s == old(self)@,
                have0 == at_hand(old(have)@),
                self@ == s.reprobed(file_id, blocks.take(i as int), have0),
                at_hand(have@) == s.regathered(file_id, blocks.take(i as int), have0),
                effects.releases@ == s.reprobe_releases(file_id, blocks.take(i as int), have0),
                admit_views(effects.admits@) == Seq::<(BlockKey, Seq<u8>)>::empty(),
                effects.forgets@ == Seq::<u64>::empty(),
            decreases blocks.len() - i,
        {
            let b: u32 = fill.all[i];
            let ghost hand0 = have@;
            let ghost t = self@;
            let ghost rel = effects.releases@;
            proof {
                assert(blocks.take(i + 1).drop_last() =~= blocks.take(i as int));
                assert(blocks.take(i + 1).last() == b);
                assert(at_hand(have@).contains_key(b) == have@.contains_key(b));
            }
            if !have.contains_key(&b) {
                let data: Option<Bytes> = self.note_demand_hit((file_id, b), true, &mut effects);
                match data {
                    Some(d) => {
                        have.insert(b, d);
                        assert(at_hand(have@) =~= at_hand(hand0).insert(
                            b,
                            t.block((file_id, b)).data,
                        ));
                    },
                    None => {},
                }
            }
            i = i + 1;
        }
        assert(blocks.take(blocks.len() as int) =~= blocks);
        effects
    }
}

/// The byte range that a run of blocks is fetched as. It may reach past the end
/// of the file; the store cuts it short there.
pub fn run_range(run: &Vec<u32>, block_size: u64) -> (r: Range<u64>)
    requires
        run@.len() > 0,
        0 < block_size <= MAX_BLOCK_SIZE,
    ensures
        r.start == run@[0] * block_size,
        r.end == (run@.last() + 1) * block_size,
{
    let first: u64 = run[0] as u64;
    let last: u64 = run[run.len() - 1] as u64;
    assert(first * block_size <= 0x1_0000_0000 * 0x100_0000) by (nonlinear_arith)
        requires
            first <= u32::MAX,
            0 < block_size <= 0x100_0000,
    ;
    assert((last + 1) * block_size <= 0x1_0000_0000 * 0x100_0000) by (nonlinear_arith)
        requires
            last <= u32::MAX,
            0 < block_size <= 0x100_0000,
    ;
    Range { start: first * block_size, end: (last + 1) * block_size }
}

/// The read of ranges of a file, after the memory tier was probed.
pub struct Read {
    /// The file's id.
    pub file_id: u64,
    /// What the probe found.
    pub probe: Probe,
}

impl BlockCache {
    /// Starts a demand read: interns the file and probes the memory tier for the
    /// blocks that the ranges touch.
    pub fn begin_read(&mut self, file: &FileKey, ranges: &[Range<u64>]) -> (r: Read)
        requires
            old(self).wf(),
            old(self)@.files.next_id < u64::MAX,
        ensures
            final(self).wf(),
            ({
                let s = old(self)@.with_files(
                    old(self)@.files.interned((file.namespace, file.path@)),
                );
                &&& r.file_id == s.files.ids[(file.namespace, file.path@)]
                &&& exists|needed: Seq<u32>|
                    {
                        &&& #[trigger] increasing(needed)
                        &&& forall|b: u32|
                            needed.contains(b) <==> exists|i: int|
                                0 <= i < ranges@.len() && touches(
                                    #[trigger] ranges@[i],
                                    s.block_size,
                                    b,
                                )
                        &&& final(self)@ == s.probed(r.file_id, needed)
                        &&& r.probe.missing@ == s.absent(r.file_id, needed)
                        &&& r.probe.effects.releases@ == s.probe_releases(r.file_id, needed)
                        &&& forall|b: u32| #[trigger]
                            r.probe.have@.contains_key(b) <==> (needed.contains(b) && s.resident(
                                (r.file_id, b),
                            ))
                        &&& forall|b: u32| #[trigger]
                            r.probe.have@.contains_key(b) ==> content(r.probe.have@[b]) == s.block(
                                (r.file_id, b),
                            ).data
                    }
            }),
            admit_views(r.probe.effects.admits@) == Seq::<(BlockKey, Seq<u8>)>::empty(),
            r.probe.effects.forgets@ == Seq::<u64>::empty(),
    {
        proof {
            self.wf_sound();
        }
        let file_id: u64 = self.intern(file);
        let block_size: u64 = self.block_size();
        let needed: Vec<u32> = needed_blocks(ranges, block_size);
        let probe: Probe = self.probe(file_id, &needed);
        assert(increasing(needed@));
        Read { file_id, probe }
    }

    /// Starts the filling of the blocks that neither tier has: each counts as a miss.
    pub fn begin_fill(&mut self, missing: &Vec<u32>) -> (f: Fill)
        requires
            old(self).wf(),
        ensures
            final(self).wf(),
            final(self)@ == old(self)@.missed(missing@.len()),
            increasing(f@.all),
            forall|b: u32| #[trigger] f@.all.contains(b) <==> missing@.contains(b),
            f@.to_process == f@.all,
            !f@.reclaim,
            f@.saved_error is None,
            f@.retry == Seq::<u32>::empty(),
    {
        let mut i: usize = 0;
        while i < missing.len()
            invariant
                i <= missing@.len(),
                self.wf(),
                self@ == old(self)@.missed(i as nat),
            decreases missing@.len() - i,
        {
            self.metrics_mut().record_miss();
            i = i + 1;
        }
        Fill::new(missing)
    }
}

/// The machine can hold the bytes of the range when it is assembled.
pub open spec fn fits_in_memory(r: Range<u64>, have: Map<u32, Bytes>, block_size: u64) -> bool {
    r.start < r.end && block_of(r.start, block_size) != block_of((r.end - 1) as u64, block_size)
        ==> r.end - r.start <= isize::MAX && spliced(
        have,
        block_of(r.start, block_size) as int,
        block_of((r.end - 1) as u64, block_size) as int,
        r.start as int,
        r.end as int,
        block_size as int,
    ).len() <= isize::MAX
}

/// Assembling the range gives `out` bytes.
pub open spec fn assembles_to(
    r: Range<u64>,
    have: Map<u32, Bytes>,
    block_size: u64,
    out: Bytes,
) -> bool {
    assembled(r, have, block_size, Ok(out))
}

/// The range can be assembled.
pub open spec fn can_be_assembled(r: Range<u64>, have: Map<u32, Bytes>, block_size: u64) -> bool {
    exists|b: Bytes| #[trigger] assembles_to(r, have, block_size, b)
}

/// What building every requested range gives: the bytes of each, in order, or the error
/// of the first that cannot be built.
pub open spec fn ranges_assembled(
    ranges: Seq<Range<u64>>,
    have: Map<u32, Bytes>,
    block_size: u64,
    out: Result<Vec<Bytes>, CacheError>,
) -> bool {
    match out {
        Ok(v) => v@.len() == ranges.len() && forall|i: int|
            0 <= i < v@.len() ==> assembles_to(ranges[i], have, block_size, #[trigger] v@[i]),
        Err(e) => exists|n: int|
            0 <= n < ranges.len() && #[trigger] assembled(ranges[n], have, block_size, Err(e))
                && forall|i: int|
                0 <= i < n ==> can_be_assembled(#[trigger] ranges[i], have, block_size),
    }
}

/// Builds the bytes of every requested range, in order. The first range that
/// cannot be built decides the error.
pub fn assemble_ranges(
    ranges: &[Range<u64>],
    have: &HashMap<u32, Bytes>,
    block_size: u64,
) -> (out: Result<Vec<Bytes>, CacheError>)
    requires
        0 < block_size <= MAX_BLOCK_SIZE,
        forall|i: int|
            0 <= i < ranges@.len() ==> fits_in_memory(#[trigger] ranges@[i], have@, block_size),
    ensures
        ranges_assembled(ranges@, have@, block_size, out),
{
    let mut v: Vec<Bytes> = Vec::new();
    let mut i: usize = 0;
    while i < ranges.len()
        invariant
            i <= ranges@.len(),
            v@.len() == i,
            0 < block_size <= MAX_BLOCK_SIZE,
            forall|j: int|
                0 <= j < ranges@.len() ==> fits_in_memory(#[trigger] ranges@[j], have@, block_size),
            forall|j: int|
                0 <= j < i ==> assembles_to(ranges@[j], have@, block_size, #[trigger] v@[j]),
        decreases ranges@.len() - i,
    {
        assert(fits_in_memory(ranges@[i as int], have@, block_size));
        match assemble_range(&ranges[i], have, block_size) {
            Ok(b) => {
                v.push(b);
            },
            Err(e) => {
                proof {
                    assert(assembled(ranges@[i as int], have@, block_size, Err(e)));
                    assert forall|j: int| 0 <= j < i implies can_be_assembled(
                        #[trigger] ranges@[j],
                        have@,
                        block_size,
                    ) by {
                        assert(assembles_to(ranges@[j], have@, block_size, v@[j]));
                    }
                }
                return Err(e);
            },
        }
        i = i + 1;
    }
    Ok(v)
}

/// Of the errors of a filling the first is kept.
pub proof fn the_first_error_is_kept(f: FillState, e: CacheError, b: u32)
    ensures
        f.saved_error is None ==> f.with_error(e).saved_error == Some(e),
        f.saved_error is Some ==> f.with_error(e).saved_error == f.saved_error,
        f.with_error(e).retry == f.retry && f.with_error(e).all == f.all
            && f.with_error(e).to_process == f.to_process && f.with_error(e).reclaim == f.reclaim,
        f.with_retry(b, e).saved_error == f.with_error(e).saved_error,
        f.with_retry(b, e).retry.len() == f.retry.len() + 1 && f.with_retry(b, e).retry.last() == b,
        f.with_retry(b, e).all == f.all && f.with_retry(b, e).to_process == f.to_process
            && f.with_retry(b, e).reclaim == f.reclaim,
{
}

/// A filling is done exactly where every block is at hand. Otherwise the blocks whose owners
/// failed them are tried again, all of them and no others, once; and where there are none, or
/// they were tried again already, the memory tier is consulted once more.
pub proof fn failed_blocks_are_tried_again_once(f: FillState, have: Map<u32, Bytes>)
    ensures
        f.next_step(have) == FillStep::Done <==> forall|i: int|
            0 <= i < f.all.len() ==> have.contains_key(#[trigger] f.all[i]),
        f.next_step(have) == FillStep::Retry <==> !all_at_hand(f.all, have) && !f.reclaim
            && f.retry.len() > 0,
        f.next_step(have) == FillStep::Retry ==> ({
            let g = f.after(f.next_step(have));
            &&& g.to_process == f.retry
            &&& g.reclaim
            &&& g.retry.len() == 0
            &&& g.all == f.all
            &&& g.saved_error == f.saved_error
            &&& forall|later: Map<u32, Bytes>| #[trigger] g.next_step(later) != FillStep::Retry
        }),
        f.next_step(have) != FillStep::Retry ==> f.after(f.next_step(have)) == f,
{
}

/// Consulting the memory tier once more keeps the state sound and every block's bytes.
pub proof fn consulting_once_more_keeps_contents(
    s: CacheState,
    file_id: u64,
    blocks: Seq<u32>,
    have: Map<u32, Seq<u8>>,
)
    requires
        s.sound(),
    ensures
        s.reprobed(file_id, blocks, have).sound(),
        s.reprobed(file_id, blocks, have).same_contents(s),
    decreases blocks.len(),
{
    if blocks.len() > 0 {
        let key = (file_id, blocks.last());
        let u = s.reprobed(file_id, blocks.drop_last(), have);
        consulting_once_more_keeps_contents(s, file_id, blocks.drop_last(), have);
        demand_hit_keeps_contents(u, key, true);
        let w = s.reprobed(file_id, blocks, have);
        assert forall|k: BlockKey| #[trigger] w.resident(k) == s.resident(k) && (w.resident(k)
            ==> w.block(k).data == s.block(k).data) by {
            assert(u.resident(k) == s.resident(k));
            assert(u.demand_hit(key, true).resident(k) == u.resident(k));
        }
    }
}

/// Consulting the memory tier once more brings every block asked for that it has by then, with
/// its bytes, and takes nothing away.
pub proof fn consulting_once_more_brings_what_is_resident(
    s: CacheState,
    file_id: u64,
    blocks: Seq<u32>,
    have: Map<u32, Seq<u8>>,
    b: u32,
)
    requires
        s.sound(),
    ensures
        s.regathered(file_id, blocks, have).contains_key(b) <==> have.contains_key(b) || (
        blocks.contains(b) && s.resident((file_id, b))),
        have.contains_key(b) ==> s.regathered(file_id, blocks, have)[b] == have[b],
        s.regathered(file_id, blocks, have).contains_key(b) && !have.contains_key(b)
            ==> s.regathered(file_id, blocks, have)[b] == s.block((file_id, b)).data,
    decreases blocks.len(),
{
    if blocks.len() > 0 {
        let t = blocks.drop_last();
        let x = blocks.last();
        let key = (file_id, x);
        consulting_once_more_brings_what_is_resident(s, file_id, t, have, b);
        consulting_once_more_keeps_contents(s, file_id, t, have);
        assert(blocks =~= t.push(x));
        assert(blocks.contains(b) <==> t.contains(b) || b == x) by {
            if t.contains(b) {
                let i = choose|i: int| 0 <= i < t.len() && t[i] == b;
                assert(blocks[i] == b);
            }
            if blocks.contains(b) {
                let i = choose|i: int| 0 <= i < blocks.len() && blocks[i] == b;
                if i < t.len() {
                    assert(t[i] == b);
                }
            }
            assert(blocks[blocks.len() - 1] == x);
        }
        let u = s.reprobed(file_id, t, have);
        assert(u.resident(key) == s.resident(key));
    }
}

/// The blocks that neither tier has count as misses, and nothing else changes.
pub proof fn misses_are_counted(s: CacheState, blocks: nat)
    ensures
        s.metrics.misses + blocks <= u64::MAX ==> s.missed(blocks).metrics.misses
            == s.metrics.misses + blocks,
        s.missed(blocks) == s.with_metrics(
            Metrics { misses: s.missed(blocks).metrics.misses, ..s.metrics },
        ),
{
}

} // verus!
