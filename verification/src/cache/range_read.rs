//! A demand read from its first probe to its last byte: what it has at hand and what it has
//! yet to do, one step after the other. The caller looks into the SSD tier, fetches and waits
//! between the steps; other readers use the cache meanwhile.

use std::collections::HashMap;
use std::ops::Range;

use bytes::Bytes;
use vstd::prelude::*;

use crate::cache::block_cache::{admit_views, wasted_credit, BlockCache, CacheState, Effects, Release};
use crate::cache::blocks::{
    assembled, block_slice, coalesce_runs, consecutive, file_bytes, increasing, is_coalesced,
    joined, joined_bytes, run_views, touches,
};
use crate::cache::bytes_ops::{bytes_clone, content};
use crate::cache::config::MAX_BLOCK_SIZE;
use crate::cache::coherence::{
    claimed_blocks_mirror_the_file, hand_mirrors, handed_over_blocks_mirror_the_file,
    read_returns_file_bytes, serves,
};
use crate::cache::error::CacheError;
use crate::cache::fill::{
    assemble_ranges, assembles_to, fits_in_memory, ranges_assembled, run_range, Fill, FillState,
    FillStep, Read,
};
use crate::cache::read::{at_hand, handed_over, Claims};
use crate::cache::read_ahead::lemma_absent;
use crate::cache::sieve::{BlockKey, BlockState};
use crate::cache::single_flight::claims_keep_the_order;
use crate::cache::version::{FileKey, FileVersion};
use crate::cache::whole_read::{
    complete, every_claimed_block_is_accounted_for, lemma_claims_exclude_each_other,
    lemma_handed_over_contains, lemma_handed_over_only, lemma_joined_contains,
    lemma_reclaiming_waits_for_nobody, lemma_regathered, probed_bytes,
};

verus! {

broadcast use vstd::std_specs::hash::group_hash_axioms;

/// What a read does next.
#[derive(Clone, Copy, Debug, PartialEq, Eq, Structural)]
pub enum ReadStage {
    /// Look for blocks in the SSD tier.
    Looking,
    /// Claim the blocks that a pass is due over.
    Due,
    /// Fetch what it owns, then wait for what others fetch.
    Passing,
    /// Look into the memory tier a last time.
    Last,
    /// Build the ranges.
    Settled,
}

/// The state of a read.
pub struct ReadState {
    pub file_id: u64,
    pub block_size: u64,
    /// The blocks that the ranges touch.
    pub needed: Seq<u32>,
    pub stage: ReadStage,
    /// The bytes at hand.
    pub have: Map<u32, Seq<u8>>,
    /// Blocks that are not in the memory tier, not yet looked for in the SSD tier.
    pub unseen: Seq<u32>,
    /// Blocks that neither tier has.
    pub lacking: Seq<u32>,
    /// The filling of the blocks that neither tier has.
    pub fill: FillState,
    /// The runs that this reader owns and has not fetched yet.
    pub runs: Seq<Seq<u32>>,
    /// The blocks of other readers that have not been delivered yet.
    pub awaited: Seq<u32>,
    /// The blocks of runs whose fetch failed.
    pub lost: Seq<u32>,
}

/// A step of a read.
pub enum ReadStep {
    /// The next block was looked for in the SSD tier.
    LookedUp(Option<Seq<u8>>),
    /// The filling was started.
    Filling,
    /// The blocks of a pass were claimed in the cache as it was, and what is owned was
    /// grouped into runs.
    Claimed(CacheState, Seq<Seq<u32>>),
    /// The next run was fetched.
    Fetched(Seq<u8>),
    /// The fetch of the next run failed.
    FetchFailed(CacheError),
    /// The next block that was waited for was delivered, or not.
    Delivered(Result<Seq<u8>, CacheError>),
    /// The pass was ended.
    PassEnded,
    /// The memory tier was looked into a last time.
    LookedAgain(CacheState),
}

/// The block is in one of the runs.
pub open spec fn in_runs(runs: Seq<Seq<u32>>, b: u32) -> bool {
    exists|i: int| 0 <= i < runs.len() && (#[trigger] runs[i]).contains(b)
}

impl ReadState {
    /// A read of blocks, after the memory tier was probed.
    pub open spec fn begun(s: CacheState, file_id: u64, needed: Seq<u32>) -> ReadState {
        ReadState {
            file_id,
            block_size: s.block_size,
            needed,
            stage: ReadStage::Looking,
            have: probed_bytes(s, file_id, needed),
            unseen: s.absent(file_id, needed),
            lacking: Seq::empty(),
            fill: FillState {
                all: Seq::empty(),
                to_process: Seq::empty(),
                reclaim: false,
                saved_error: None,
                retry: Seq::empty(),
            },
            runs: Seq::empty(),
            awaited: Seq::empty(),
            lost: Seq::empty(),
        }
    }

    /// What is due after a pass.
    pub open spec fn due(self) -> FillStep {
        if complete(self.fill.all, self.have) {
            FillStep::Done
        } else if self.fill.reclaim || self.fill.retry.len() == 0 {
            FillStep::Reprobe
        } else {
            FillStep::Retry
        }
    }

    /// The read can take the step.
    pub open spec fn allows(self, step: ReadStep) -> bool {
        match step {
            ReadStep::LookedUp(_) => self.stage == ReadStage::Looking && self.unseen.len() > 0,
            ReadStep::Filling => self.stage == ReadStage::Looking,
            ReadStep::Claimed(s, runs) => self.stage == ReadStage::Due && s.block_size
                == self.block_size && is_coalesced(
                s.owned(self.file_id, self.fill.to_process, self.fill.reclaim),
                s.max_coalesce_blocks,
                runs,
            ),
            ReadStep::Fetched(_) | ReadStep::FetchFailed(_) => self.stage == ReadStage::Passing
                && self.runs.len() > 0,
            ReadStep::Delivered(_) => self.stage == ReadStage::Passing && self.awaited.len() > 0,
            ReadStep::PassEnded => self.stage == ReadStage::Passing && self.runs.len() == 0
                && self.awaited.len() == 0,
            ReadStep::LookedAgain(s) => self.stage == ReadStage::Last && s.block_size
                == self.block_size,
        }
    }

    /// The read after the step.
    pub open spec fn after(self, step: ReadStep) -> ReadState {
        match step {
            ReadStep::LookedUp(Some(data)) => ReadState {
                have: self.have.insert(self.unseen[0], data),
                unseen: self.unseen.skip(1),
                ..self
            },
            ReadStep::LookedUp(None) => ReadState {
                lacking: self.lacking.push(self.unseen[0]),
                unseen: self.unseen.skip(1),
                ..self
            },
            ReadStep::Filling => {
                let all = self.lacking + self.unseen;
                ReadState {
                    stage: if all.len() == 0 {
                        ReadStage::Settled
                    } else {
                        ReadStage::Due
                    },
                    unseen: Seq::empty(),
                    lacking: Seq::empty(),
                    fill: FillState {
                        all,
                        to_process: all,
                        reclaim: false,
                        saved_error: None,
                        retry: Seq::empty(),
                    },
                    ..self
                }
            },
            ReadStep::Claimed(s, runs) => ReadState {
                stage: ReadStage::Passing,
                have: s.gathered(
                    self.have,
                    self.file_id,
                    self.fill.to_process,
                    self.fill.reclaim,
                ),
                runs,
                awaited: s.awaited(self.file_id, self.fill.to_process, self.fill.reclaim),
                ..self
            },
            ReadStep::Fetched(full) => ReadState {
                have: handed_over(
                    self.have,
                    self.runs[0][0],
                    self.runs[0],
                    full,
                    self.block_size,
                ),
                runs: self.runs.skip(1),
                ..self
            },
            ReadStep::FetchFailed(e) => ReadState {
                fill: self.fill.with_error(e),
                runs: self.runs.skip(1),
                lost: self.lost + self.runs[0],
                ..self
            },
            ReadStep::Delivered(Ok(data)) => ReadState {
                have: self.have.insert(self.awaited[0], data),
                awaited: self.awaited.skip(1),
                ..self
            },
            ReadStep::Delivered(Err(e)) => ReadState {
                fill: self.fill.with_retry(self.awaited[0], e),
                awaited: self.awaited.skip(1),
                ..self
            },
            ReadStep::PassEnded => ReadState {
                stage: match self.due() {
                    FillStep::Done => ReadStage::Settled,
                    FillStep::Retry => ReadStage::Due,
                    FillStep::Reprobe => ReadStage::Last,
                },
                fill: self.fill.after(self.due()),
                ..self
            },
            ReadStep::LookedAgain(s) => ReadState {
                stage: ReadStage::Settled,
                have: s.regathered(self.file_id, self.fill.all, self.have),
                ..self
            },
        }
    }

    /// What the step brings of the file is the file's, and the cache serves the file.
    pub open spec fn honest(self, step: ReadStep, file: Seq<u8>) -> bool {
        let z = self.block_size;
        match step {
            ReadStep::LookedUp(Some(data)) => data == block_slice(
                file,
                self.unseen[0] as int,
                z as int,
            ),
            ReadStep::Claimed(s, _) => s.sound() && serves(s, self.file_id, file),
            ReadStep::Fetched(full) => full == file_bytes(
                file,
                self.runs[0][0] * z,
                (self.runs[0].last() + 1) * z,
            ),
            ReadStep::Delivered(Ok(data)) => data == block_slice(
                file,
                self.awaited[0] as int,
                z as int,
            ),
            ReadStep::LookedAgain(s) => s.sound() && serves(s, self.file_id, file),
            _ => true,
        }
    }

    /// The block is yet to be claimed, fetched or delivered.
    pub open spec fn underway(self, b: u32) -> bool {
        match self.stage {
            ReadStage::Due => self.fill.to_process.contains(b),
            ReadStage::Passing => in_runs(self.runs, b) || self.awaited.contains(b)
                || self.fill.retry.contains(b),
            _ => false,
        }
    }

    /// Every block that the read needs is at hand, or the read knows what became of it.
    pub open spec fn accounts(self) -> bool {
        if self.stage == ReadStage::Looking {
            forall|b: u32| #[trigger]
                self.needed.contains(b) ==> self.have.contains_key(b) || self.unseen.contains(b)
                    || self.lacking.contains(b)
        } else {
            &&& forall|b: u32| #[trigger]
                self.needed.contains(b) ==> self.have.contains_key(b) || self.fill.all.contains(b)
            &&& forall|b: u32| #[trigger]
                self.fill.all.contains(b) ==> self.have.contains_key(b) || self.underway(b)
                    || self.lost.contains(b)
        }
    }

    /// The runs are runs, blocks are tried again only once, and no failure is forgotten.
    pub open spec fn shapely(self) -> bool {
        &&& self.block_size > 0
        &&& forall|i: int|
            0 <= i < self.runs.len() ==> (#[trigger] self.runs[i]).len() > 0 && consecutive(
                self.runs[i],
            )
        &&& self.stage == ReadStage::Looking || self.stage == ReadStage::Due || self.stage
            == ReadStage::Last ==> self.fill.retry.len() == 0
        &&& self.stage == ReadStage::Passing && self.fill.reclaim ==> self.awaited.len() == 0
            && self.fill.retry.len() == 0
        &&& self.lost.len() > 0 || self.fill.retry.len() > 0 ==> self.fill.saved_error is Some
        &&& self.stage == ReadStage::Looking ==> self.lost.len() == 0
    }

    /// No block is in two places: at hand, to be fetched, to be delivered, to be tried again,
    /// or lost with a fetch.
    pub open spec fn apart(self) -> bool {
        match self.stage {
            ReadStage::Looking => {
                &&& increasing(self.lacking + self.unseen)
                &&& forall|b: u32| #[trigger]
                    (self.lacking + self.unseen).contains(b) ==> !self.have.contains_key(b)
            },
            ReadStage::Due => {
                &&& increasing(self.fill.to_process)
                &&& forall|b: u32| #[trigger]
                    self.fill.to_process.contains(b) ==> !self.have.contains_key(b)
                        && !self.lost.contains(b)
            },
            ReadStage::Passing => {
                &&& increasing(joined(self.runs))
                &&& increasing(self.fill.retry + self.awaited)
                &&& forall|b: u32| #[trigger]
                    joined(self.runs).contains(b) ==> !self.have.contains_key(b)
                        && !self.lost.contains(b) && !(self.fill.retry + self.awaited).contains(b)
                &&& forall|b: u32| #[trigger]
                    (self.fill.retry + self.awaited).contains(b) ==> !self.have.contains_key(b)
                        && !self.lost.contains(b)
            },
            _ => true,
        }
    }

    /// What the read has at hand is the file's, and no block is unaccounted for.
    pub open spec fn reads(self, file: Seq<u8>) -> bool {
        self.shapely() && self.accounts() && hand_mirrors(self.have, file, self.block_size)
    }

    /// The read after steps.
    pub open spec fn taken(self, steps: Seq<ReadStep>) -> ReadState
        decreases steps.len(),
    {
        if steps.len() == 0 {
            self
        } else {
            self.taken(steps.drop_last()).after(steps.last())
        }
    }

    /// The read can take the steps, and what they bring of the file is the file's.
    pub open spec fn goes(self, steps: Seq<ReadStep>, file: Seq<u8>) -> bool
        decreases steps.len(),
    {
        steps.len() > 0 ==> {
            let before = self.taken(steps.drop_last());
            &&& self.goes(steps.drop_last(), file)
            &&& before.allows(steps.last())
            &&& before.honest(steps.last(), file)
        }
    }
}

/// No fetch of this reader failed.
pub open spec fn fetches_succeed(steps: Seq<ReadStep>) -> bool {
    forall|i: int| 0 <= i < steps.len() ==> !((#[trigger] steps[i]) is FetchFailed)
}

/// The first of some runs, and the others.
proof fn lemma_first_run(runs: Seq<Seq<u32>>)
    requires
        runs.len() > 0,
    ensures
        joined(runs) == runs[0] + joined(runs.skip(1)),
    decreases runs.len(),
{
    let rest = runs.skip(1);
    if runs.len() == 1 {
        assert(rest =~= Seq::empty());
        assert(runs.drop_last() =~= Seq::empty());
        assert(joined(runs) =~= runs[0] + joined(rest));
    } else {
        lemma_first_run(runs.drop_last());
        assert(runs.drop_last().skip(1) =~= rest.drop_last());
        assert(runs.last() == rest.last());
        assert(joined(runs) =~= runs[0] + joined(rest));
    }
}

proof fn lemma_in_runs(runs: Seq<Seq<u32>>, b: u32)
    ensures
        in_runs(runs, b) <==> joined(runs).contains(b),
    decreases runs.len(),
{
    if runs.len() > 0 {
        let shorter = runs.drop_last();
        lemma_in_runs(shorter, b);
        lemma_joined_contains(joined(shorter), runs.last(), b);
        if in_runs(runs, b) {
            let i = choose|i: int| 0 <= i < runs.len() && (#[trigger] runs[i]).contains(b);
            if i < shorter.len() {
                assert(shorter[i].contains(b));
            }
        }
        if in_runs(shorter, b) {
            let i = choose|i: int| 0 <= i < shorter.len() && (#[trigger] shorter[i]).contains(b);
            assert(runs[i].contains(b));
        }
        assert(runs[runs.len() - 1] == runs.last());
    }
}

proof fn lemma_first_or_later(s: Seq<u32>, b: u32)
    requires
        s.len() > 0,
    ensures
        s.contains(b) <==> b == s[0] || s.skip(1).contains(b),
{
    if s.contains(b) {
        let i = choose|i: int| 0 <= i < s.len() && s[i] == b;
        if i > 0 {
            assert(s.skip(1)[i - 1] == b);
        }
    }
    if s.skip(1).contains(b) {
        let i = choose|i: int| 0 <= i < s.skip(1).len() && s.skip(1)[i] == b;
        assert(s[i + 1] == b);
    }
    if b == s[0] {
        assert(s[0] == b);
    }
}

/// A step keeps a read's account of its blocks, what it has at hand the file's, and a lost
/// block is one of a fetch that failed.
pub proof fn a_step_keeps_a_read_honest(st: ReadState, step: ReadStep, file: Seq<u8>)
    requires
        st.reads(file),
        st.allows(step),
        st.honest(step, file),
    ensures
        st.after(step).reads(file),
        st.after(step).block_size == st.block_size,
        st.after(step).needed == st.needed,
        !(step is FetchFailed) ==> st.after(step).lost == st.lost,
{
    let t = st.after(step);
    match step {
        ReadStep::LookedUp(found) => {
            assert forall|b: u32| #[trigger] t.needed.contains(b) implies t.have.contains_key(b)
                || t.unseen.contains(b) || t.lacking.contains(b) by {
                assert(st.needed.contains(b));
                lemma_first_or_later(st.unseen, b);
                if found is None {
                    lemma_joined_contains(st.lacking, seq![st.unseen[0]], b);
                    assert(st.lacking.push(st.unseen[0]) =~= st.lacking + seq![st.unseen[0]]);
                    assert(seq![st.unseen[0]][0] == st.unseen[0]);
                }
            }
        },
        ReadStep::Filling => {
            let all = st.lacking + st.unseen;
            assert forall|b: u32| #[trigger] t.needed.contains(b) implies t.have.contains_key(b)
                || t.fill.all.contains(b) by {
                assert(st.needed.contains(b));
                lemma_joined_contains(st.lacking, st.unseen, b);
            }
        },
        ReadStep::Claimed(s, runs) => {
            let blocks = st.fill.to_process;
            let reclaim = st.fill.reclaim;
            claimed_blocks_mirror_the_file(s, st.have, st.file_id, blocks, reclaim, file);
            every_claimed_block_is_accounted_for(s, st.have, st.file_id, blocks, reclaim);
            if reclaim {
                lemma_reclaiming_waits_for_nobody(s, st.file_id, blocks);
            }
            assert forall|b: u32| st.have.contains_key(b) implies #[trigger] t.have.contains_key(
                b,
            ) by {}
            assert forall|b: u32| #[trigger] t.fill.all.contains(b) implies t.have.contains_key(b)
                || t.underway(b) || t.lost.contains(b) by {
                assert(st.fill.all.contains(b));
                lemma_in_runs(runs, b);
                if st.have.contains_key(b) {
                    assert(t.have.contains_key(b));
                } else if st.underway(b) {
                    assert(blocks.contains(b));
                }
            }
            assert forall|b: u32| #[trigger] t.needed.contains(b) implies t.have.contains_key(b)
                || t.fill.all.contains(b) by {
                assert(st.needed.contains(b));
                if st.have.contains_key(b) {
                    assert(t.have.contains_key(b));
                }
            }
        },
        ReadStep::Fetched(full) => {
            let run = st.runs[0];
            assert(run.len() > 0 && consecutive(run));
            assert(run[run.len() - 1] == run[0] + run.len() - 1);
            assert forall|i: int| 0 <= i < run.len() implies run[0] <= #[trigger] run[i]
                <= run.last() by {
                assert(run[i] == run[0] + i);
            }
            handed_over_blocks_mirror_the_file(
                st.have,
                run[0],
                run,
                run.last(),
                full,
                st.block_size,
                file,
            );
            lemma_handed_over_contains(st.have, run[0], run, full, st.block_size);
            lemma_runs_go_on(st, t);
            assert forall|b: u32| #[trigger] t.fill.all.contains(b) implies t.have.contains_key(b)
                || t.underway(b) || t.lost.contains(b) by {
                assert(st.fill.all.contains(b));
                if st.have.contains_key(b) || run.contains(b) {
                    assert(t.have.contains_key(b));
                }
            }
            assert forall|b: u32| #[trigger] t.needed.contains(b) implies t.have.contains_key(b)
                || t.fill.all.contains(b) by {
                assert(st.needed.contains(b));
                if st.have.contains_key(b) {
                    assert(t.have.contains_key(b));
                }
            }
        },
        ReadStep::FetchFailed(e) => {
            let run = st.runs[0];
            lemma_runs_go_on(st, t);
            assert(run.len() > 0);
            assert forall|b: u32| #[trigger] t.fill.all.contains(b) implies t.have.contains_key(b)
                || t.underway(b) || t.lost.contains(b) by {
                assert(st.fill.all.contains(b));
                lemma_joined_contains(st.lost, run, b);
            }
            assert forall|b: u32| #[trigger] t.needed.contains(b) implies t.have.contains_key(b)
                || t.fill.all.contains(b) by {
                assert(st.needed.contains(b));
            }
        },
        ReadStep::Delivered(delivered) => {
            let x = st.awaited[0];
            assert forall|b: u32| #[trigger] t.fill.all.contains(b) implies t.have.contains_key(b)
                || t.underway(b) || t.lost.contains(b) by {
                assert(st.fill.all.contains(b));
                lemma_first_or_later(st.awaited, b);
                if delivered is Err {
                    lemma_joined_contains(st.fill.retry, seq![x], b);
                    assert(st.fill.retry.push(x) =~= st.fill.retry + seq![x]);
                    assert(seq![x][0] == x);
                }
            }
            assert forall|b: u32| #[trigger] t.needed.contains(b) implies t.have.contains_key(b)
                || t.fill.all.contains(b) by {
                assert(st.needed.contains(b));
            }
        },
        ReadStep::PassEnded => {
            assert forall|b: u32| #[trigger] t.fill.all.contains(b) implies t.have.contains_key(b)
                || t.underway(b) || t.lost.contains(b) by {
                assert(st.fill.all.contains(b));
                if st.due() == FillStep::Done {
                    let i = choose|i: int| 0 <= i < st.fill.all.len() && st.fill.all[i] == b;
                    assert(st.have.contains_key(st.fill.all[i]));
                }
            }
            assert forall|b: u32| #[trigger] t.needed.contains(b) implies t.have.contains_key(b)
                || t.fill.all.contains(b) by {
                assert(st.needed.contains(b));
            }
        },
        ReadStep::LookedAgain(s) => {
            lemma_regathered(s, st.file_id, st.fill.all, st.have, file);
            assert forall|b: u32| #[trigger] t.fill.all.contains(b) implies t.have.contains_key(b)
                || t.underway(b) || t.lost.contains(b) by {
                assert(st.fill.all.contains(b));
                if st.have.contains_key(b) {
                    assert(t.have.contains_key(b));
                }
            }
            assert forall|b: u32| #[trigger] t.needed.contains(b) implies t.have.contains_key(b)
                || t.fill.all.contains(b) by {
                assert(st.needed.contains(b));
                if st.have.contains_key(b) {
                    assert(t.have.contains_key(b));
                }
            }
        },
    }
}

/// Once the first run is done with, the others are still runs, and a block was in the first
/// or is in one of them.
proof fn lemma_runs_go_on(st: ReadState, t: ReadState)
    requires
        st.runs.len() > 0,
        t.runs == st.runs.skip(1),
    ensures
        forall|i: int| 0 <= i < t.runs.len() ==> #[trigger] t.runs[i] == st.runs[i + 1],
        forall|b: u32| #[trigger]
            in_runs(st.runs, b) ==> st.runs[0].contains(b) || in_runs(t.runs, b),
{
    assert forall|b: u32| #[trigger] in_runs(st.runs, b) implies st.runs[0].contains(b) || in_runs(
        t.runs,
        b,
    ) by {
        let i = choose|i: int| 0 <= i < st.runs.len() && (#[trigger] st.runs[i]).contains(b);
        if i > 0 {
            assert(t.runs[i - 1] == st.runs[i]);
            assert(t.runs[i - 1].contains(b));
        }
    }
}

/// A read begins with its blocks accounted for, and with the file's bytes if the cache serves
/// the file.
pub proof fn a_read_begins_honest(
    s: CacheState,
    file_id: u64,
    needed: Seq<u32>,
    file: Seq<u8>,
)
    requires
        s.sound(),
        serves(s, file_id, file),
    ensures
        ReadState::begun(s, file_id, needed).reads(file),
{
    let st = ReadState::begun(s, file_id, needed);
    assert forall|b: u32| #[trigger] st.needed.contains(b) implies st.have.contains_key(b)
        || st.unseen.contains(b) || st.lacking.contains(b) by {
        lemma_absent(s, file_id, needed);
    }
    assert forall|b: u32| #[trigger] st.have.contains_key(b) implies st.have[b] == block_slice(
        file,
        b as int,
        s.block_size as int,
    ) by {
        assert(s.resident((file_id, b)));
    }
}

proof fn lemma_read_goes(
    start: ReadState,
    steps: Seq<ReadStep>,
    file: Seq<u8>,
)
    requires
        start.reads(file),
        start.goes(steps, file),
    ensures
        start.taken(steps).reads(file),
        start.taken(steps).block_size == start.block_size,
        start.taken(steps).needed == start.needed,
        fetches_succeed(steps) ==> start.taken(steps).lost == start.lost,
    decreases steps.len(),
{
    if steps.len() > 0 {
        let fewer = steps.drop_last();
        lemma_read_goes(start, fewer, file);
        a_step_keeps_a_read_honest(start.taken(fewer), steps.last(), file);
        if fetches_succeed(steps) {
            assert forall|i: int| 0 <= i < fewer.len() implies !((
            #[trigger] fewer[i]) is FetchFailed) by {
                assert(fewer[i] == steps[i]);
            }
            assert(steps[steps.len() - 1] == steps.last());
        }
    }
}

/// What a read that is settled ends with: the ranges, built of the blocks at hand, where every
/// missing block was brought, and else the first error seen.
pub open spec fn read_ends(
    st: ReadState,
    ranges: Seq<Range<u64>>,
    have: Map<u32, Bytes>,
    out: Result<Vec<Bytes>, CacheError>,
) -> bool {
    if complete(st.fill.all, st.have) {
        ranges_assembled(ranges, have, st.block_size, out)
    } else {
        out matches Err(e) && match st.fill.saved_error {
            Some(saved) => e == saved,
            None => e.is_internal("block missing after fill"@),
        }
    }
}

/// A settled read of ranges of a file ends with the bytes of the file or with an error. It
/// ends with the bytes where none of its fetches failed, and with an error only where one did,
/// which is then the first that it saw.
pub proof fn a_settled_read_gives_the_bytes_of_the_file(
    st: ReadState,
    file: Seq<u8>,
    ranges: Seq<Range<u64>>,
    have: Map<u32, Bytes>,
    out: Result<Vec<Bytes>, CacheError>,
)
    requires
        st.reads(file),
        st.stage == ReadStage::Settled,
        st.block_size <= MAX_BLOCK_SIZE,
        at_hand(have) == st.have,
        read_ends(st, ranges, have, out),
        within(ranges, st, file),
    ensures
        gives(ranges, file, out),
        st.lost.len() == 0 ==> out is Ok,
        out matches Err(e) ==> st.fill.saved_error == Some(e),
{
    let z = st.block_size;
    assert forall|b: u32| #[trigger] have.contains_key(b) <==> st.have.contains_key(b) by {
        assert(at_hand(have).contains_key(b) == have.contains_key(b));
    }
    if st.lost.len() == 0 {
        assert forall|i: int| 0 <= i < st.fill.all.len() implies st.have.contains_key(
            #[trigger] st.fill.all[i],
        ) by {
            assert(st.fill.all.contains(st.fill.all[i]));
        }
    }
    if complete(st.fill.all, st.have) {
        assert forall|b: u32| st.needed.contains(b) implies #[trigger] have.contains_key(b) by {
            if !st.have.contains_key(b) {
                let i = choose|i: int| 0 <= i < st.fill.all.len() && st.fill.all[i] == b;
                assert(st.have.contains_key(st.fill.all[i]));
            }
        }
        match out {
            Ok(v) => {
                assert forall|i: int| 0 <= i < ranges.len() implies content(#[trigger] v@[i])
                    == file_bytes(file, ranges[i].start as int, ranges[i].end as int) by {
                    let r = ranges[i];
                    assert(assembles_to(r, have, z, v@[i]));
                    assert forall|b: u32| touches(r, z, b) implies #[trigger] have.contains_key(
                        b,
                    ) by {
                        assert(st.needed.contains(b));
                    }
                    read_returns_file_bytes(r, have, file, z, Ok(v@[i]));
                }
            },
            Err(e) => {
                let n = choose|n: int|
                    0 <= n < ranges.len() && #[trigger] assembled(ranges[n], have, z, Err(e));
                let r = ranges[n];
                assert forall|b: u32| touches(r, z, b) implies #[trigger] have.contains_key(b) by {
                    assert(st.needed.contains(b));
                }
                read_returns_file_bytes(r, have, file, z, Err(e));
            },
        }
    }
}

/// A read of ranges gives the bytes of the file, byte for byte, whatever the tiers hold and
/// whoever else reads.
///
/// The read begins in a cache that serves the file and takes any steps that it can take: it
/// looks into the SSD tier, claims what is missing in the cache as it is by then, fetches the
/// runs of what it owns, is handed what it waits for, takes over once what it is failed, and
/// looks into the memory tier a last time. What it gives is never anything else than the file's
/// bytes, and where no fetch of its own fails, it gives them. Each step is one of
/// [`RangeRead`], whose contracts say so.
pub proof fn a_read_gives_the_bytes_of_the_file(
    s: CacheState,
    file_id: u64,
    needed: Seq<u32>,
    steps: Seq<ReadStep>,
    file: Seq<u8>,
    ranges: Seq<Range<u64>>,
    have: Map<u32, Bytes>,
    out: Result<Vec<Bytes>, CacheError>,
)
    requires
        s.sound(),
        serves(s, file_id, file),
        within(ranges, ReadState::begun(s, file_id, needed), file),
        ReadState::begun(s, file_id, needed).goes(steps, file),
        ({
            let end = ReadState::begun(s, file_id, needed).taken(steps);
            end.stage == ReadStage::Settled && at_hand(have) == end.have && read_ends(
                end,
                ranges,
                have,
                out,
            )
        }),
    ensures
        gives(ranges, file, out),
        fetches_succeed(steps) ==> out is Ok,
{
    let start = ReadState::begun(s, file_id, needed);
    a_read_begins_honest(s, file_id, needed, file);
    lemma_read_goes(start, steps, file);
    a_settled_read_gives_the_bytes_of_the_file(start.taken(steps), file, ranges, have, out);
}

proof fn lemma_increasing_but_one(s: Seq<u32>, i: int)
    requires
        increasing(s),
        0 <= i < s.len(),
    ensures
        increasing(s.remove(i)),
        !s.remove(i).contains(s[i]),
        forall|b: u32| s.remove(i).contains(b) ==> #[trigger] s.contains(b),
{
    let t = s.remove(i);
    assert forall|a: int, b: int| 0 <= a < b < t.len() implies t[a] < t[b] by {
        let a2 = if a < i { a } else { a + 1 };
        let b2 = if b < i { b } else { b + 1 };
        assert(s[a2] < s[b2]);
    }
    if t.contains(s[i]) {
        let a = choose|a: int| 0 <= a < t.len() && t[a] == s[i];
        if a < i {
            assert(s[a] < s[i]);
        } else {
            assert(s[i] < s[a + 1]);
        }
    }
    assert forall|b: u32| t.contains(b) implies #[trigger] s.contains(b) by {
        let a = choose|a: int| 0 <= a < t.len() && t[a] == b;
        let a2 = if a < i { a } else { a + 1 };
        assert(s[a2] == b);
    }
}

/// A step leaves no block in two places: one that is at hand is not fetched or waited for, one
/// that is fetched is not waited for, and one that is tried again or was lost with a fetch is
/// none of these.
pub proof fn a_step_leaves_no_block_in_two_places(st: ReadState, step: ReadStep)
    requires
        st.apart(),
        st.shapely(),
        st.allows(step),
    ensures
        st.after(step).apart(),
{
    let t = st.after(step);
    match step {
        ReadStep::LookedUp(found) => {
            let all = st.lacking + st.unseen;
            let i = st.lacking.len() as int;
            assert(all[i] == st.unseen[0]);
            match found {
                Some(_) => {
                    lemma_increasing_but_one(all, i);
                    assert(t.lacking + t.unseen =~= all.remove(i));
                    assert forall|b: u32| #[trigger]
                        (t.lacking + t.unseen).contains(b) implies !t.have.contains_key(b) by {
                        assert(all.contains(b));
                    }
                },
                None => {
                    assert(t.lacking + t.unseen =~= all);
                },
            }
        },
        ReadStep::Filling => {},
        ReadStep::Claimed(s, runs) => {
            let blocks = st.fill.to_process;
            let reclaim = st.fill.reclaim;
            let owned = s.owned(st.file_id, blocks, reclaim);
            let awaited = s.awaited(st.file_id, blocks, reclaim);
            claims_keep_the_order(s, st.file_id, blocks, reclaim);
            lemma_claims_exclude_each_other(s, st.have, st.file_id, blocks, reclaim);
            assert(t.fill.retry + t.awaited =~= awaited);
            assert forall|b: u32| #[trigger] joined(t.runs).contains(b) implies !t.have.contains_key(
                b,
            ) && !t.lost.contains(b) && !(t.fill.retry + t.awaited).contains(b) by {
                let i = choose|i: int| 0 <= i < owned.len() && owned[i] == b;
                assert(blocks.contains(owned[i]));
                assert(owned.contains(b));
            }
            assert forall|b: u32| #[trigger]
                (t.fill.retry + t.awaited).contains(b) implies !t.have.contains_key(b)
                && !t.lost.contains(b) by {
                let i = choose|i: int| 0 <= i < awaited.len() && awaited[i] == b;
                assert(blocks.contains(awaited[i]));
                assert(awaited.contains(b));
            }
        },
        ReadStep::Fetched(full) => {
            let run = st.runs[0];
            let all = joined(st.runs);
            let rest = joined(t.runs);
            lemma_first_run(st.runs);
            lemma_rest_is_apart(run, rest);
            assert forall|b: u32| #[trigger] rest.contains(b) implies !t.have.contains_key(b)
                && !t.lost.contains(b) && !(t.fill.retry + t.awaited).contains(b) by {
                lemma_joined_contains(run, rest, b);
                assert(all.contains(b));
                lemma_handed_over_only(st.have, run[0], run, full, st.block_size, b);
            }
            assert forall|b: u32| #[trigger]
                (t.fill.retry + t.awaited).contains(b) implies !t.have.contains_key(b)
                && !t.lost.contains(b) by {
                assert((st.fill.retry + st.awaited).contains(b));
                lemma_handed_over_only(st.have, run[0], run, full, st.block_size, b);
                lemma_joined_contains(run, rest, b);
                if run.contains(b) {
                    assert(all.contains(b));
                }
            }
        },
        ReadStep::FetchFailed(e) => {
            let run = st.runs[0];
            let all = joined(st.runs);
            let rest = joined(t.runs);
            lemma_first_run(st.runs);
            lemma_rest_is_apart(run, rest);
            assert forall|b: u32| #[trigger] rest.contains(b) implies !t.have.contains_key(b)
                && !t.lost.contains(b) && !(t.fill.retry + t.awaited).contains(b) by {
                lemma_joined_contains(run, rest, b);
                lemma_joined_contains(st.lost, run, b);
                assert(all.contains(b));
            }
            assert forall|b: u32| #[trigger]
                (t.fill.retry + t.awaited).contains(b) implies !t.have.contains_key(b)
                && !t.lost.contains(b) by {
                assert((st.fill.retry + st.awaited).contains(b));
                lemma_joined_contains(run, rest, b);
                lemma_joined_contains(st.lost, run, b);
                if run.contains(b) {
                    assert(all.contains(b));
                }
            }
        },
        ReadStep::Delivered(delivered) => {
            let all = st.fill.retry + st.awaited;
            let i = st.fill.retry.len() as int;
            let now = t.fill.retry + t.awaited;
            assert(all[i] == st.awaited[0]);
            assert(all.contains(st.awaited[0]));
            match delivered {
                Ok(_) => {
                    lemma_increasing_but_one(all, i);
                    assert(now =~= all.remove(i));
                },
                Err(_) => {
                    assert(now =~= all);
                },
            }
            assert forall|b: u32| #[trigger] joined(t.runs).contains(b) implies !t.have.contains_key(
                b,
            ) && !t.lost.contains(b) && !now.contains(b) by {
                assert(joined(st.runs).contains(b));
                assert(!all.contains(b));
            }
            assert forall|b: u32| #[trigger] now.contains(b) implies !t.have.contains_key(b)
                && !t.lost.contains(b) by {
                assert(all.contains(b));
            }
        },
        ReadStep::PassEnded => {
            assert(st.fill.retry + st.awaited =~= st.fill.retry);
        },
        ReadStep::LookedAgain(_) => {},
    }
}

proof fn lemma_rest_is_apart(run: Seq<u32>, rest: Seq<u32>)
    requires
        increasing(run + rest),
    ensures
        increasing(rest),
        forall|b: u32| #[trigger] rest.contains(b) ==> !run.contains(b),
{
    let all = run + rest;
    assert forall|i: int, j: int| 0 <= i < j < rest.len() implies rest[i] < rest[j] by {
        assert(all[run.len() + i] < all[run.len() + j]);
    }
    assert forall|b: u32| #[trigger] rest.contains(b) implies !run.contains(b) by {
        if run.contains(b) {
            let i = choose|i: int| 0 <= i < run.len() && run[i] == b;
            let j = choose|j: int| 0 <= j < rest.len() && rest[j] == b;
            assert(all[i] < all[run.len() + j]);
        }
    }
}

/// A read begins with no block in two places.
proof fn lemma_begun_is_apart(s: CacheState, file_id: u64, needed: Seq<u32>)
    requires
        increasing(needed),
    ensures
        ReadState::begun(s, file_id, needed).apart(),
{
    let st = ReadState::begun(s, file_id, needed);
    lemma_absent(s, file_id, needed);
    assert(st.lacking + st.unseen =~= st.unseen);
    assert forall|b: u32| #[trigger] (st.lacking + st.unseen).contains(b) implies
        !st.have.contains_key(b) by {
        lemma_absent(s, file_id, needed);
    }
}

/// The numbers of an increasing list are its only increasing order.
proof fn lemma_increasing_is_unique(a: Seq<u32>, b: Seq<u32>)
    requires
        increasing(a),
        increasing(b),
        forall|x: u32| #[trigger] a.contains(x) <==> b.contains(x),
    ensures
        a == b,
    decreases a.len(),
{
    if a.len() == 0 {
        if b.len() > 0 {
            assert(b.contains(b[0]));
            assert(a.contains(b[0]));
        }
        assert(a =~= b);
    } else {
        assert(a.contains(a.last()));
        assert(b.contains(a.last()));
        assert(b.contains(b.last()));
        assert(a.contains(b.last()));
        let i = choose|i: int| 0 <= i < b.len() && b[i] == a.last();
        let j = choose|j: int| 0 <= j < a.len() && a[j] == b.last();
        if i < b.len() - 1 {
            assert(b[i] < b[b.len() - 1]);
            if j < a.len() - 1 {
                assert(a[j] < a[a.len() - 1]);
            }
        }
        assert(a.last() == b.last());
        let n = a.len() - 1;
        let m = b.len() - 1;
        lemma_increasing_but_one(a, n);
        lemma_increasing_but_one(b, m);
        assert(a.remove(n) =~= a.drop_last());
        assert(b.remove(m) =~= b.drop_last());
        assert forall|x: u32| #[trigger] a.drop_last().contains(x) <==> b.drop_last().contains(
            x,
        ) by {
            lemma_joined_contains(a.drop_last(), seq![a.last()], x);
            lemma_joined_contains(b.drop_last(), seq![b.last()], x);
            assert(a =~= a.drop_last() + seq![a.last()]);
            assert(b =~= b.drop_last() + seq![b.last()]);
            assert(seq![a.last()][0] == a.last());
            assert(a.contains(x) <==> b.contains(x));
        }
        lemma_increasing_is_unique(a.drop_last(), b.drop_last());
        assert(a =~= a.drop_last().push(a.last()));
        assert(b =~= b.drop_last().push(b.last()));
    }
}

/// What was found, as mathematical values.
pub open spec fn found_bytes(found: Option<Bytes>) -> Option<Seq<u8>> {
    match found {
        Some(data) => Some(content(data)),
        None => None,
    }
}

/// What was delivered, as mathematical values.
pub open spec fn delivered_bytes(delivered: Result<Bytes, CacheError>) -> Result<
    Seq<u8>,
    CacheError,
> {
    match delivered {
        Ok(data) => Ok(content(data)),
        Err(e) => Err(e),
    }
}

/// A demand read under way.
pub struct RangeRead {
    file_id: u64,
    block_size: u64,
    needed: Ghost<Seq<u32>>,
    stage: ReadStage,
    have: HashMap<u32, Bytes>,
    missing: Vec<u32>,
    looked: usize,
    lacking: Vec<u32>,
    fill: Fill,
    runs: Vec<Vec<u32>>,
    next_run: usize,
    awaited: Vec<u32>,
    delivered: usize,
    lost: Ghost<Seq<u32>>,
}

impl View for RangeRead {
    type V = ReadState;

    closed spec fn view(&self) -> ReadState {
        ReadState {
            file_id: self.file_id,
            block_size: self.block_size,
            needed: self.needed@,
            stage: self.stage,
            have: at_hand(self.have@),
            unseen: self.missing@.skip(self.looked as int),
            lacking: self.lacking@,
            fill: self.fill@,
            runs: run_views(self.runs@).skip(self.next_run as int),
            awaited: self.awaited@.skip(self.delivered as int),
            lost: self.lost@,
        }
    }
}

impl RangeRead {
    /// The lists are read within their bounds, and no block is in two places.
    pub closed spec fn wf(&self) -> bool {
        &&& self.looked <= self.missing@.len()
        &&& self.next_run <= self.runs@.len()
        &&& self.delivered <= self.awaited@.len()
        &&& 0 < self.block_size <= MAX_BLOCK_SIZE
        &&& self@.shapely()
        &&& self@.apart()
    }

    /// The blocks at hand.
    pub closed spec fn blocks(&self) -> Map<u32, Bytes> {
        self.have@
    }

    /// Starts a read: the memory tier is probed for the blocks that the ranges touch.
    pub fn begin(cache: &mut BlockCache, file: &FileKey, ranges: &[Range<u64>]) -> (r: (
        RangeRead,
        Effects,
    ))
        requires
            old(cache).wf(),
            old(cache)@.files.next_id < u64::MAX,
        ensures
            final(cache).wf(),
            r.0.wf(),
            ({
                let s = old(cache)@.with_files(
                    old(cache)@.files.interned((file.namespace, file.path@)),
                );
                let id = s.files.ids[(file.namespace, file.path@)];
                let needed = r.0@.needed;
                &&& increasing(needed)
                &&& forall|b: u32|
                    needed.contains(b) <==> exists|i: int|
                        0 <= i < ranges@.len() && touches(#[trigger] ranges@[i], s.block_size, b)
                &&& r.0@ == ReadState::begun(s, id, needed)
                &&& final(cache)@ == s.probed(id, needed)
                &&& r.1.releases@ == s.probe_releases(id, needed)
            }),
            admit_views(r.1.admits@) == Seq::<(BlockKey, Seq<u8>)>::empty(),
            r.1.forgets@ == Seq::<u64>::empty(),
    {
        proof {
            cache.wf_sound();
        }
        let ghost s = cache@.with_files(cache@.files.interned((file.namespace, file.path@)));
        let block_size: u64 = cache.block_size();
        let read: Read = cache.begin_read(file, ranges);
        let ghost needed = choose|needed: Seq<u32>|
            {
                &&& #[trigger] increasing(needed)
                &&& forall|b: u32|
                    needed.contains(b) <==> exists|i: int|
                        0 <= i < ranges@.len() && touches(#[trigger] ranges@[i], s.block_size, b)
                &&& cache@ == s.probed(read.file_id, needed)
                &&& read.probe.missing@ == s.absent(read.file_id, needed)
                &&& read.probe.effects.releases@ == s.probe_releases(read.file_id, needed)
                &&& forall|b: u32| #[trigger]
                    read.probe.have@.contains_key(b) <==> (needed.contains(b) && s.resident(
                        (read.file_id, b),
                    ))
                &&& forall|b: u32| #[trigger]
                    read.probe.have@.contains_key(b) ==> content(read.probe.have@[b]) == s.block(
                        (read.file_id, b),
                    ).data
            };
        let none: Vec<u32> = Vec::new();
        let fill: Fill = Fill::new(&none);
        let r = RangeRead {
            file_id: read.file_id,
            block_size,
            needed: Ghost(needed),
            stage: ReadStage::Looking,
            have: read.probe.have,
            missing: read.probe.missing,
            looked: 0,
            lacking: Vec::new(),
            fill,
            runs: Vec::new(),
            next_run: 0,
            awaited: Vec::new(),
            delivered: 0,
            lost: Ghost(Seq::empty()),
        };
        proof {
            let st = ReadState::begun(s, read.file_id, needed);
            assert(fill@.all =~= Seq::<u32>::empty()) by {
                if fill@.all.len() > 0 {
                    assert(fill@.all.contains(fill@.all[0]));
                }
            }
            assert(r@.have =~= st.have);
            assert(r@.unseen =~= st.unseen);
            assert(r@.lacking =~= st.lacking);
            assert(r@.runs =~= st.runs);
            assert(r@.awaited =~= st.awaited);
            assert(r@ == st);
            lemma_begun_is_apart(s, read.file_id, needed);
        }
        (r, read.probe.effects)
    }

    /// The file's id.
    pub fn file_id(&self) -> (id: u64)
        ensures
            id == self@.file_id,
    {
        self.file_id
    }

    /// What the read does next.
    pub fn stage(&self) -> (stage: ReadStage)
        ensures
            stage == self@.stage,
    {
        self.stage
    }

    /// The bytes of a block, where they are at hand.
    pub fn block(&self, b: u32) -> (r: Option<Bytes>)
        ensures
            match r {
                Some(data) => self@.have.contains_key(b) && content(data) == self@.have[b],
                None => !self@.have.contains_key(b),
            },
    {
        proof {
            assert(self@.have.contains_key(b) == self.have@.contains_key(b));
        }
        match self.have.get(&b) {
            Some(data) => Some(bytes_clone(data)),
            None => None,
        }
    }

    /// The next block to look for in the SSD tier.
    pub fn next_missing(&self) -> (b: Option<u32>)
        requires
            self.wf(),
        ensures
            match b {
                Some(x) => self@.unseen.len() > 0 && x == self@.unseen[0],
                None => self@.unseen.len() == 0,
            },
    {
        if self.looked < self.missing.len() {
            Some(self.missing[self.looked])
        } else {
            None
        }
    }

    /// Takes in what the SSD tier had of the next block. A block that it had moves back into
    /// the memory tier.
    pub fn take_lookup(&mut self, cache: &mut BlockCache, found: Option<Bytes>) -> (effects:
        Effects)
        requires
            old(self).wf(),
            old(cache).wf(),
            old(self)@.stage == ReadStage::Looking,
            old(self)@.unseen.len() > 0,
        ensures
            final(self).wf(),
            final(cache).wf(),
            final(self)@ == old(self)@.after(
                ReadStep::LookedUp(found_bytes(found)),
            ),
            match found {
                Some(data) => {
                    let key = (old(self)@.file_id, old(self)@.unseen[0]);
                    let block = BlockState::promoted(content(data));
                    let out = old(cache)@.evicted_by(key, block);
                    &&& final(cache)@ == old(cache)@.inserted(key, block)
                    &&& effects.releases@ == wasted_credit(out)
                    &&& admit_views(effects.admits@) == old(cache)@.admitted(out)
                },
                None => {
                    &&& final(cache)@ == old(cache)@
                    &&& effects.releases@ == Seq::<Release>::empty()
                    &&& admit_views(effects.admits@) == Seq::<(BlockKey, Seq<u8>)>::empty()
                },
            },
            effects.forgets@ == Seq::<u64>::empty(),
    {
        let ghost st = self@;
        let ghost step = ReadStep::LookedUp(found_bytes(found));
        let at: usize = self.looked;
        assert(at < self.missing.len());
        let b: u32 = self.missing[at];
        proof {
            a_step_leaves_no_block_in_two_places(st, step);
        }
        let ghost hand0 = self.have@;
        let effects: Effects = match found {
            Some(data) => {
                let copy: Bytes = bytes_clone(&data);
                self.have.insert(b, data);
                assert(at_hand(self.have@) =~= at_hand(hand0).insert(b, content(data)));
                cache.promote_from_ssd((self.file_id, b), copy)
            },
            None => {
                self.lacking.push(b);
                Effects::none()
            },
        };
        self.looked = at + 1;
        proof {
            assert(self@.unseen =~= st.unseen.skip(1));
            assert(self@ == st.after(step));
        }
        effects
    }

    /// Starts the filling of the blocks that neither tier has: each counts as a miss. Those
    /// that were not looked for in the SSD tier are taken to be missing there.
    pub fn start_filling(&mut self, cache: &mut BlockCache)
        requires
            old(self).wf(),
            old(cache).wf(),
            old(self)@.stage == ReadStage::Looking,
        ensures
            final(self).wf(),
            final(cache).wf(),
            final(self)@ == old(self)@.after(ReadStep::Filling),
            final(cache)@ == old(cache)@.missed(final(self)@.fill.all.len()),
    {
        let ghost st = self@;
        let ghost all = st.lacking + st.unseen;
        proof {
            a_step_leaves_no_block_in_two_places(st, ReadStep::Filling);
        }
        let mut rest: Vec<u32> = Vec::new();
        std::mem::swap(&mut rest, &mut self.lacking);
        while self.looked < self.missing.len()
            invariant
                self.looked <= self.missing@.len(),
                rest@ + self.missing@.skip(self.looked as int) == all,
                *self == (RangeRead { looked: self.looked, lacking: self.lacking, ..*old(self) }),
                self.lacking@ == Seq::<u32>::empty(),
            decreases self.missing@.len() - self.looked,
        {
            let ghost before = rest@ + self.missing@.skip(self.looked as int);
            rest.push(self.missing[self.looked]);
            self.looked = self.looked + 1;
            assert(rest@ + self.missing@.skip(self.looked as int) =~= before);
        }
        assert(rest@ =~= all);
        let fill: Fill = cache.begin_fill(&rest);
        proof {
            lemma_increasing_is_unique(fill@.all, all);
        }
        self.fill = fill;
        self.stage = if rest.len() == 0 {
            ReadStage::Settled
        } else {
            ReadStage::Due
        };
        proof {
            assert(self@.unseen =~= Seq::<u32>::empty());
            assert(self@ == st.after(ReadStep::Filling));
        }
    }

    /// Claims the blocks that a pass is due over. What is owned is grouped into runs to be
    /// fetched; what is waited for is delivered by other readers.
    pub fn claim(&mut self, cache: &mut BlockCache) -> (c: Claims)
        requires
            old(self).wf(),
            old(cache).wf(),
            old(self)@.stage == ReadStage::Due,
            old(self)@.block_size == old(cache)@.block_size,
        ensures
            final(self).wf(),
            final(cache).wf(),
            ({
                let st = old(self)@;
                let s = old(cache)@;
                let blocks = st.fill.to_process;
                let step = ReadStep::Claimed(s, final(self)@.runs);
                &&& st.allows(step)
                &&& final(self)@ == st.after(step)
                &&& final(cache)@ == s.claimed(st.file_id, blocks, st.fill.reclaim)
                &&& c.owned@ == s.owned(st.file_id, blocks, st.fill.reclaim)
                &&& c.waiting@ == s.awaited(st.file_id, blocks, st.fill.reclaim)
                &&& c.effects.releases@ == s.claim_releases(st.file_id, blocks, st.fill.reclaim)
            }),
            admit_views(c.effects.admits@) == Seq::<(BlockKey, Seq<u8>)>::empty(),
            c.effects.forgets@ == Seq::<u64>::empty(),
    {
        let ghost st = self@;
        let ghost s = cache@;
        let max: u32 = cache.max_coalesce_blocks();
        let c: Claims = cache.claim_pass(
            self.file_id,
            self.fill.blocks(),
            self.fill.reclaims(),
            &mut self.have,
        );
        proof {
            claims_keep_the_order(s, st.file_id, st.fill.to_process, st.fill.reclaim);
            assert forall|i: int| 0 <= i < c.owned@.len() - 1 implies (#[trigger] c.owned@[i])
                < u32::MAX by {
                assert(c.owned@[i] < c.owned@[i + 1]);
            }
        }
        let runs: Vec<Vec<u32>> = coalesce_runs(c.owned.as_slice(), max);
        let ghost step = ReadStep::Claimed(s, run_views(runs@));
        proof {
            a_step_leaves_no_block_in_two_places(st, step);
            if st.fill.reclaim {
                lemma_reclaiming_waits_for_nobody(s, st.file_id, st.fill.to_process);
            }
        }
        self.runs = runs;
        self.next_run = 0;
        self.awaited = listed(&c.waiting);
        self.delivered = 0;
        self.stage = ReadStage::Passing;
        proof {
            assert(self@.runs =~= run_views(runs@));
            assert(self@.awaited =~= c.waiting@);
            assert(self@ == st.after(step));
        }
        c
    }

    /// The run to fetch next.
    pub fn next_run(&self) -> (run: Option<Vec<u32>>)
        requires
            self.wf(),
        ensures
            match run {
                Some(r) => self@.runs.len() > 0 && r@ == self@.runs[0] && r@.len() > 0,
                None => self@.runs.len() == 0,
            },
    {
        if self.next_run < self.runs.len() {
            assert(self@.runs[0] == self.runs@[self.next_run as int]@);
            Some(listed(&self.runs[self.next_run]))
        } else {
            None
        }
    }

    /// The bytes of the file that the run to fetch next is.
    pub fn next_range(&self) -> (r: Option<Range<u64>>)
        requires
            self.wf(),
        ensures
            match r {
                Some(x) => self@.runs.len() > 0 && x.start == self@.runs[0][0] * self@.block_size
                    && x.end == (self@.runs[0].last() + 1) * self@.block_size,
                None => self@.runs.len() == 0,
            },
    {
        if self.next_run < self.runs.len() {
            assert(self@.runs[0] == self.runs@[self.next_run as int]@);
            Some(run_range(&self.runs[self.next_run], self.block_size))
        } else {
            None
        }
    }

    /// Takes in what the fetch of the next run brought.
    pub fn take_fetched(
        &mut self,
        cache: &mut BlockCache,
        pieces: Vec<Bytes>,
        version: &FileVersion,
    ) -> (effects: Effects)
        requires
            old(self).wf(),
            old(cache).wf(),
            old(self)@.stage == ReadStage::Passing,
            old(self)@.runs.len() > 0,
            old(self)@.block_size == old(cache)@.block_size,
            pieces@.len() > 1 ==> joined_bytes(pieces@).len() <= isize::MAX,
        ensures
            final(self).wf(),
            final(cache).wf(),
            ({
                let full = joined_bytes(pieces@);
                let id = old(self)@.file_id;
                let run = old(self)@.runs[0];
                let s = old(cache)@.run_fetched(full).reconciled(id, *version);
                let out = s.publish_evictions(id, run[0], run, full, None);
                &&& final(self)@ == old(self)@.after(ReadStep::Fetched(full))
                &&& final(cache)@ == old(cache)@.run_completed(id, run, full, *version)
                &&& effects.releases@ == wasted_credit(out)
                &&& admit_views(effects.admits@) == s.admitted(out)
                &&& effects.forgets@ == old(cache)@.files.outdated(id, *version)
            }),
    {
        let ghost st = self@;
        let ghost full = joined_bytes(pieces@);
        let ghost step = ReadStep::Fetched(full);
        let at: usize = self.next_run;
        assert(at < self.runs.len());
        proof {
            assert(st.runs[0] == self.runs@[at as int]@);
            assert(st.runs[0].len() > 0 && consecutive(st.runs[0]));
            assert forall|i: int| 0 <= i < st.runs[0].len() implies st.runs[0][0]
                <= #[trigger] st.runs[0][i] by {
                assert(st.runs[0][i] == st.runs[0][0] + i);
            }
            a_step_leaves_no_block_in_two_places(st, step);
            lemma_runs_go_on(st, st.after(step));
        }
        let effects: Effects = cache.complete_run(
            self.file_id,
            &self.runs[at],
            pieces,
            version,
            &mut self.have,
        );
        self.next_run = at + 1;
        proof {
            assert(self@.runs =~= st.runs.skip(1));
            assert(self@ == st.after(step));
        }
        effects
    }

    /// Takes in that the fetch of the next run failed. Its blocks are not tried again.
    pub fn take_failure(&mut self, cache: &mut BlockCache, e: CacheError)
        requires
            old(self).wf(),
            old(cache).wf(),
            old(self)@.stage == ReadStage::Passing,
            old(self)@.runs.len() > 0,
        ensures
            final(self).wf(),
            final(cache).wf(),
            final(self)@ == old(self)@.after(ReadStep::FetchFailed(e)),
            final(cache)@ == old(cache)@.run_failed(old(self)@.file_id, old(self)@.runs[0]),
    {
        let ghost st = self@;
        let ghost step = ReadStep::FetchFailed(e);
        let at: usize = self.next_run;
        assert(at < self.runs.len());
        proof {
            assert(st.runs[0] == self.runs@[at as int]@);
            a_step_leaves_no_block_in_two_places(st, step);
            lemma_runs_go_on(st, st.after(step));
        }
        cache.fail_run(self.file_id, &self.runs[at]);
        self.fill.note_fetch_error(e);
        self.next_run = at + 1;
        proof {
            self.lost@ = st.lost + st.runs[0];
            assert(self@.runs =~= st.runs.skip(1));
            assert(self@ == st.after(step));
        }
    }

    /// The block to wait for next.
    pub fn next_awaited(&self) -> (b: Option<u32>)
        requires
            self.wf(),
        ensures
            match b {
                Some(x) => self@.awaited.len() > 0 && x == self@.awaited[0],
                None => self@.awaited.len() == 0,
            },
    {
        if self.delivered < self.awaited.len() {
            Some(self.awaited[self.delivered])
        } else {
            None
        }
    }

    /// Takes in what was delivered of the next block that was waited for: its bytes, which
    /// count as read once, or the error that kept them away, after which the block is tried
    /// again.
    pub fn take_delivery(
        &mut self,
        cache: &mut BlockCache,
        delivered: Result<Bytes, CacheError>,
    ) -> (effects: Effects)
        requires
            old(self).wf(),
            old(cache).wf(),
            old(self)@.stage == ReadStage::Passing,
            old(self)@.awaited.len() > 0,
        ensures
            final(self).wf(),
            final(cache).wf(),
            final(self)@ == old(self)@.after(ReadStep::Delivered(delivered_bytes(delivered))),
            ({
                let key = (old(self)@.file_id, old(self)@.awaited[0]);
                if delivered is Ok {
                    &&& final(cache)@ == old(cache)@.demand_hit(key, false)
                    &&& effects.releases@ == old(cache)@.demand_release(key)
                } else {
                    &&& final(cache)@ == old(cache)@
                    &&& effects.releases@ == Seq::<Release>::empty()
                }
            }),
            admit_views(effects.admits@) == Seq::<(BlockKey, Seq<u8>)>::empty(),
            effects.forgets@ == Seq::<u64>::empty(),
    {
        let ghost st = self@;
        let ghost step = ReadStep::Delivered(delivered_bytes(delivered));
        let at: usize = self.delivered;
        assert(at < self.awaited.len());
        let b: u32 = self.awaited[at];
        proof {
            a_step_leaves_no_block_in_two_places(st, step);
        }
        let mut effects: Effects = Effects::none();
        if delivered.is_ok() {
            cache.note_demand_hit((self.file_id, b), false, &mut effects);
            assert(effects.releases@ =~= old(cache)@.demand_release((st.file_id, b)));
        }
        let ghost hand0 = self.have@;
        self.fill.note_delivery(b, delivered, &mut self.have);
        self.delivered = at + 1;
        proof {
            if delivered_bytes(delivered) is Ok {
                assert(at_hand(self.have@) =~= at_hand(hand0).insert(
                    b,
                    delivered_bytes(delivered)->Ok_0,
                ));
            }
            assert(self@.awaited =~= st.awaited.skip(1));
            assert(self@ == st.after(step));
        }
        effects
    }

    /// Ends a pass, and says what is due.
    pub fn end_pass(&mut self) -> (step: FillStep)
        requires
            old(self).wf(),
            old(self)@.stage == ReadStage::Passing,
            old(self)@.runs.len() == 0,
            old(self)@.awaited.len() == 0,
        ensures
            final(self).wf(),
            step == old(self)@.due(),
            final(self)@ == old(self)@.after(ReadStep::PassEnded),
    {
        let ghost st = self@;
        proof {
            a_step_leaves_no_block_in_two_places(st, ReadStep::PassEnded);
            assert forall|b: u32| #[trigger] st.have.contains_key(b) == self.have@.contains_key(
                b,
            ) by {}
        }
        let step: FillStep = self.fill.after_pass(&self.have);
        assert(step == st.due());
        self.stage = match step {
            FillStep::Done => ReadStage::Settled,
            FillStep::Retry => ReadStage::Due,
            FillStep::Reprobe => ReadStage::Last,
        };
        assert(self@ == st.after(ReadStep::PassEnded));
        step
    }

    /// Looks into the memory tier a last time for the blocks that are not at hand.
    pub fn look_again(&mut self, cache: &mut BlockCache) -> (effects: Effects)
        requires
            old(self).wf(),
            old(cache).wf(),
            old(self)@.stage == ReadStage::Last,
        ensures
            final(self).wf(),
            final(cache).wf(),
            ({
                let st = old(self)@;
                &&& final(self)@ == st.after(ReadStep::LookedAgain(old(cache)@))
                &&& final(cache)@ == old(cache)@.reprobed(st.file_id, st.fill.all, st.have)
                &&& effects.releases@ == old(cache)@.reprobe_releases(
                    st.file_id,
                    st.fill.all,
                    st.have,
                )
            }),
            admit_views(effects.admits@) == Seq::<(BlockKey, Seq<u8>)>::empty(),
            effects.forgets@ == Seq::<u64>::empty(),
    {
        let ghost st = self@;
        let ghost s = cache@;
        let effects: Effects = cache.reprobe(self.file_id, &self.fill, &mut self.have);
        self.stage = ReadStage::Settled;
        assert(self@ == st.after(ReadStep::LookedAgain(s)));
        effects
    }

    /// Builds the ranges of a settled read. Where it has at hand what is a file's, they are
    /// what the file holds there, byte for byte, and it fails only where a fetch of its own
    /// did.
    pub fn finish(&self, ranges: &[Range<u64>]) -> (out: Result<Vec<Bytes>, CacheError>)
        requires
            self.wf(),
            self@.stage == ReadStage::Settled,
            forall|i: int|
                0 <= i < ranges@.len() ==> fits_in_memory(
                    #[trigger] ranges@[i],
                    self.blocks(),
                    self@.block_size,
                ),
        ensures
            at_hand(self.blocks()) == self@.have,
            read_ends(self@, ranges@, self.blocks(), out),
            forall|file: Seq<u8>| #[trigger]
                self@.reads(file) && within(ranges@, self@, file) ==> gives(ranges@, file, out) && (
                self@.lost.len() == 0 ==> out is Ok),
    {
        proof {
            assert forall|b: u32| #[trigger] self@.have.contains_key(b) == self.have@.contains_key(
                b,
            ) by {}
        }
        let out: Result<Vec<Bytes>, CacheError> = match self.fill.finish(&self.have) {
            Err(e) => Err(e),
            Ok(()) => assemble_ranges(ranges, &self.have, self.block_size),
        };
        proof {
            assert forall|file: Seq<u8>| #[trigger]
                self@.reads(file) && within(ranges@, self@, file) implies gives(ranges@, file, out)
                && (self@.lost.len() == 0 ==> out is Ok) by {
                a_settled_read_gives_the_bytes_of_the_file(
                    self@,
                    file,
                    ranges@,
                    self.blocks(),
                    out,
                );
            }
        }
        out
    }
}

/// The ranges are those that the read was begun for, start within the file, and end within
/// the blocks that can be numbered.
pub open spec fn within(ranges: Seq<Range<u64>>, st: ReadState, file: Seq<u8>) -> bool {
    &&& forall|i: int, b: u32|
        0 <= i < ranges.len() && touches(#[trigger] ranges[i], st.block_size, b)
            ==> #[trigger] st.needed.contains(b)
    &&& forall|i: int| 0 <= i < ranges.len() ==> (#[trigger] ranges[i]).start <= file.len()
    &&& forall|i: int|
        0 <= i < ranges.len() && (#[trigger] ranges[i]).start < ranges[i].end ==> (ranges[i].end
            - 1) as u64 / st.block_size <= u32::MAX
}

/// What comes out, if it is no error, is what the file holds in the ranges.
pub open spec fn gives(
    ranges: Seq<Range<u64>>,
    file: Seq<u8>,
    out: Result<Vec<Bytes>, CacheError>,
) -> bool {
    out matches Ok(v) ==> v@.len() == ranges.len() && forall|i: int|
        0 <= i < ranges.len() ==> content(#[trigger] v@[i]) == file_bytes(
            file,
            ranges[i].start as int,
            ranges[i].end as int,
        )
}

fn listed(v: &Vec<u32>) -> (r: Vec<u32>)
    ensures
        r@ == v@,
{
    let mut r: Vec<u32> = Vec::new();
    let mut i: usize = 0;
    while i < v.len()
        invariant
            i <= v@.len(),
            r@ == v@.take(i as int),
        decreases v@.len() - i,
    {
        r.push(v[i]);
        assert(v@.take(i + 1) =~= v@.take(i as int).push(v@[i as int]));
        i = i + 1;
    }
    assert(v@.take(v@.len() as int) =~= v@);
    r
}

/// After a pass a read is done exactly where every block it fills is at hand; otherwise it
/// tries again what others failed to deliver, if it has not done so before, and else looks
/// into the memory tier a last time.
pub proof fn a_pass_is_followed_by_what_is_due(st: ReadState)
    ensures
        st.due() == FillStep::Done <==> forall|i: int|
            0 <= i < st.fill.all.len() ==> st.have.contains_key(#[trigger] st.fill.all[i]),
        st.due() == FillStep::Retry <==> !(st.due() == FillStep::Done) && !st.fill.reclaim
            && st.fill.retry.len() > 0,
        st.due() == FillStep::Reprobe <==> !(st.due() == FillStep::Done) && (st.fill.reclaim
            || st.fill.retry.len() == 0),
        st.due() == FillStep::Retry ==> st.after(ReadStep::PassEnded).fill.to_process
            == st.fill.retry && st.after(ReadStep::PassEnded).fill.reclaim,
        st.due() == FillStep::Done ==> st.after(ReadStep::PassEnded).stage == ReadStage::Settled,
        st.due() == FillStep::Retry ==> st.after(ReadStep::PassEnded).stage == ReadStage::Due,
        st.due() == FillStep::Reprobe ==> st.after(ReadStep::PassEnded).stage == ReadStage::Last,
{
}

} // verus!
