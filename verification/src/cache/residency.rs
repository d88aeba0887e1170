//! What stays in the memory tier: a block that was put there is there until it is evicted or
//! dropped, so that it need not be fetched again.

use vstd::prelude::*;

use crate::cache::block_cache::{sound_shard, CacheState, VersionDecision};
use crate::cache::blocks::block_slice;
use crate::cache::coherence::{
    flights_keep_contents, insertion_keeps_soundness, invalidation_drops_exactly_the_file,
    lemma_home, lemma_position,
};
use crate::cache::metrics::Metrics;
use crate::cache::range_read::{ReadStage, ReadState, ReadStep};
use crate::cache::read::{lemma_published_settings, probing_keeps_contents};
use crate::cache::single_flight::claiming_begins_flights;
use crate::cache::sieve::{
    appears_in, distinct_keys, evicted_until, eviction_loses_no_block, holds, position, same_block,
    BlockKey, BlockState, Credit, Slot,
};
use crate::cache::version::FileVersion;
use crate::cache::whole_read::{
    a_read_of_resident_blocks_makes_no_fetch, complete, lemma_handed_over_only, probed_bytes,
};

verus! {

/// Every block that is resident in the one is resident in the other, with the same bytes:
/// nothing was evicted, dropped or cleared from the one to the other.
pub open spec fn keeps(s: CacheState, t: CacheState) -> bool {
    forall|k: BlockKey| #[trigger]
        s.resident(k) ==> t.resident(k) && t.block(k).data == s.block(k).data
}

/// Every block that is resident in the one is resident in the other with the same bytes, or
/// is among those that were evicted.
pub open spec fn keeps_but(s: CacheState, t: CacheState, out: Seq<Slot>) -> bool {
    forall|k: BlockKey| #[trigger]
        s.resident(k) && !holds(out, k) ==> t.resident(k) && t.block(k).data == s.block(k).data
}

/// A block that is put into the memory tier is there afterwards, unless it is evicted at
/// once, and so is every block that was there before. One that was there already keeps its
/// bytes.
pub proof fn an_inserted_block_is_resident(s: CacheState, key: BlockKey, block: BlockState)
    requires
        s.sound(),
    ensures
        s.inserted(key, block).sound(),
        keeps_but(s, s.inserted(key, block), s.evicted_by(key, block)),
        !holds(s.evicted_by(key, block), key) ==> s.inserted(key, block).resident(key),
        !holds(s.evicted_by(key, block), key) && !s.resident(key) ==> s.inserted(
            key,
            block,
        ).block(key).data == block.data,
{
    let t = s.inserted(key, block);
    let out = s.evicted_by(key, block);
    lemma_home(s, key);
    let h = s.home(key);
    let sh = s.shards[h];
    let q = sh.queue;
    assert(sound_shard(sh));
    insertion_keeps_soundness(s, key, block);
    if s.resident(key) {
        assert(t.shards =~= s.shards);
    } else {
        let p = q.push(Slot { key, block });
        assert(distinct_keys(p)) by {
            assert forall|a: int, b: int| 0 <= a < b < p.len() implies (#[trigger] p[a]).key != (
            #[trigger] p[b]).key by {
                if b < q.len() {
                    assert(q[a].key != q[b].key);
                } else {
                    assert(q[a].key != key);
                }
            }
        }
        vstd::arithmetic::div_mod::lemma_div_pos_is_pos(
            s.memory_budget as int,
            s.shards.len() as int,
        );
        eviction_loses_no_block(p, sh.hand, sh.budget);
        let r = evicted_until(p, sh.hand, sh.budget);
        assert(t.shards[h].queue == r.0);
        assert(out == r.2);
        assert forall|k: BlockKey| s.home(k) == h && holds(p, k) && !holds(out, k) implies {
            &&& #[trigger] t.resident(k)
            &&& t.block(k).data == p[position(p, k)].block.data
        } by {
            lemma_home(s, k);
            assert(holds(r.0, k));
            lemma_position(r.0, k);
            lemma_position(p, k);
            let x = r.0[position(r.0, k)];
            assert(appears_in(x, p));
            let j = choose|j: int|
                0 <= j < p.len() && (#[trigger] p[j]).key == x.key && same_block(p[j].block, x.block);
            assert(j == position(p, k));
        }
        assert forall|k: BlockKey| #[trigger] s.resident(k) && !holds(out, k) implies t.resident(k)
            && t.block(k).data == s.block(k).data by {
            lemma_home(s, k);
            if s.home(k) == h {
                lemma_position(q, k);
                let i = position(q, k);
                assert(p[i] == q[i]);
                assert(p[i].key == k);
                assert(holds(p, k));
                lemma_position(p, k);
                assert(t.resident(k));
            } else {
                assert(t.shards[s.home(k)] == s.shards[s.home(k)]);
            }
        }
        assert(p[q.len() as int].key == key);
        assert(holds(p, key));
        lemma_position(p, key);
        if !holds(out, key) {
            assert(t.resident(key));
        }
    }
}

/// Steps that lose no block lose none together.
pub proof fn keeping_is_transitive(a: CacheState, b: CacheState, c: CacheState)
    requires
        keeps(a, b),
        keeps(b, c),
    ensures
        keeps(a, c),
{
    assert forall|k: BlockKey| #[trigger] a.resident(k) implies c.resident(k) && c.block(k).data
        == a.block(k).data by {
        assert(b.resident(k));
    }
}

proof fn lemma_holds_joined(a: Seq<Slot>, b: Seq<Slot>, k: BlockKey)
    ensures
        holds(a + b, k) <==> holds(a, k) || holds(b, k),
{
    let all = a + b;
    if holds(a, k) {
        let i = choose|i: int| 0 <= i < a.len() && (#[trigger] a[i]).key == k;
        assert(all[i].key == k);
    }
    if holds(b, k) {
        let i = choose|i: int| 0 <= i < b.len() && (#[trigger] b[i]).key == k;
        assert(all[a.len() + i].key == k);
    }
    if holds(all, k) {
        let i = choose|i: int| 0 <= i < all.len() && (#[trigger] all[i]).key == k;
        if i < a.len() {
            assert(a[i].key == k);
        } else {
            assert(b[i - a.len()].key == k);
        }
    }
}

/// The blocks of a run that was published, by a demand read or a read-ahead, are in the
/// memory tier afterwards, but for those that publishing it evicts, and so is every block
/// that was there before. A block that was not there before has the bytes that were fetched.
pub proof fn a_published_run_is_resident(
    s: CacheState,
    file_id: u64,
    start: u32,
    run: Seq<u32>,
    full: Seq<u8>,
    credit: Option<Credit>,
)
    requires
        s.sound(),
        run.no_duplicates(),
    ensures
        ({
            let t = s.published(file_id, start, run, full, credit);
            let out = s.publish_evictions(file_id, start, run, full, credit);
            &&& t.sound()
            &&& keeps_but(s, t, out)
            &&& forall|b: u32| #[trigger]
                run.contains(b) && !holds(out, (file_id, b)) ==> {
                    &&& t.resident((file_id, b))
                    &&& !s.resident((file_id, b)) ==> t.block((file_id, b)).data == block_slice(
                        full,
                        b - start,
                        s.block_size as int,
                    )
                }
            &&& forall|k: BlockKey| #[trigger]
                t.resident(k) ==> s.resident(k) || (k.0 == file_id && run.contains(k.1))
        }),
    decreases run.len(),
{
    let t = s.published(file_id, start, run, full, credit);
    let out = s.publish_evictions(file_id, start, run, full, credit);
    if run.len() > 0 {
        let shorter = run.drop_last();
        let b = run.last();
        let key = (file_id, b);
        let block = s.run_block(start, b, full, credit);
        let c = s.published(file_id, start, shorter, full, credit);
        let before = s.publish_evictions(file_id, start, shorter, full, credit);
        let now = c.evicted_by(key, block);
        let u = c.inserted(key, block);
        assert(run[run.len() - 1] == b);
        assert(!shorter.contains(b)) by {
            if shorter.contains(b) {
                let i = choose|i: int| 0 <= i < shorter.len() && shorter[i] == b;
                assert(run[i] == b);
            }
        }
        assert(shorter.no_duplicates()) by {
            assert forall|i: int, j: int|
                0 <= i < shorter.len() && 0 <= j < shorter.len() && i != j implies shorter[i]
                != shorter[j] by {
                assert(shorter[i] == run[i] && shorter[j] == run[j]);
            }
        }
        a_published_run_is_resident(s, file_id, start, shorter, full, credit);
        lemma_published_settings(s, file_id, start, shorter, full, credit);
        an_inserted_block_is_resident(c, key, block);
        an_inserted_block_is_new_or_old(c, key, block);
        flights_keep_contents(u, key);
        assert(t == u.flight_ended(key));
        assert forall|k: BlockKey| holds(out, k) <==> holds(before, k) || holds(now, k) by {
            lemma_holds_joined(before, now, k);
        }
        assert forall|k: BlockKey| #[trigger] s.resident(k) && !holds(out, k) implies t.resident(k)
            && t.block(k).data == s.block(k).data by {
            assert(c.resident(k));
            assert(u.resident(k));
            assert(t.resident(k) == u.resident(k));
        }
        assert forall|x: u32| #[trigger]
            run.contains(x) && !holds(out, (file_id, x)) implies t.resident((file_id, x)) && (
        !s.resident((file_id, x)) ==> t.block((file_id, x)).data == block_slice(
            full,
            x - start,
            s.block_size as int,
        )) by {
            let k = (file_id, x);
            if x == b {
                if !s.resident(k) && c.resident(k) {
                    assert(shorter.contains(x));
                }
                assert(u.resident(k));
            } else {
                let i = choose|i: int| 0 <= i < run.len() && run[i] == x;
                assert(shorter[i] == x);
                assert(shorter.contains(x));
                assert(c.resident(k));
                assert(u.resident(k));
            }
            assert(t.resident(k) == u.resident(k));
        }
        assert forall|k: BlockKey| #[trigger] t.resident(k) implies s.resident(k) || (k.0 == file_id
            && run.contains(k.1)) by {
            assert(t.resident(k) == u.resident(k));
            if k != key {
                assert(c.resident(k));
                if k.0 == file_id && shorter.contains(k.1) {
                    let i = choose|i: int| 0 <= i < shorter.len() && shorter[i] == k.1;
                    assert(run[i] == k.1);
                }
            }
        }
    }
}

/// A block that is resident after another was put into the memory tier was there before, or
/// is the one.
proof fn an_inserted_block_is_new_or_old(s: CacheState, key: BlockKey, block: BlockState)
    requires
        s.sound(),
    ensures
        forall|k: BlockKey| #[trigger]
            s.inserted(key, block).resident(k) ==> s.resident(k) || k == key,
{
    let t = s.inserted(key, block);
    lemma_home(s, key);
    let h = s.home(key);
    let sh = s.shards[h];
    let q = sh.queue;
    assert(sound_shard(sh));
    if s.resident(key) {
        assert(t.shards =~= s.shards);
    } else {
        let p = q.push(Slot { key, block });
        assert(distinct_keys(p)) by {
            assert forall|a: int, b: int| 0 <= a < b < p.len() implies (#[trigger] p[a]).key != (
            #[trigger] p[b]).key by {
                if b < q.len() {
                    assert(q[a].key != q[b].key);
                } else {
                    assert(q[a].key != key);
                }
            }
        }
        vstd::arithmetic::div_mod::lemma_div_pos_is_pos(
            s.memory_budget as int,
            s.shards.len() as int,
        );
        eviction_loses_no_block(p, sh.hand, sh.budget);
        let r = evicted_until(p, sh.hand, sh.budget);
        assert forall|k: BlockKey| #[trigger] t.resident(k) implies s.resident(k) || k == key by {
            lemma_home(s, k);
            if s.home(k) == h {
                let i = choose|i: int| 0 <= i < r.0.len() && (#[trigger] r.0[i]).key == k;
                assert(appears_in(r.0[i], p));
                let j = choose|j: int|
                    0 <= j < p.len() && (#[trigger] p[j]).key == r.0[i].key && same_block(
                        p[j].block,
                        r.0[i].block,
                    );
                if j < q.len() {
                    assert(q[j].key == k);
                }
            } else {
                assert(t.shards[s.home(k)] == s.shards[s.home(k)]);
            }
        }
    }
}

/// The blocks of a run that was fetched are in the memory tier once the fetch is taken in,
/// but for those that taking it in evicts, and so are the blocks that were there before,
/// unless the fetch showed that the file changed. What is counted makes no difference, so
/// that this holds of a demand read and of a read-ahead.
pub proof fn a_completed_fetch_is_resident(
    s: CacheState,
    counted: Metrics,
    file_id: u64,
    run: Seq<u32>,
    full: Seq<u8>,
    version: FileVersion,
    credit: Option<Credit>,
)
    requires
        s.sound(),
        run.len() > 0,
        run.no_duplicates(),
    ensures
        ({
            let c = s.with_metrics(counted).reconciled(file_id, version);
            let t = c.published(file_id, run[0], run, full, credit);
            let out = c.publish_evictions(file_id, run[0], run, full, credit);
            &&& t.sound()
            &&& forall|b: u32| #[trigger]
                run.contains(b) && !holds(out, (file_id, b)) ==> t.resident((file_id, b))
            &&& s.files.decision(file_id, version) != VersionDecision::Overwritten ==> keeps_but(
                s,
                t,
                out,
            )
            &&& forall|k: BlockKey|
                k.0 != file_id && #[trigger] s.resident(k) && !holds(out, k) ==> t.resident(k)
                    && t.block(k).data == s.block(k).data
        }),
{
    let m = s.with_metrics(counted);
    let noted = m.with_files(m.files.observed(file_id, version));
    let c = m.reconciled(file_id, version);
    assert(m.sound());
    assert(noted.sound());
    assert forall|k: BlockKey| #[trigger] s.resident(k) implies noted.resident(k) && noted.block(k)
        == s.block(k) by {}
    if m.files.decision(file_id, version) == VersionDecision::Overwritten {
        let w = noted.without_blocks_of(file_id);
        invalidation_drops_exactly_the_file(noted, file_id);
        assert(c.shards == w.shards);
        assert(c.sound());
        assert forall|k: BlockKey| k.0 != file_id && #[trigger] s.resident(k) implies c.resident(k)
            && c.block(k) == s.block(k) by {
            assert(noted.resident(k));
            assert(w.resident(k) == (noted.resident(k) && k.0 != file_id));
            assert(c.resident(k) == w.resident(k));
            assert(c.block(k) == w.block(k));
        }
    } else {
        assert(c == noted);
    }
    a_published_run_is_resident(c, file_id, run[0], run, full, credit);
    let t = c.published(file_id, run[0], run, full, credit);
    let out = c.publish_evictions(file_id, run[0], run, full, credit);
    assert forall|k: BlockKey|
        (k.0 != file_id || m.files.decision(file_id, version) != VersionDecision::Overwritten)
            && #[trigger] s.resident(k) && !holds(out, k) implies t.resident(k) && t.block(k).data
        == s.block(k).data by {
        assert(c.resident(k));
    }
}

/// A read of blocks that were all resident at some time since which no block has left makes
/// no fetch: none of them is missing, each counts as a hit and none as a miss, and each has
/// the bytes that it had.
///
/// The states are those of the cache from a first read or read-ahead on. A block that it
/// found, or that a fetch brought, was resident in one of them.
pub proof fn a_second_read_makes_no_fetch(
    states: Seq<CacheState>,
    file_id: u64,
    needed: Seq<u32>,
)
    requires
        states.len() > 0,
        states.last().sound(),
        forall|i: int| 0 <= i < states.len() - 1 ==> keeps(#[trigger] states[i], states[i + 1]),
        forall|j: int|
            0 <= j < needed.len() ==> exists|i: int|
                0 <= i < states.len() && (#[trigger] states[i]).resident(
                    (file_id, #[trigger] needed[j]),
                ),
    ensures
        ({
            let t = states.last();
            let probed = t.probed(file_id, needed);
            &&& t.absent(file_id, needed).len() == 0
            &&& probed.metrics.fetches == t.metrics.fetches
            &&& probed.metrics.misses == t.metrics.misses
            &&& probed.metrics.hits as int == (t.metrics.hits + needed.len())
                % 0x1_0000_0000_0000_0000
            &&& forall|i: int, j: int|
                0 <= i < states.len() && 0 <= j < needed.len() && (#[trigger] states[i]).resident(
                    (file_id, #[trigger] needed[j]),
                ) ==> probed_bytes(t, file_id, needed)[needed[j]] == states[i].block(
                    (file_id, needed[j]),
                ).data
        }),
{
    let t = states.last();
    assert forall|i: int| 0 <= i < states.len() implies keeps(#[trigger] states[i], t) by {
        lemma_keeps_to_the_last(states, i);
    }
    assert forall|j: int| 0 <= j < needed.len() implies t.resident(
        (file_id, #[trigger] needed[j]),
    ) by {
        let i = choose|i: int|
            0 <= i < states.len() && (#[trigger] states[i]).resident((file_id, needed[j]));
        assert(keeps(states[i], t));
    }
    a_read_of_resident_blocks_makes_no_fetch(t, file_id, needed);
    assert forall|i: int, j: int|
        0 <= i < states.len() && 0 <= j < needed.len() && (#[trigger] states[i]).resident(
            (file_id, #[trigger] needed[j]),
        ) implies probed_bytes(t, file_id, needed)[needed[j]] == states[i].block(
        (file_id, needed[j]),
    ).data by {
        assert(keeps(states[i], t));
        assert(needed.contains(needed[j]));
        assert(probed_bytes(t, file_id, needed).contains_key(needed[j]));
    }
}

proof fn lemma_keeps_to_the_last(states: Seq<CacheState>, i: int)
    requires
        0 <= i < states.len(),
        forall|i: int| 0 <= i < states.len() - 1 ==> keeps(#[trigger] states[i], states[i + 1]),
    ensures
        keeps(states[i], states.last()),
    decreases states.len() - i,
{
    if i < states.len() - 1 {
        lemma_keeps_to_the_last(states, i + 1);
        assert(keeps(states[i], states[i + 1]));
        keeping_is_transitive(states[i], states[i + 1], states.last());
    }
}

/// The blocks that a step of a read brings to hand are in the memory tier of a cache.
pub open spec fn brings_resident(st: ReadState, step: ReadStep, c: CacheState) -> bool {
    forall|b: u32| #[trigger]
        st.after(step).have.contains_key(b) && !st.have.contains_key(b) ==> c.resident(
            (st.file_id, b),
        )
}

/// A block that the SSD tier had is in the memory tier once it was taken in, if it is not
/// evicted at once.
pub proof fn a_block_found_on_ssd_is_resident(st: ReadState, data: Seq<u8>, s: CacheState)
    requires
        s.sound(),
        st.unseen.len() > 0,
        !holds(
            s.evicted_by((st.file_id, st.unseen[0]), BlockState::promoted(data)),
            (st.file_id, st.unseen[0]),
        ),
    ensures
        brings_resident(
            st,
            ReadStep::LookedUp(Some(data)),
            s.inserted((st.file_id, st.unseen[0]), BlockState::promoted(data)),
        ),
{
    an_inserted_block_is_resident(
        s,
        (st.file_id, st.unseen[0]),
        BlockState::promoted(data),
    );
}

/// What a claim brings to hand is in the memory tier.
pub proof fn what_a_claim_finds_is_resident(st: ReadState, s: CacheState, runs: Seq<Seq<u32>>)
    requires
        s.sound(),
    ensures
        brings_resident(
            st,
            ReadStep::Claimed(s, runs),
            s.claimed(st.file_id, st.fill.to_process, st.fill.reclaim),
        ),
{
    let blocks = st.fill.to_process;
    let reclaim = st.fill.reclaim;
    let t = s.claimed(st.file_id, blocks, reclaim);
    claiming_begins_flights(s, st.file_id, blocks, reclaim);
    assert forall|b: u32| #[trigger]
        st.after(ReadStep::Claimed(s, runs)).have.contains_key(b) && !st.have.contains_key(
            b,
        ) implies t.resident((st.file_id, b)) by {
        lemma_gathered_is_resident(s, st.have, st.file_id, blocks, reclaim, b);
        assert(t.resident((st.file_id, b)) == s.resident((st.file_id, b)));
    }
}

proof fn lemma_gathered_is_resident(
    s: CacheState,
    have: Map<u32, Seq<u8>>,
    file_id: u64,
    blocks: Seq<u32>,
    reclaim: bool,
    b: u32,
)
    requires
        s.sound(),
    ensures
        s.gathered(have, file_id, blocks, reclaim).contains_key(b) ==> have.contains_key(b)
            || s.resident((file_id, b)),
    decreases blocks.len(),
{
    if blocks.len() > 0 {
        let shorter = blocks.drop_last();
        lemma_gathered_is_resident(s, have, file_id, shorter, reclaim, b);
        claiming_begins_flights(s, file_id, shorter, reclaim);
        let t = s.claimed(file_id, shorter, reclaim);
        let key = (file_id, blocks.last());
        assert(t.resident(key) == s.resident(key));
    }
}

/// The blocks of a run that a read fetched are in the memory tier once the fetch was taken in,
/// if none of them is evicted at once.
pub proof fn a_fetched_run_is_resident(
    st: ReadState,
    s: CacheState,
    full: Seq<u8>,
    version: FileVersion,
)
    requires
        s.sound(),
        st.runs.len() > 0,
        st.runs[0].len() > 0,
        st.runs[0].no_duplicates(),
        ({
            let c = s.run_fetched(full).reconciled(st.file_id, version);
            let out = c.publish_evictions(st.file_id, st.runs[0][0], st.runs[0], full, None);
            forall|b: u32| #[trigger]
                st.runs[0].contains(b) ==> !holds(out, (st.file_id, b))
        }),
    ensures
        brings_resident(
            st,
            ReadStep::Fetched(full),
            s.run_completed(st.file_id, st.runs[0], full, version),
        ),
{
    let run = st.runs[0];
    let counted = s.run_fetched(full).metrics;
    assert(s.run_fetched(full) == s.with_metrics(counted));
    a_completed_fetch_is_resident(s, counted, st.file_id, run, full, version, None);
    assert forall|b: u32| #[trigger]
        st.after(ReadStep::Fetched(full)).have.contains_key(b) && !st.have.contains_key(
            b,
        ) implies s.run_completed(st.file_id, run, full, version).resident((st.file_id, b)) by {
        lemma_handed_over_only(st.have, run[0], run, full, st.block_size, b);
        assert(run.contains(b));
    }
}

/// Reading the same blocks again, when no block has left the cache since a read began, makes
/// no fetch: none of them is missing, and each counts as a hit and none as a miss.
///
/// The first read brought every block that it needed, and what each of its steps brought was
/// in the memory tier after it. The states are those of the cache from its probe on: after each
/// of its steps, and at last when the blocks are read again.
pub proof fn a_read_again_makes_no_fetch(
    s: CacheState,
    file_id: u64,
    needed: Seq<u32>,
    steps: Seq<ReadStep>,
    states: Seq<CacheState>,
)
    requires
        s.sound(),
        states.len() == steps.len() + 2,
        states[0] == s.probed(file_id, needed),
        states.last().sound(),
        forall|i: int| 0 <= i < states.len() - 1 ==> keeps(#[trigger] states[i], states[i + 1]),
        forall|i: int|
            #![trigger steps[i]]
            0 <= i < steps.len() ==> brings_resident(
                ReadState::begun(s, file_id, needed).taken(steps.take(i)),
                steps[i],
                states[i + 1],
            ),
        ({
            let end = ReadState::begun(s, file_id, needed).taken(steps);
            end.stage == ReadStage::Settled && end.accounts() && complete(end.fill.all, end.have)
        }),
    ensures
        ({
            let t = states.last();
            let probed = t.probed(file_id, needed);
            &&& t.absent(file_id, needed).len() == 0
            &&& probed.metrics.fetches == t.metrics.fetches
            &&& probed.metrics.misses == t.metrics.misses
            &&& probed.metrics.hits as int == (t.metrics.hits + needed.len())
                % 0x1_0000_0000_0000_0000
        }),
{
    let start = ReadState::begun(s, file_id, needed);
    let end = start.taken(steps);
    let n = steps.len() as int;
    let t = states.last();
    assert(steps.take(n) =~= steps);
    lemma_taken_is_of_the_blocks(start, steps);
    assert forall|j: int| 0 <= j < needed.len() implies exists|i: int|
        0 <= i < states.len() && (#[trigger] states[i]).resident(
            (file_id, #[trigger] needed[j]),
        ) by {
        let b = needed[j];
        assert(end.needed.contains(b));
        if !end.have.contains_key(b) {
            let i = choose|i: int| 0 <= i < end.fill.all.len() && end.fill.all[i] == b;
            assert(end.have.contains_key(end.fill.all[i]));
        }
        lemma_at_hand_is_resident(s, file_id, needed, steps, states, n, b);
        assert(states[n].resident((file_id, b)));
    }
    a_second_read_makes_no_fetch(states, file_id, needed);
}

proof fn lemma_taken_is_of_the_blocks(start: ReadState, steps: Seq<ReadStep>)
    ensures
        start.taken(steps).needed == start.needed,
        start.taken(steps).file_id == start.file_id,
    decreases steps.len(),
{
    if steps.len() > 0 {
        lemma_taken_is_of_the_blocks(start, steps.drop_last());
    }
}

/// What a read has at hand after `n` steps is in the memory tier then.
proof fn lemma_at_hand_is_resident(
    s: CacheState,
    file_id: u64,
    needed: Seq<u32>,
    steps: Seq<ReadStep>,
    states: Seq<CacheState>,
    n: int,
    b: u32,
)
    requires
        s.sound(),
        states.len() == steps.len() + 2,
        states[0] == s.probed(file_id, needed),
        forall|i: int| 0 <= i < states.len() - 1 ==> keeps(#[trigger] states[i], states[i + 1]),
        forall|i: int|
            #![trigger steps[i]]
            0 <= i < steps.len() ==> brings_resident(
                ReadState::begun(s, file_id, needed).taken(steps.take(i)),
                steps[i],
                states[i + 1],
            ),
        0 <= n <= steps.len(),
    ensures
        ReadState::begun(s, file_id, needed).taken(steps.take(n)).have.contains_key(b)
            ==> states[n].resident((file_id, b)),
    decreases n,
{
    let start = ReadState::begun(s, file_id, needed);
    if n == 0 {
        assert(steps.take(0) =~= Seq::<ReadStep>::empty());
        probing_keeps_contents(s, file_id, needed);
        assert(states[0].resident((file_id, b)) == s.resident((file_id, b)));
    } else {
        lemma_at_hand_is_resident(s, file_id, needed, steps, states, n - 1, b);
        let before = start.taken(steps.take(n - 1));
        assert(steps.take(n).drop_last() =~= steps.take(n - 1));
        assert(steps.take(n).last() == steps[n - 1]);
        lemma_taken_is_of_the_blocks(start, steps.take(n - 1));
        assert(brings_resident(before, steps[n - 1], states[(n - 1) + 1]));
        if start.taken(steps.take(n)).have.contains_key(b) {
            if before.have.contains_key(b) {
                assert(keeps(states[n - 1], states[(n - 1) + 1]));
                assert(states[n - 1].resident((file_id, b)));
            } else {
                assert(before.after(steps[n - 1]).have.contains_key(b));
            }
        }
    }
}

} // verus!
