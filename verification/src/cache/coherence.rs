//! What every step of the cache keeps: soundness, and that the blocks of a file
//! hold the file's bytes.

use std::ops::Range;

use bytes::Bytes;
use vstd::prelude::*;

use crate::cache::block_cache::{
    lemma_dropping_keeps_shards, lemma_evicting_keeps_shards, lives_in, sound_shard, CacheState,
    VersionDecision,
};
use crate::cache::blocks::{
    assembled, assembled_range_is_file_bytes, block_of, block_slice, cut_run_gives_file_blocks,
    file_bytes, mirrors, touches,
};
use crate::cache::bytes_ops::content;
use crate::cache::config::MAX_BLOCK_SIZE;
use crate::cache::error::CacheError;
use crate::cache::read::{at_hand, handed_over};
use crate::cache::sieve::{
    appears_in, distinct_keys, evicted_until, eviction_loses_no_block, holds,
    lemma_charge_update, position, same_block, total_charge, without_file, BlockKey, BlockState,
    Credit, ShardState, Slot,
};
use crate::cache::ssd::SsdState;
use crate::cache::version::FileVersion;

verus! {

/// A key's shard is one of the shards.
pub proof fn lemma_home(s: CacheState, key: BlockKey)
    requires
        s.shards.len() > 0,
    ensures
        0 <= s.home(key) < s.shards.len(),
{
    vstd::arithmetic::div_mod::lemma_mod_bound(
        crate::cache::block_cache::key_hash(key) as int,
        s.shards.len() as int,
    );
}

/// The position of a held block is where its key is.
pub proof fn lemma_position(q: Seq<Slot>, key: BlockKey)
    requires
        distinct_keys(q),
        holds(q, key),
    ensures
        0 <= position(q, key) < q.len(),
        q[position(q, key)].key == key,
        forall|i: int| 0 <= i < q.len() && (#[trigger] q[i]).key == key ==> i == position(q, key),
{
    let p = position(q, key);
    assert(0 <= p < q.len() && q[p].key == key);
    assert forall|i: int| 0 <= i < q.len() && (#[trigger] q[i]).key == key implies i == p by {
        if i < p {
            assert(q[i].key != q[p].key);
        } else if p < i {
            assert(q[p].key != q[i].key);
        }
    }
}

/// A demand read keeps the state sound and every block's bytes.
pub proof fn demand_hit_keeps_contents(s: CacheState, key: BlockKey, repeat: bool)
    requires
        s.sound(),
    ensures
        s.demand_hit(key, repeat).sound(),
        s.demand_hit(key, repeat).same_contents(s),
{
    let t = s.demand_hit(key, repeat);
    if s.resident(key) {
        lemma_home(s, key);
        let h = s.home(key);
        let q = s.shards[h].queue;
        assert(sound_shard(s.shards[h]));
        lemma_position(q, key);
        let p = position(q, key);
        let x = Slot { key, block: q[p].block.hit(repeat) };
        let u = q.update(p, x);
        assert(t.shards[h].queue == u);
        lemma_charge_update(q, p, x);
        assert(distinct_keys(u)) by {
            assert forall|a: int, b: int| 0 <= a < b < u.len() implies (#[trigger] u[a]).key != (
            #[trigger] u[b]).key by {
                assert(q[a].key != q[b].key);
            }
        }
        assert(t.sound()) by {
            assert forall|i: int| 0 <= i < t.shards.len() implies sound_shard(
                #[trigger] t.shards[i],
            ) && t.shards[i].budget == t.memory_budget as int / t.shards.len() as int by {
                assert(sound_shard(s.shards[i]));
            }
        }
        assert forall|k: BlockKey| #[trigger] t.resident(k) == s.resident(k) && (t.resident(k)
            ==> t.block(k).data == s.block(k).data) by {
            lemma_home(s, k);
            assert(t.home(k) == s.home(k));
            if s.home(k) == h {
                assert(holds(u, k) == holds(q, k)) by {
                    if holds(q, k) {
                        let i = choose|i: int| 0 <= i < q.len() && (#[trigger] q[i]).key == k;
                        assert(u[i].key == k);
                    }
                    if holds(u, k) {
                        let i = choose|i: int| 0 <= i < u.len() && (#[trigger] u[i]).key == k;
                        assert(q[i].key == k);
                    }
                }
                if holds(q, k) {
                    lemma_position(q, k);
                    lemma_position(u, k);
                    let i = position(u, k);
                    assert(q[i].key == k);
                    assert(i == position(q, k));
                }
            } else {
                assert(t.shards[s.home(k)] == s.shards[s.home(k)]);
            }
        }
    } else {
        assert forall|k: BlockKey| #[trigger] t.resident(k) == s.resident(k) && (t.resident(k)
            ==> t.block(k).data == s.block(k).data) by {}
    }
}

/// Every resident block of the file holds what the file has there.
pub open spec fn serves(s: CacheState, file_id: u64, file: Seq<u8>) -> bool {
    forall|b: u32| #[trigger]
        s.resident((file_id, b)) ==> s.block((file_id, b)).data == block_slice(
            file,
            b as int,
            s.block_size as int,
        )
}

/// Steps that keep the contents of the cache keep it serving a file.
pub proof fn same_contents_serve_the_same(
    s: CacheState,
    t: CacheState,
    file_id: u64,
    file: Seq<u8>,
)
    requires
        t.same_contents(s),
        serves(s, file_id, file),
    ensures
        serves(t, file_id, file),
{
    assert forall|b: u32| #[trigger] t.resident((file_id, b)) implies t.block((file_id, b)).data
        == block_slice(file, b as int, t.block_size as int) by {
        assert(t.resident((file_id, b)) == s.resident((file_id, b)));
    }
}

/// Marking a block as being fetched, or no longer, changes no block.
pub proof fn flights_keep_contents(s: CacheState, key: BlockKey)
    requires
        s.sound(),
    ensures
        s.flight_begun(key).sound(),
        s.flight_begun(key).same_contents(s),
        s.flight_ended(key).sound(),
        s.flight_ended(key).same_contents(s),
{
    lemma_home(s, key);
    lemma_same_queues(s, s.flight_begun(key));
    lemma_same_queues(s, s.flight_ended(key));
}

/// Shards with the same queues hold the same blocks.
proof fn lemma_same_queues(s: CacheState, t: CacheState)
    requires
        s.sound(),
        t.block_size == s.block_size,
        t.memory_budget == s.memory_budget,
        t.shards.len() == s.shards.len(),
        forall|i: int|
            0 <= i < s.shards.len() ==> (#[trigger] t.shards[i]).queue == s.shards[i].queue
                && t.shards[i].hand == s.shards[i].hand && t.shards[i].budget
                == s.shards[i].budget,
    ensures
        t.sound(),
        t.same_contents(s),
{
    assert forall|i: int| 0 <= i < t.shards.len() implies sound_shard(#[trigger] t.shards[i])
        && t.shards[i].budget == t.memory_budget as int / t.shards.len() as int by {
        assert(sound_shard(s.shards[i]));
    }
    assert forall|k: BlockKey| #[trigger] t.resident(k) == s.resident(k) && (t.resident(k)
        ==> t.block(k).data == s.block(k).data) by {
        lemma_home(s, k);
        assert(t.shards[s.home(k)].queue == s.shards[s.home(k)].queue);
    }
}

/// Putting a block into the memory tier keeps the cache sound.
pub proof fn insertion_keeps_soundness(s: CacheState, key: BlockKey, block: BlockState)
    requires
        s.sound(),
    ensures
        s.inserted(key, block).sound(),
{
    let t = s.inserted(key, block);
    lemma_home(s, key);
    let h = s.home(key);
    let sh = s.shards[h];
    assert(sound_shard(sh));
    if s.resident(key) {
        assert(t.shards =~= s.shards);
        lemma_same_queues(s, t);
    } else {
        let n = s.shards.len() as int;
        let q = sh.queue;
        let x = Slot { key, block };
        let p = q.push(x);
        assert(distinct_keys(p)) by {
            assert forall|a: int, b: int| 0 <= a < b < p.len() implies (#[trigger] p[a]).key != (
            #[trigger] p[b]).key by {
                if b < q.len() {
                    assert(q[a].key != q[b].key);
                } else {
                    assert(q[a].key != key);
                }
            }
        }
        vstd::arithmetic::div_mod::lemma_div_pos_is_pos(s.memory_budget as int, n);
        eviction_loses_no_block(p, sh.hand, sh.budget);
        lemma_hand_in_range(p, sh.hand, sh.budget);
        assert(lives_in(q, h, n));
        assert(lives_in(p, h, n));
        lemma_evicting_keeps_shards(p, sh.hand, sh.budget, h, n);
        assert forall|i: int| 0 <= i < t.shards.len() implies sound_shard(#[trigger] t.shards[i])
            && t.shards[i].budget == t.memory_budget as int / t.shards.len() as int && lives_in(
            t.shards[i].queue,
            i,
            n,
        ) by {
            assert(sound_shard(s.shards[i]));
        }
    }
}

/// Putting a block into the memory tier keeps the cache sound and serving a
/// file, if the block is another file's or holds what the file has there.
pub proof fn insertion_keeps_serving(
    s: CacheState,
    key: BlockKey,
    block: BlockState,
    file_id: u64,
    file: Seq<u8>,
)
    requires
        s.sound(),
        serves(s, file_id, file),
        key.0 != file_id || block.data == block_slice(file, key.1 as int, s.block_size as int),
    ensures
        s.inserted(key, block).sound(),
        serves(s.inserted(key, block), file_id, file),
{
    let t = s.inserted(key, block);
    insertion_keeps_soundness(s, key, block);
    lemma_home(s, key);
    let h = s.home(key);
    let sh = s.shards[h];
    assert(sound_shard(sh));
    if s.resident(key) {
        assert(t.shards =~= s.shards);
        lemma_same_queues(s, t);
        same_contents_serve_the_same(s, t, file_id, file);
    } else {
        let q = sh.queue;
        let x = Slot { key, block };
        let p = q.push(x);
        assert(distinct_keys(p)) by {
            assert forall|a: int, b: int| 0 <= a < b < p.len() implies (#[trigger] p[a]).key != (
            #[trigger] p[b]).key by {
                if b < q.len() {
                    assert(q[a].key != q[b].key);
                } else {
                    assert(q[a].key != key);
                }
            }
        }
        vstd::arithmetic::div_mod::lemma_div_pos_is_pos(
            s.memory_budget as int,
            s.shards.len() as int,
        );
        eviction_loses_no_block(p, sh.hand, sh.budget);
        let r = evicted_until(p, sh.hand, sh.budget);
        assert(t.shards[h].queue == r.0);
        assert forall|b: u32| #[trigger] t.resident((file_id, b)) implies t.block(
            (file_id, b),
        ).data == block_slice(file, b as int, t.block_size as int) by {
            let k = (file_id, b);
            lemma_home(s, k);
            if s.home(k) == h {
                lemma_position(r.0, k);
                let i = position(r.0, k);
                assert(appears_in(r.0[i], p));
                let j = choose|j: int|
                    0 <= j < p.len() && (#[trigger] p[j]).key == r.0[i].key && same_block(
                        p[j].block,
                        r.0[i].block,
                    );
                if j < q.len() {
                    assert(q[j].key == k);
                    lemma_position(q, k);
                    assert(s.resident(k));
                    assert(s.block(k) == q[j].block);
                } else {
                    assert(k == key);
                }
            } else {
                assert(t.shards[s.home(k)] == s.shards[s.home(k)]);
                assert(s.resident(k));
            }
        }
    }
}

/// The hand stays a position of the queue, or just past its newest block.
proof fn lemma_hand_in_range(q: Seq<Slot>, hand: int, budget: int)
    requires
        distinct_keys(q),
        0 <= hand <= q.len(),
    ensures
        0 <= evicted_until(q, hand, budget).1 <= evicted_until(q, hand, budget).0.len(),
    decreases q.len(),
{
    if q.len() > 0 && total_charge(q) > budget {
        let h = crate::cache::sieve::wrapped(hand, q.len() as int);
        let v = crate::cache::sieve::victim(q, h);
        crate::cache::sieve::referenced_blocks_survive(q, h);
        let w = crate::cache::sieve::spared(q, h);
        let t = w.remove(v);
        assert(distinct_keys(t)) by {
            assert forall|a: int, b: int| 0 <= a < b < t.len() implies (#[trigger] t[a]).key != (
            #[trigger] t[b]).key by {
                let a2 = if a < v { a } else { a + 1 };
                let b2 = if b < v { b } else { b + 1 };
                assert(t[a] == w[a2] && t[b] == w[b2]);
                assert(q[a2].key != q[b2].key);
            }
        }
        lemma_hand_in_range(t, v, budget);
    }
}

/// Dropping a file's blocks leaves none of them resident, so that the cache
/// serves the file whatever it holds, and keeps every other file's blocks.
pub proof fn invalidation_drops_exactly_the_file(s: CacheState, file_id: u64)
    requires
        s.sound(),
    ensures
        s.without_blocks_of(file_id).sound(),
        forall|k: BlockKey| #[trigger]
            s.without_blocks_of(file_id).resident(k) == (s.resident(k) && k.0 != file_id),
        forall|k: BlockKey| #[trigger]
            s.without_blocks_of(file_id).resident(k) ==> s.without_blocks_of(file_id).block(k)
                == s.block(k),
{
    let t = s.without_blocks_of(file_id);
    assert forall|i: int| 0 <= i < t.shards.len() implies sound_shard(#[trigger] t.shards[i])
        && t.shards[i].budget == t.memory_budget as int / t.shards.len() as int && lives_in(
        t.shards[i].queue,
        i,
        t.shards.len() as int,
    ) by {
        let q = s.shards[i].queue;
        assert(sound_shard(s.shards[i]));
        lemma_dropping_keeps_shards(q, file_id, i, s.shards.len() as int);
        lemma_without_file_sound(q, file_id);
        lemma_without_file_prefix(q, s.shards[i].hand, file_id);
    }
    assert forall|k: BlockKey| #[trigger] t.resident(k) == (s.resident(k) && k.0 != file_id) && (
    t.resident(k) ==> t.block(k) == s.block(k)) by {
        lemma_home(s, k);
        assert(t.home(k) == s.home(k));
        let q = s.shards[s.home(k)].queue;
        let w = without_file(q, file_id);
        assert(sound_shard(s.shards[s.home(k)]));
        assert(t.shards[s.home(k)].queue == w);
        crate::cache::sieve::lemma_without_file(q, file_id);
        lemma_without_file_sound(q, file_id);
        assert(holds(w, k) == (holds(q, k) && k.0 != file_id));
        if holds(w, k) {
            lemma_position(w, k);
            lemma_position(q, k);
            let x = w[position(w, k)];
            assert(w.contains(x));
            assert(q.contains(x));
            let j = choose|j: int| 0 <= j < q.len() && q[j] == x;
            assert(q[j].key == k);
            assert(j == position(q, k));
        }
    }
}

/// An invalidated file is served by neither tier, once the SSD tier forgot it, and the
/// other files by each as before.
pub proof fn an_invalidated_file_is_served_by_no_tier(
    s: CacheState,
    ssd: SsdState,
    file_id: u64,
    block: u32,
)
    requires
        s.sound(),
        ssd.sound(),
    ensures
        !s.without_blocks_of(file_id).resident((file_id, block)),
        !ssd.forgotten(file_id).index.contains_key((file_id, block)),
        forall|k: BlockKey|
            k.0 != file_id ==> {
                &&& #[trigger] s.without_blocks_of(file_id).resident(k) == s.resident(k)
                &&& ssd.forgotten(file_id).index.contains_key(k) == ssd.index.contains_key(k)
            },
{
    invalidation_drops_exactly_the_file(s, file_id);
    assert(s.without_blocks_of(file_id).resident((file_id, block)) == false);
}

/// Leaving out a file's blocks keeps keys distinct and the charge no larger.
proof fn lemma_without_file_sound(q: Seq<Slot>, file_id: u64)
    requires
        distinct_keys(q),
    ensures
        distinct_keys(without_file(q, file_id)),
        total_charge(without_file(q, file_id)) <= total_charge(q),
    decreases q.len(),
{
    if q.len() > 0 {
        let t = q.drop_last();
        assert(distinct_keys(t)) by {
            assert forall|a: int, b: int| 0 <= a < b < t.len() implies (#[trigger] t[a]).key != (
            #[trigger] t[b]).key by {
                assert(q[a].key != q[b].key);
            }
        }
        lemma_without_file_sound(t, file_id);
        let wt = without_file(t, file_id);
        let w = without_file(q, file_id);
        if q.last().key.0 != file_id {
            assert(w.drop_last() =~= wt);
            crate::cache::sieve::lemma_without_file(t, file_id);
            assert forall|a: int, b: int| 0 <= a < b < w.len() implies (#[trigger] w[a]).key != (
            #[trigger] w[b]).key by {
                if b < wt.len() {
                    assert(wt[a].key != wt[b].key);
                } else {
                    assert(wt.contains(wt[a]));
                    assert(t.contains(wt[a]));
                    let j = choose|j: int| 0 <= j < t.len() && t[j] == wt[a];
                    assert(q[j].key != q[q.len() - 1].key);
                }
            }
        }
    }
}

/// What is left of a prefix is no longer than what is left of the whole.
proof fn lemma_without_file_prefix(q: Seq<Slot>, n: int, file_id: u64)
    requires
        0 <= n <= q.len(),
    ensures
        without_file(q.take(n), file_id).len() <= without_file(q, file_id).len(),
    decreases q.len() - n,
{
    if n == q.len() {
        assert(q.take(n) =~= q);
    } else {
        lemma_without_file_prefix(q, n + 1, file_id);
        assert(q.take(n + 1).drop_last() =~= q.take(n));
    }
}

/// After a fetch observed a file's version, the cache serves the file as it is
/// now: either it served it before and the version is no other, or the version
/// changed and every block of the file was dropped.
pub proof fn reconciling_keeps_serving(
    s: CacheState,
    file_id: u64,
    version: FileVersion,
    file: Seq<u8>,
)
    requires
        s.sound(),
        serves(s, file_id, file) || s.files.decision(file_id, version)
            == VersionDecision::Overwritten,
    ensures
        s.reconciled(file_id, version).sound(),
        serves(s.reconciled(file_id, version), file_id, file),
        s.reconciled(file_id, version).block_size == s.block_size,
{
    let noted = s.with_files(s.files.observed(file_id, version));
    let t = s.reconciled(file_id, version);
    lemma_same_queues(s, noted);
    if s.files.decision(file_id, version) == VersionDecision::Overwritten {
        let w = noted.without_blocks_of(file_id);
        invalidation_drops_exactly_the_file(noted, file_id);
        lemma_same_queues(w, t);
        assert forall|b: u32| #[trigger] t.resident((file_id, b)) implies t.block(
            (file_id, b),
        ).data == block_slice(file, b as int, t.block_size as int) by {
            assert(w.resident((file_id, b)) == t.resident((file_id, b)));
        }
    } else {
        same_contents_serve_the_same(s, noted, file_id, file);
    }
}

/// Publishing a run that was fetched from the file keeps the cache serving it.
pub proof fn publishing_keeps_serving(
    s: CacheState,
    file_id: u64,
    start: u32,
    run: Seq<u32>,
    end: u32,
    full: Seq<u8>,
    credit: Option<Credit>,
    file: Seq<u8>,
)
    requires
        s.sound(),
        serves(s, file_id, file),
        forall|i: int| 0 <= i < run.len() ==> start <= #[trigger] run[i] <= end,
        full == file_bytes(file, start * s.block_size, (end + 1) * s.block_size),
    ensures
        s.published(file_id, start, run, full, credit).sound(),
        serves(s.published(file_id, start, run, full, credit), file_id, file),
    decreases run.len(),
{
    if run.len() > 0 {
        let t = s.published(file_id, start, run.drop_last(), full, credit);
        publishing_keeps_serving(s, file_id, start, run.drop_last(), end, full, credit, file);
        crate::cache::read::lemma_published_settings(
            s,
            file_id,
            start,
            run.drop_last(),
            full,
            credit,
        );
        let b = run.last();
        let key = (file_id, b);
        let block = s.run_block(start, b, full, credit);
        assert(start <= run[run.len() - 1] <= end);
        cut_run_gives_file_blocks(
            file,
            full,
            start as int,
            end as int,
            b as int,
            s.block_size as int,
        );
        insertion_keeps_serving(t, key, block, file_id, file);
        let u = t.inserted(key, block);
        flights_keep_contents(u, key);
        same_contents_serve_the_same(u, u.flight_ended(key), file_id, file);
    }
}

/// A completed fetch that returned the file's own bytes leaves the cache serving
/// the file, if it served the file before or has just learned that it changed.
pub proof fn completed_fetch_keeps_serving(
    s: CacheState,
    file_id: u64,
    run: Seq<u32>,
    full: Seq<u8>,
    version: FileVersion,
    file: Seq<u8>,
)
    requires
        s.sound(),
        run.len() > 0,
        forall|i: int| 0 <= i < run.len() ==> run[0] <= #[trigger] run[i] <= run.last(),
        full == file_bytes(file, run[0] * s.block_size, (run.last() + 1) * s.block_size),
        serves(s, file_id, file) || s.files.decision(file_id, version)
            == VersionDecision::Overwritten,
    ensures
        s.run_completed(file_id, run, full, version).sound(),
        serves(s.run_completed(file_id, run, full, version), file_id, file),
{
    let t = s.run_fetched(full);
    lemma_same_queues(s, t);
    if serves(s, file_id, file) {
        same_contents_serve_the_same(s, t, file_id, file);
    }
    reconciling_keeps_serving(t, file_id, version, file);
    publishing_keeps_serving(
        t.reconciled(file_id, version),
        file_id,
        run[0],
        run,
        run.last(),
        full,
        None,
        file,
    );
}

/// A completed read-ahead that returned the file's own bytes leaves the cache serving the
/// file, if it served the file before or has just learned that it changed.
pub proof fn completed_read_ahead_keeps_serving(
    s: CacheState,
    file_id: u64,
    seg: Seq<u32>,
    full: Seq<u8>,
    version: FileVersion,
    credit: Option<Credit>,
    file: Seq<u8>,
)
    requires
        s.sound(),
        seg.len() > 0,
        forall|i: int| 0 <= i < seg.len() ==> seg[0] <= #[trigger] seg[i] <= seg.last(),
        full == file_bytes(file, seg[0] * s.block_size, (seg.last() + 1) * s.block_size),
        serves(s, file_id, file) || s.files.decision(file_id, version)
            == VersionDecision::Overwritten,
    ensures
        ({
            let t = s.segment_fetched(full).reconciled(file_id, version).published(
                file_id,
                seg[0],
                seg,
                full,
                credit,
            );
            t.sound() && serves(t, file_id, file)
        }),
{
    let t = s.segment_fetched(full);
    lemma_same_queues(s, t);
    if serves(s, file_id, file) {
        same_contents_serve_the_same(s, t, file_id, file);
    }
    reconciling_keeps_serving(t, file_id, version, file);
    publishing_keeps_serving(
        t.reconciled(file_id, version),
        file_id,
        seg[0],
        seg,
        seg.last(),
        full,
        credit,
        file,
    );
}

/// Changing the memory budget keeps the cache sound and serving a file: blocks leave, and
/// none changes.
pub proof fn resizing_keeps_serving(s: CacheState, bytes: u64, file_id: u64, file: Seq<u8>)
    requires
        s.sound(),
        serves(s, file_id, file),
    ensures
        s.resized(bytes).sound(),
        serves(s.resized(bytes), file_id, file),
{
    let t = s.resized(bytes);
    let n = s.shards.len() as int;
    let per_shard = bytes as int / n;
    vstd::arithmetic::div_mod::lemma_div_pos_is_pos(bytes as int, n);
    assert forall|i: int| 0 <= i < t.shards.len() implies sound_shard(#[trigger] t.shards[i])
        && t.shards[i].budget == t.memory_budget as int / t.shards.len() as int && lives_in(
        t.shards[i].queue,
        i,
        n,
    ) by {
        assert(sound_shard(s.shards[i]));
        lemma_evicting_keeps_shards(s.shards[i].queue, s.shards[i].hand, per_shard, i, n);
        eviction_loses_no_block(s.shards[i].queue, s.shards[i].hand, per_shard);
        lemma_hand_in_range(s.shards[i].queue, s.shards[i].hand, per_shard);
    }
    assert forall|b: u32| #[trigger] t.resident((file_id, b)) implies t.block((file_id, b)).data
        == block_slice(file, b as int, t.block_size as int) by {
        let k = (file_id, b);
        lemma_home(s, k);
        let q = s.shards[s.home(k)].queue;
        let hand = s.shards[s.home(k)].hand;
        assert(sound_shard(s.shards[s.home(k)]));
        eviction_loses_no_block(q, hand, per_shard);
        let r = evicted_until(q, hand, per_shard);
        assert(t.shards[s.home(k)].queue == r.0);
        lemma_position(r.0, k);
        let i = position(r.0, k);
        assert(appears_in(r.0[i], q));
        let j = choose|j: int|
            0 <= j < q.len() && (#[trigger] q[j]).key == r.0[i].key && same_block(
                q[j].block,
                r.0[i].block,
            );
        assert(q[j].key == k);
        lemma_position(q, k);
        assert(s.resident(k));
        assert(s.block(k) == q[j].block);
    }
}

/// The blocks at hand are those of the file.
pub open spec fn hand_mirrors(have: Map<u32, Seq<u8>>, file: Seq<u8>, block_size: u64) -> bool {
    forall|b: u32| #[trigger]
        have.contains_key(b) ==> have[b] == block_slice(file, b as int, block_size as int)
}

/// What claiming blocks gathers from a cache that serves a file is the file's.
pub proof fn claimed_blocks_mirror_the_file(
    s: CacheState,
    have: Map<u32, Seq<u8>>,
    file_id: u64,
    blocks: Seq<u32>,
    reclaim: bool,
    file: Seq<u8>,
)
    requires
        s.sound(),
        serves(s, file_id, file),
        hand_mirrors(have, file, s.block_size),
    ensures
        s.claimed(file_id, blocks, reclaim).sound(),
        serves(s.claimed(file_id, blocks, reclaim), file_id, file),
        s.claimed(file_id, blocks, reclaim).block_size == s.block_size,
        hand_mirrors(s.gathered(have, file_id, blocks, reclaim), file, s.block_size),
    decreases blocks.len(),
{
    if blocks.len() > 0 {
        let t = s.claimed(file_id, blocks.drop_last(), reclaim);
        let key = (file_id, blocks.last());
        claimed_blocks_mirror_the_file(s, have, file_id, blocks.drop_last(), reclaim, file);
        demand_hit_keeps_contents(t, key, true);
        flights_keep_contents(t, key);
        same_contents_serve_the_same(t, t.demand_hit(key, true), file_id, file);
        same_contents_serve_the_same(t, t.flight_begun(key), file_id, file);
    }
}

/// What publishing a run hands over is the file's.
pub proof fn handed_over_blocks_mirror_the_file(
    have: Map<u32, Seq<u8>>,
    start: u32,
    run: Seq<u32>,
    end: u32,
    full: Seq<u8>,
    block_size: u64,
    file: Seq<u8>,
)
    requires
        block_size > 0,
        hand_mirrors(have, file, block_size),
        forall|i: int| 0 <= i < run.len() ==> start <= #[trigger] run[i] <= end,
        full == file_bytes(file, start * block_size, (end + 1) * block_size),
    ensures
        hand_mirrors(handed_over(have, start, run, full, block_size), file, block_size),
    decreases run.len(),
{
    if run.len() > 0 {
        handed_over_blocks_mirror_the_file(
            have,
            start,
            run.drop_last(),
            end,
            full,
            block_size,
            file,
        );
        assert(start <= run[run.len() - 1] <= end);
        cut_run_gives_file_blocks(
            file,
            full,
            start as int,
            end as int,
            run.last() as int,
            block_size as int,
        );
    }
}

/// A range assembled from blocks at hand that are the file's, with every block
/// it touches at hand, is byte for byte what the file holds there.
pub proof fn read_returns_file_bytes(
    r: Range<u64>,
    have: Map<u32, Bytes>,
    file: Seq<u8>,
    block_size: u64,
    out: Result<Bytes, CacheError>,
)
    requires
        0 < block_size <= MAX_BLOCK_SIZE,
        hand_mirrors(at_hand(have), file, block_size),
        forall|b: u32| touches(r, block_size, b) ==> #[trigger] have.contains_key(b),
        r.start <= file.len(),
        r.start < r.end ==> (r.end - 1) as u64 / block_size <= u32::MAX,
        assembled(r, have, block_size, out),
    ensures
        out matches Ok(b) && content(b) == file_bytes(file, r.start as int, r.end as int),
{
    if r.start < r.end {
        let first = block_of(r.start, block_size);
        let last = block_of((r.end - 1) as u64, block_size);
        assert(mirrors(have, file, first, last, block_size)) by {
            assert forall|b: u32| first <= b <= last implies #[trigger] have.contains_key(b)
                && content(have[b]) == block_slice(file, b as int, block_size as int) by {
                assert(touches(r, block_size, b));
                assert(at_hand(have).contains_key(b));
                assert(at_hand(have)[b] == content(have[b]));
            }
        }
    }
    assembled_range_is_file_bytes(file, r, have, block_size, out);
}

/// The memory tier holds no more than its budget, blocks and index together.
pub proof fn memory_stays_within_budget(s: CacheState)
    requires
        s.sound(),
    ensures
        tier_charge(s.shards, s.shards.len() as int) <= s.memory_budget,
{
    let n = s.shards.len() as int;
    let per = s.memory_budget as int / n;
    lemma_tier_charge(s, n, per);
    vstd::arithmetic::div_mod::lemma_fundamental_div_mod(s.memory_budget as int, n);
    vstd::arithmetic::div_mod::lemma_mod_bound(s.memory_budget as int, n);
}

/// What the first `n` shards hold, all together.
pub open spec fn tier_charge(shards: Seq<ShardState>, n: int) -> int
    decreases n,
{
    if n <= 0 {
        0
    } else {
        tier_charge(shards, n - 1) + total_charge(shards[n - 1].queue)
    }
}

proof fn lemma_tier_charge(s: CacheState, n: int, per: int)
    requires
        s.sound(),
        0 <= n <= s.shards.len(),
        per == s.memory_budget as int / s.shards.len() as int,
    ensures
        tier_charge(s.shards, n) <= n * per,
    decreases n,
{
    if n > 0 {
        lemma_tier_charge(s, n - 1, per);
        assert(sound_shard(s.shards[n - 1]));
        assert(n * per == (n - 1) * per + per) by (nonlinear_arith);
    }
}

} // verus!
