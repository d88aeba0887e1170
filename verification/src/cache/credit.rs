//! What reading the blocks of a file gives back of the credit that they hold.

use vstd::prelude::*;

use crate::cache::block_cache::{sound_shard, CacheState, Release};
use crate::cache::blocks::increasing;
use crate::cache::coherence::{
    demand_hit_keeps_contents, lemma_home, lemma_position,
};
use crate::cache::fill::{
    consulting_once_more_brings_what_is_resident, consulting_once_more_keeps_contents,
};
use crate::cache::metrics::Metrics;
use crate::cache::read::probing_keeps_contents;
use crate::cache::sieve::{position, BlockKey};
use crate::cache::single_flight::claiming_begins_flights;

verus! {

/// A demand read of one block leaves every other block as it is.
pub proof fn a_read_leaves_other_blocks_as_they_are(
    s: CacheState,
    key: BlockKey,
    repeat: bool,
    other: BlockKey,
)
    requires
        s.sound(),
        other != key,
        s.resident(other),
    ensures
        s.demand_hit(key, repeat).block(other) == s.block(other),
{
    if s.resident(key) {
        demand_hit_keeps_contents(s, key, repeat);
        lemma_home(s, key);
        lemma_home(s, other);
        let t = s.demand_hit(key, repeat);
        let h = s.home(other);
        let q = s.shards[h].queue;
        let u = t.shards[h].queue;
        assert(sound_shard(s.shards[h]));
        assert(sound_shard(t.shards[h]));
        assert(t.resident(other) == s.resident(other));
        lemma_position(q, other);
        lemma_position(u, other);
        if h == s.home(key) {
            lemma_position(q, key);
            assert(u[position(q, other)].key == other);
        }
    }
}

proof fn lemma_releases_stay(s: CacheState, t: CacheState, key: BlockKey)
    requires
        s.resident(key) == t.resident(key),
        s.resident(key) ==> t.block(key) == s.block(key),
    ensures
        t.demand_release(key) == s.demand_release(key),
{
}

/// What each of the blocks of a file gives back when it is read, one after the other.
pub open spec fn releases_of(s: CacheState, file_id: u64, blocks: Seq<u32>) -> Seq<Seq<Release>> {
    Seq::new(blocks.len(), |i: int| s.demand_release((file_id, blocks[i])))
}

proof fn lemma_one_more_release(s: CacheState, file_id: u64, blocks: Seq<u32>)
    requires
        blocks.len() > 0,
    ensures
        releases_of(s, file_id, blocks).flatten() == releases_of(
            s,
            file_id,
            blocks.drop_last(),
        ).flatten() + s.demand_release((file_id, blocks.last())),
{
    let all = releases_of(s, file_id, blocks);
    let less = releases_of(s, file_id, blocks.drop_last());
    all.lemma_flatten_and_flatten_alt_are_equivalent();
    less.lemma_flatten_and_flatten_alt_are_equivalent();
    assert(all.drop_last() =~= less);
}

/// Probing blocks leaves every other block as it is.
proof fn lemma_probing_leaves_others(s: CacheState, file_id: u64, blocks: Seq<u32>, b: u32)
    requires
        s.sound(),
        !blocks.contains(b),
        s.resident((file_id, b)),
    ensures
        s.probed(file_id, blocks).block((file_id, b)) == s.block((file_id, b)),
    decreases blocks.len(),
{
    if blocks.len() > 0 {
        let t = blocks.drop_last();
        if t.contains(b) {
            let i = choose|i: int| 0 <= i < t.len() && t[i] == b;
            assert(blocks[i] == b);
        }
        assert(blocks[blocks.len() - 1] == blocks.last());
        lemma_probing_leaves_others(s, file_id, t, b);
        probing_keeps_contents(s, file_id, t);
        let u = s.probed(file_id, t);
        let hits = u.with_metrics(Metrics { hits: u.metrics.hits.wrapping_add(1), ..u.metrics });
        assert(hits.sound());
        assert(u.resident((file_id, b)) == s.resident((file_id, b)));
        assert(hits.resident((file_id, b)) == u.resident((file_id, b)));
        assert(hits.block((file_id, b)) == u.block((file_id, b)));
        a_read_leaves_other_blocks_as_they_are(
            hits,
            (file_id, blocks.last()),
            true,
            (file_id, b),
        );
    }
}

/// Probing gives back the credit of every block that was read ahead and is resident, once, in
/// the order of the blocks, and no other.
pub proof fn a_probe_gives_back_the_credit_of_its_blocks(
    s: CacheState,
    file_id: u64,
    blocks: Seq<u32>,
)
    requires
        s.sound(),
        increasing(blocks),
    ensures
        s.probe_releases(file_id, blocks) == releases_of(s, file_id, blocks).flatten(),
    decreases blocks.len(),
{
    if blocks.len() > 0 {
        let t = blocks.drop_last();
        let x = blocks.last();
        assert(increasing(t));
        a_probe_gives_back_the_credit_of_its_blocks(s, file_id, t);
        probing_keeps_contents(s, file_id, t);
        assert(!t.contains(x)) by {
            if t.contains(x) {
                let i = choose|i: int| 0 <= i < t.len() && t[i] == x;
                assert(blocks[i] < blocks[blocks.len() - 1]);
            }
        }
        let u = s.probed(file_id, t);
        assert(u.resident((file_id, x)) == s.resident((file_id, x)));
        if s.resident((file_id, x)) {
            lemma_probing_leaves_others(s, file_id, t, x);
        }
        lemma_releases_stay(s, u, (file_id, x));
        lemma_one_more_release(s, file_id, blocks);
    } else {
        releases_of(s, file_id, blocks).lemma_flatten_and_flatten_alt_are_equivalent();
        assert(releases_of(s, file_id, blocks) =~= Seq::empty());
    }
}

/// A flight that begins leaves every block as it is.
proof fn lemma_flights_leave_blocks(s: CacheState, key: BlockKey, other: BlockKey)
    requires
        s.sound(),
    ensures
        s.flight_begun(key).block(other) == s.block(other),
{
    lemma_home(s, key);
    lemma_home(s, other);
}

/// Claiming blocks leaves every other block as it is.
proof fn lemma_claiming_leaves_others(
    s: CacheState,
    file_id: u64,
    blocks: Seq<u32>,
    reclaim: bool,
    b: u32,
)
    requires
        s.sound(),
        !blocks.contains(b),
        s.resident((file_id, b)),
    ensures
        s.claimed(file_id, blocks, reclaim).block((file_id, b)) == s.block((file_id, b)),
    decreases blocks.len(),
{
    if blocks.len() > 0 {
        let t = blocks.drop_last();
        if t.contains(b) {
            let i = choose|i: int| 0 <= i < t.len() && t[i] == b;
            assert(blocks[i] == b);
        }
        assert(blocks[blocks.len() - 1] == blocks.last());
        lemma_claiming_leaves_others(s, file_id, t, reclaim, b);
        claiming_begins_flights(s, file_id, t, reclaim);
        let u = s.claimed(file_id, t, reclaim);
        assert(u.resident((file_id, b)) == s.resident((file_id, b)));
        a_read_leaves_other_blocks_as_they_are(u, (file_id, blocks.last()), true, (file_id, b));
        lemma_flights_leave_blocks(u, (file_id, blocks.last()), (file_id, b));
    }
}

/// Claiming gives back the credit of every block that was read ahead and is resident, once, in
/// the order of the blocks, and no other.
pub proof fn a_claim_gives_back_the_credit_of_its_blocks(
    s: CacheState,
    file_id: u64,
    blocks: Seq<u32>,
    reclaim: bool,
)
    requires
        s.sound(),
        increasing(blocks),
    ensures
        s.claim_releases(file_id, blocks, reclaim) == releases_of(s, file_id, blocks).flatten(),
    decreases blocks.len(),
{
    if blocks.len() > 0 {
        let t = blocks.drop_last();
        let x = blocks.last();
        assert(increasing(t));
        a_claim_gives_back_the_credit_of_its_blocks(s, file_id, t, reclaim);
        claiming_begins_flights(s, file_id, t, reclaim);
        assert(!t.contains(x)) by {
            if t.contains(x) {
                let i = choose|i: int| 0 <= i < t.len() && t[i] == x;
                assert(blocks[i] < blocks[blocks.len() - 1]);
            }
        }
        let u = s.claimed(file_id, t, reclaim);
        assert(u.resident((file_id, x)) == s.resident((file_id, x)));
        if s.resident((file_id, x)) {
            lemma_claiming_leaves_others(s, file_id, t, reclaim, x);
        }
        lemma_releases_stay(s, u, (file_id, x));
        lemma_one_more_release(s, file_id, blocks);
    } else {
        releases_of(s, file_id, blocks).lemma_flatten_and_flatten_alt_are_equivalent();
        assert(releases_of(s, file_id, blocks) =~= Seq::empty());
    }
}

/// Consulting the memory tier once more leaves every other block as it is.
proof fn lemma_consulting_leaves_others(
    s: CacheState,
    file_id: u64,
    blocks: Seq<u32>,
    have: Map<u32, Seq<u8>>,
    b: u32,
)
    requires
        s.sound(),
        !blocks.contains(b),
        s.resident((file_id, b)),
    ensures
        s.reprobed(file_id, blocks, have).block((file_id, b)) == s.block((file_id, b)),
    decreases blocks.len(),
{
    if blocks.len() > 0 {
        let t = blocks.drop_last();
        if t.contains(b) {
            let i = choose|i: int| 0 <= i < t.len() && t[i] == b;
            assert(blocks[i] == b);
        }
        assert(blocks[blocks.len() - 1] == blocks.last());
        lemma_consulting_leaves_others(s, file_id, t, have, b);
        consulting_once_more_keeps_contents(s, file_id, t, have);
        let u = s.reprobed(file_id, t, have);
        assert(u.resident((file_id, b)) == s.resident((file_id, b)));
        a_read_leaves_other_blocks_as_they_are(u, (file_id, blocks.last()), true, (file_id, b));
    }
}

/// Consulting the memory tier once more gives back the credit of the blocks that were not at
/// hand, were read ahead and are resident, once, in the order of the blocks, and no other.
pub proof fn consulting_once_more_gives_back_credit(
    s: CacheState,
    file_id: u64,
    blocks: Seq<u32>,
    have: Map<u32, Seq<u8>>,
)
    requires
        s.sound(),
        increasing(blocks),
    ensures
        s.reprobe_releases(file_id, blocks, have) == releases_of(
            s,
            file_id,
            blocks.filter(|b: u32| !have.contains_key(b)),
        ).flatten(),
    decreases blocks.len(),
{
    reveal(Seq::filter);
    let f = |b: u32| !have.contains_key(b);
    if blocks.len() > 0 {
        let t = blocks.drop_last();
        let x = blocks.last();
        assert(increasing(t));
        consulting_once_more_gives_back_credit(s, file_id, t, have);
        consulting_once_more_keeps_contents(s, file_id, t, have);
        consulting_once_more_brings_what_is_resident(s, file_id, t, have, x);
        assert(!t.contains(x)) by {
            if t.contains(x) {
                let i = choose|i: int| 0 <= i < t.len() && t[i] == x;
                assert(blocks[i] < blocks[blocks.len() - 1]);
            }
        }
        let u = s.reprobed(file_id, t, have);
        assert(u.resident((file_id, x)) == s.resident((file_id, x)));
        if s.resident((file_id, x)) {
            lemma_consulting_leaves_others(s, file_id, t, have, x);
        }
        lemma_releases_stay(s, u, (file_id, x));
        if !have.contains_key(x) {
            assert(blocks.filter(f) == t.filter(f).push(x));
            assert(blocks.filter(f).drop_last() =~= t.filter(f));
            lemma_one_more_release(s, file_id, blocks.filter(f));
        } else {
            assert(blocks.filter(f) == t.filter(f));
        }
    } else {
        releases_of(s, file_id, blocks).lemma_flatten_and_flatten_alt_are_equivalent();
        assert(blocks.filter(f) =~= blocks);
        assert(releases_of(s, file_id, blocks) =~= Seq::empty());
    }
}

} // verus!
