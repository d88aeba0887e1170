//! One reader fetches a block for all who miss it, and no flight outlives its fetch.

use vstd::prelude::*;

use crate::cache::block_cache::{CacheState, VersionDecision};
use crate::cache::blocks::increasing;
use crate::cache::coherence::{
    demand_hit_keeps_contents, flights_keep_contents, lemma_home,
};
use crate::cache::metrics::Metrics;
use crate::cache::sieve::{BlockKey, BlockState, Credit};
use crate::cache::version::FileVersion;

verus! {

/// A flight that begins is the only one that changes.
proof fn lemma_begun(s: CacheState, key: BlockKey)
    requires
        s.shards.len() > 0,
    ensures
        s.flight_begun(key).shards.len() == s.shards.len(),
        forall|k: BlockKey| #[trigger]
            s.flight_begun(key).in_flight(k) == (s.in_flight(k) || k == key),
{
    lemma_home(s, key);
    assert forall|k: BlockKey| #[trigger]
        s.flight_begun(key).in_flight(k) == (s.in_flight(k) || k == key) by {
        lemma_home(s, k);
    }
}

/// A flight that ends is the only one that changes.
proof fn lemma_ended(s: CacheState, key: BlockKey)
    requires
        s.shards.len() > 0,
    ensures
        s.flight_ended(key).shards.len() == s.shards.len(),
        forall|k: BlockKey| #[trigger]
            s.flight_ended(key).in_flight(k) == (s.in_flight(k) && k != key),
{
    lemma_home(s, key);
    assert forall|k: BlockKey| #[trigger]
        s.flight_ended(key).in_flight(k) == (s.in_flight(k) && k != key) by {
        lemma_home(s, k);
    }
}

/// A demand read changes no flight.
proof fn lemma_hit_flights(s: CacheState, key: BlockKey, repeat: bool)
    requires
        s.shards.len() > 0,
    ensures
        s.demand_hit(key, repeat).shards.len() == s.shards.len(),
        forall|k: BlockKey| #[trigger] s.demand_hit(key, repeat).in_flight(k) == s.in_flight(k),
{
    lemma_home(s, key);
    assert forall|k: BlockKey| #[trigger]
        s.demand_hit(key, repeat).in_flight(k) == s.in_flight(k) by {
        lemma_home(s, k);
    }
}

/// Putting a block into the memory tier changes no flight.
proof fn lemma_inserted_flights(s: CacheState, key: BlockKey, block: BlockState)
    requires
        s.shards.len() > 0,
    ensures
        s.inserted(key, block).shards.len() == s.shards.len(),
        forall|k: BlockKey| #[trigger] s.inserted(key, block).in_flight(k) == s.in_flight(k),
{
    lemma_home(s, key);
    assert forall|k: BlockKey| #[trigger] s.inserted(key, block).in_flight(k) == s.in_flight(k) by {
        lemma_home(s, k);
    }
}

/// A reader owns only blocks that nobody had or fetched, and all that it owns is in
/// flight from then on, as is all that was in flight before.
pub proof fn claiming_begins_flights(s: CacheState, file_id: u64, blocks: Seq<u32>, reclaim: bool)
    requires
        s.sound(),
    ensures
        s.claimed(file_id, blocks, reclaim).sound(),
        s.claimed(file_id, blocks, reclaim).same_contents(s),
        forall|k: BlockKey|
            s.in_flight(k) ==> #[trigger] s.claimed(file_id, blocks, reclaim).in_flight(k),
        forall|b: u32| #[trigger]
            s.owned(file_id, blocks, reclaim).contains(b) ==> !s.resident((file_id, b)) && (reclaim
                || !s.in_flight((file_id, b))) && s.claimed(file_id, blocks, reclaim).in_flight(
                (file_id, b),
            ),
    decreases blocks.len(),
{
    if blocks.len() > 0 {
        let shorter = blocks.drop_last();
        let key = (file_id, blocks.last());
        let t = s.claimed(file_id, shorter, reclaim);
        let u = s.claimed(file_id, blocks, reclaim);
        claiming_begins_flights(s, file_id, shorter, reclaim);
        demand_hit_keeps_contents(t, key, true);
        flights_keep_contents(t, key);
        lemma_begun(t, key);
        lemma_hit_flights(t, key, true);
        assert forall|k: BlockKey| #[trigger] u.resident(k) == s.resident(k) && (u.resident(k)
            ==> u.block(k).data == s.block(k).data) by {
            assert(t.resident(k) == s.resident(k));
            assert(u.resident(k) == t.resident(k));
        }
        assert forall|k: BlockKey| s.in_flight(k) implies #[trigger] u.in_flight(k) by {
            assert(t.in_flight(k));
        }
        assert forall|b: u32| #[trigger] s.owned(file_id, blocks, reclaim).contains(b) implies
            !s.resident((file_id, b)) && (reclaim || !s.in_flight((file_id, b))) && u.in_flight(
            (file_id, b),
        ) by {
            let o = s.owned(file_id, blocks, reclaim);
            let before = s.owned(file_id, shorter, reclaim);
            let i = choose|i: int| 0 <= i < o.len() && o[i] == b;
            if i < before.len() {
                assert(before[i] == b);
                assert(before.contains(b));
                assert(t.in_flight((file_id, b)));
            } else {
                assert(b == blocks.last());
                assert(t.resident(key) == s.resident(key));
                if s.in_flight(key) {
                    assert(t.in_flight(key));
                }
            }
        }
    }
}

/// A read-ahead owns only blocks that nobody had or fetched, and all that it owns is in
/// flight from then on, as is all that was in flight before.
pub proof fn reading_ahead_begins_flights(s: CacheState, file_id: u64, run: Seq<u32>)
    requires
        s.sound(),
    ensures
        s.claimed_ahead(file_id, run).sound(),
        s.claimed_ahead(file_id, run).same_contents(s),
        forall|k: BlockKey|
            s.in_flight(k) ==> #[trigger] s.claimed_ahead(file_id, run).in_flight(k),
        forall|b: u32| #[trigger]
            s.owned_ahead(file_id, run).contains(b) ==> !s.resident((file_id, b)) && !s.in_flight(
                (file_id, b),
            ) && s.claimed_ahead(file_id, run).in_flight((file_id, b)),
    decreases run.len(),
{
    if run.len() > 0 {
        let shorter = run.drop_last();
        let key = (file_id, run.last());
        let t = s.claimed_ahead(file_id, shorter);
        let u = s.claimed_ahead(file_id, run);
        reading_ahead_begins_flights(s, file_id, shorter);
        flights_keep_contents(t, key);
        lemma_begun(t, key);
        assert forall|k: BlockKey| #[trigger] u.resident(k) == s.resident(k) && (u.resident(k)
            ==> u.block(k).data == s.block(k).data) by {
            assert(t.resident(k) == s.resident(k));
            assert(u.resident(k) == t.resident(k));
        }
        assert forall|k: BlockKey| s.in_flight(k) implies #[trigger] u.in_flight(k) by {
            assert(t.in_flight(k));
        }
        assert forall|b: u32| #[trigger] s.owned_ahead(file_id, run).contains(b) implies
            !s.resident((file_id, b)) && !s.in_flight((file_id, b)) && u.in_flight(
            (file_id, b),
        ) by {
            let o = s.owned_ahead(file_id, run);
            let before = s.owned_ahead(file_id, shorter);
            let i = choose|i: int| 0 <= i < o.len() && o[i] == b;
            if i < before.len() {
                assert(before[i] == b);
                assert(before.contains(b));
                assert(t.in_flight((file_id, b)));
            } else {
                assert(b == run.last());
                assert(t.resident(key) == s.resident(key));
                if s.in_flight(key) {
                    assert(t.in_flight(key));
                }
            }
        }
    }
}

/// Appending the last of the blocks keeps what is taken from the others increasing.
proof fn lemma_still_increasing(part: Seq<u32>, blocks: Seq<u32>)
    requires
        blocks.len() > 0,
        increasing(blocks),
        increasing(part),
        forall|i: int| 0 <= i < part.len() ==> blocks.drop_last().contains(#[trigger] part[i]),
    ensures
        increasing(part.push(blocks.last())),
        forall|i: int| 0 <= i < part.len() ==> blocks.contains(#[trigger] part[i]),
        blocks.contains(blocks.last()),
{
    let shorter = blocks.drop_last();
    let longer = part.push(blocks.last());
    assert(blocks[blocks.len() - 1] == blocks.last());
    assert forall|i: int| 0 <= i < part.len() implies blocks.contains(#[trigger] part[i])
        && part[i] < blocks.last() by {
        assert(shorter.contains(part[i]));
        let j = choose|j: int| 0 <= j < shorter.len() && shorter[j] == part[i];
        assert(blocks[j] == part[i]);
    }
    assert forall|i: int, j: int| 0 <= i < j < longer.len() implies longer[i] < longer[j] by {
        if j == part.len() {
            assert(part[i] < blocks.last());
        }
    }
}

/// Blocks claimed in increasing order are owned, and waited for, in that order, so that
/// what is owned can be grouped into runs.
pub proof fn claims_keep_the_order(s: CacheState, file_id: u64, blocks: Seq<u32>, reclaim: bool)
    requires
        increasing(blocks),
    ensures
        increasing(s.owned(file_id, blocks, reclaim)),
        increasing(s.awaited(file_id, blocks, reclaim)),
        increasing(s.owned_ahead(file_id, blocks)),
        forall|i: int|
            0 <= i < s.owned(file_id, blocks, reclaim).len() ==> blocks.contains(
                #[trigger] s.owned(file_id, blocks, reclaim)[i],
            ),
        forall|i: int|
            0 <= i < s.awaited(file_id, blocks, reclaim).len() ==> blocks.contains(
                #[trigger] s.awaited(file_id, blocks, reclaim)[i],
            ),
        forall|i: int|
            0 <= i < s.owned_ahead(file_id, blocks).len() ==> blocks.contains(
                #[trigger] s.owned_ahead(file_id, blocks)[i],
            ),
    decreases blocks.len(),
{
    if blocks.len() > 0 {
        let shorter = blocks.drop_last();
        claims_keep_the_order(s, file_id, shorter, reclaim);
        lemma_still_increasing(s.owned(file_id, shorter, reclaim), blocks);
        lemma_still_increasing(s.awaited(file_id, shorter, reclaim), blocks);
        lemma_still_increasing(s.owned_ahead(file_id, shorter), blocks);
    }
}

/// A block that some reader fetches is fetched by no other: while it is in flight,
/// neither a reader nor a read-ahead comes to own it, unless it reclaims a flight whose
/// owner has failed it.
pub proof fn a_flight_has_one_owner(s: CacheState, file_id: u64, b: u32, blocks: Seq<u32>)
    requires
        s.sound(),
        s.in_flight((file_id, b)),
    ensures
        !s.owned(file_id, blocks, false).contains(b),
        !s.owned_ahead(file_id, blocks).contains(b),
{
    claiming_begins_flights(s, file_id, blocks, false);
    reading_ahead_begins_flights(s, file_id, blocks);
}

/// Of two readers that miss a block one after the other, before it is fetched, the first
/// fetches it and the second does not.
pub proof fn the_first_to_miss_fetches(
    s: CacheState,
    file_id: u64,
    first: Seq<u32>,
    second: Seq<u32>,
)
    requires
        s.sound(),
    ensures
        forall|b: u32| #[trigger]
            s.owned(file_id, first, false).contains(b) ==> !s.claimed(
                file_id,
                first,
                false,
            ).owned(file_id, second, false).contains(b) && !s.claimed(
                file_id,
                first,
                false,
            ).owned_ahead(file_id, second).contains(b),
        forall|b: u32| #[trigger]
            s.owned_ahead(file_id, first).contains(b) ==> !s.claimed_ahead(file_id, first).owned(
                file_id,
                second,
                false,
            ).contains(b) && !s.claimed_ahead(file_id, first).owned_ahead(
                file_id,
                second,
            ).contains(b),
{
    claiming_begins_flights(s, file_id, first, false);
    reading_ahead_begins_flights(s, file_id, first);
    let t = s.claimed(file_id, first, false);
    let u = s.claimed_ahead(file_id, first);
    claiming_begins_flights(t, file_id, second, false);
    reading_ahead_begins_flights(t, file_id, second);
    claiming_begins_flights(u, file_id, second, false);
    reading_ahead_begins_flights(u, file_id, second);
}

/// Ending the flights of a run ends exactly those: what a reader that fails or is given
/// up had claimed is free again.
pub proof fn ended_flights_leave_nothing_behind(s: CacheState, file_id: u64, run: Seq<u32>)
    requires
        s.shards.len() > 0,
    ensures
        s.flights_ended(file_id, run).shards.len() == s.shards.len(),
        forall|k: BlockKey| #[trigger]
            s.flights_ended(file_id, run).in_flight(k) == (s.in_flight(k) && !(k.0 == file_id
                && run.contains(k.1))),
    decreases run.len(),
{
    if run.len() > 0 {
        let shorter = run.drop_last();
        let t = s.flights_ended(file_id, shorter);
        ended_flights_leave_nothing_behind(s, file_id, shorter);
        lemma_ended(t, (file_id, run.last()));
        assert forall|k: BlockKey| #[trigger]
            s.flights_ended(file_id, run).in_flight(k) == (s.in_flight(k) && !(k.0 == file_id
                && run.contains(k.1))) by {
            lemma_contains_last(run, k.1);
            assert(t.in_flight(k) == (s.in_flight(k) && !(k.0 == file_id && shorter.contains(
                k.1,
            ))));
        }
    }
}

proof fn lemma_contains_last(run: Seq<u32>, b: u32)
    requires
        run.len() > 0,
    ensures
        run.contains(b) == (run.drop_last().contains(b) || b == run.last()),
{
    let shorter = run.drop_last();
    if run.contains(b) {
        let i = choose|i: int| 0 <= i < run.len() && run[i] == b;
        if i < shorter.len() {
            assert(shorter[i] == b);
        }
    }
    if shorter.contains(b) {
        let i = choose|i: int| 0 <= i < shorter.len() && shorter[i] == b;
        assert(run[i] == b);
    }
    if b == run.last() {
        assert(run[run.len() - 1] == b);
    }
}

/// A failed fetch caches nothing: every block is as it was, and none of the run is in
/// flight any more, so that it can be claimed again.
pub proof fn failed_fetch_caches_nothing(s: CacheState, file_id: u64, run: Seq<u32>)
    requires
        s.sound(),
    ensures
        s.run_failed(file_id, run).sound(),
        s.run_failed(file_id, run).same_contents(s),
        forall|b: u32| #[trigger]
            run.contains(b) ==> !s.run_failed(file_id, run).in_flight((file_id, b)),
{
    let counted = s.with_metrics(
        Metrics { fetches: s.metrics.fetches.wrapping_add(1), ..s.metrics },
    );
    let u = s.run_failed(file_id, run);
    assert(counted.sound());
    lemma_ended_flights_keep_contents(counted, file_id, run);
    ended_flights_leave_nothing_behind(counted, file_id, run);
    assert forall|k: BlockKey| #[trigger] u.resident(k) == s.resident(k) && (u.resident(k)
        ==> u.block(k).data == s.block(k).data) by {
        assert(counted.resident(k) == s.resident(k));
        assert(counted.block(k) == s.block(k));
        assert(u.resident(k) == counted.resident(k));
    }
    assert forall|b: u32| #[trigger] run.contains(b) implies !u.in_flight((file_id, b)) by {
        let k = (file_id, b);
        assert(u.in_flight(k) == (counted.in_flight(k) && !(k.0 == file_id && run.contains(k.1))));
    }
}

/// Taking blocks out of flight changes no block.
proof fn lemma_ended_flights_keep_contents(s: CacheState, file_id: u64, run: Seq<u32>)
    requires
        s.sound(),
    ensures
        s.flights_ended(file_id, run).sound(),
        s.flights_ended(file_id, run).same_contents(s),
    decreases run.len(),
{
    if run.len() > 0 {
        let t = s.flights_ended(file_id, run.drop_last());
        let u = s.flights_ended(file_id, run);
        lemma_ended_flights_keep_contents(s, file_id, run.drop_last());
        flights_keep_contents(t, (file_id, run.last()));
        assert forall|k: BlockKey| #[trigger] u.resident(k) == s.resident(k) && (u.resident(k)
            ==> u.block(k).data == s.block(k).data) by {
            assert(t.resident(k) == s.resident(k));
            assert(u.resident(k) == t.resident(k));
        }
    }
}

/// Publishing a run ends exactly its flights.
pub proof fn publishing_ends_the_flights(
    s: CacheState,
    file_id: u64,
    start: u32,
    run: Seq<u32>,
    full: Seq<u8>,
    credit: Option<Credit>,
)
    requires
        s.shards.len() > 0,
    ensures
        s.published(file_id, start, run, full, credit).shards.len() == s.shards.len(),
        forall|k: BlockKey| #[trigger]
            s.published(file_id, start, run, full, credit).in_flight(k) == (s.in_flight(k) && !(k.0
                == file_id && run.contains(k.1))),
    decreases run.len(),
{
    if run.len() > 0 {
        let shorter = run.drop_last();
        let key = (file_id, run.last());
        let t = s.published(file_id, start, shorter, full, credit);
        let block = s.run_block(start, run.last(), full, credit);
        publishing_ends_the_flights(s, file_id, start, shorter, full, credit);
        lemma_inserted_flights(t, key, block);
        lemma_ended(t.inserted(key, block), key);
        assert forall|k: BlockKey| #[trigger]
            s.published(file_id, start, run, full, credit).in_flight(k) == (s.in_flight(k) && !(k.0
                == file_id && run.contains(k.1))) by {
            lemma_contains_last(run, k.1);
            assert(t.inserted(key, block).in_flight(k) == t.in_flight(k));
        }
    }
}

/// A completed fetch ends exactly the flights of its run, whether or not the file turned
/// out to have changed.
pub proof fn completed_fetch_ends_its_flights(
    s: CacheState,
    file_id: u64,
    run: Seq<u32>,
    full: Seq<u8>,
    version: FileVersion,
)
    requires
        s.shards.len() > 0,
    ensures
        forall|k: BlockKey| #[trigger]
            s.run_completed(file_id, run, full, version).in_flight(k) == (s.in_flight(k) && !(k.0
                == file_id && run.contains(k.1))),
{
    let t = s.run_fetched(full);
    let u = t.reconciled(file_id, version);
    assert forall|k: BlockKey| #[trigger] u.in_flight(k) == s.in_flight(k) by {
        lemma_home(s, k);
        if t.files.decision(file_id, version) == VersionDecision::Overwritten {
            assert(u.shards[s.home(k)].in_flight == s.shards[s.home(k)].in_flight);
        }
    }
    publishing_ends_the_flights(u, file_id, run[0], run, full, None);
    assert forall|k: BlockKey| #[trigger]
        s.run_completed(file_id, run, full, version).in_flight(k) == (s.in_flight(k) && !(k.0
            == file_id && run.contains(k.1))) by {
        assert(u.in_flight(k) == s.in_flight(k));
    }
}

/// Claiming blocks starts no flight of any other block.
proof fn lemma_claims_leave_others(
    s: CacheState,
    file_id: u64,
    blocks: Seq<u32>,
    reclaim: bool,
    b: u32,
)
    requires
        s.sound(),
        !blocks.contains(b),
    ensures
        s.claimed(file_id, blocks, reclaim).in_flight((file_id, b)) == s.in_flight((file_id, b)),
    decreases blocks.len(),
{
    if blocks.len() > 0 {
        let t = blocks.drop_last();
        if t.contains(b) {
            let i = choose|i: int| 0 <= i < t.len() && t[i] == b;
            assert(blocks[i] == b);
        }
        assert(blocks[blocks.len() - 1] == blocks.last());
        lemma_claims_leave_others(s, file_id, t, reclaim, b);
        claiming_begins_flights(s, file_id, t, reclaim);
        let u = s.claimed(file_id, t, reclaim);
        lemma_begun(u, (file_id, blocks.last()));
        lemma_hit_flights(u, (file_id, blocks.last()), true);
    }
}

/// A reader fetches exactly the blocks claimed that are not resident and that nobody fetches,
/// or all that are not resident where it waits for nobody; it waits for exactly those that
/// another fetches; and it has exactly the resident ones at hand beside what it had.
pub proof fn a_claim_sorts_the_blocks(
    s: CacheState,
    have: Map<u32, Seq<u8>>,
    file_id: u64,
    blocks: Seq<u32>,
    reclaim: bool,
    b: u32,
)
    requires
        s.sound(),
        increasing(blocks),
    ensures
        s.owned(file_id, blocks, reclaim).contains(b) <==> blocks.contains(b) && !s.resident(
            (file_id, b),
        ) && (reclaim || !s.in_flight((file_id, b))),
        s.awaited(file_id, blocks, reclaim).contains(b) <==> blocks.contains(b) && !s.resident(
            (file_id, b),
        ) && !reclaim && s.in_flight((file_id, b)),
        s.gathered(have, file_id, blocks, reclaim).contains_key(b) <==> have.contains_key(b) || (
        blocks.contains(b) && s.resident((file_id, b))),
        blocks.contains(b) && s.resident((file_id, b)) ==> s.gathered(
            have,
            file_id,
            blocks,
            reclaim,
        )[b] == s.block((file_id, b)).data,
        have.contains_key(b) && !(blocks.contains(b) && s.resident((file_id, b))) ==> s.gathered(
            have,
            file_id,
            blocks,
            reclaim,
        )[b] == have[b],
    decreases blocks.len(),
{
    if blocks.len() > 0 {
        let t = blocks.drop_last();
        let x = blocks.last();
        assert(increasing(t));
        a_claim_sorts_the_blocks(s, have, file_id, t, reclaim, b);
        claiming_begins_flights(s, file_id, t, reclaim);
        let u = s.claimed(file_id, t, reclaim);
        assert(u.resident((file_id, x)) == s.resident((file_id, x)));
        assert(!t.contains(x)) by {
            if t.contains(x) {
                let i = choose|i: int| 0 <= i < t.len() && t[i] == x;
                assert(blocks[i] < blocks[blocks.len() - 1]);
            }
        }
        lemma_claims_leave_others(s, file_id, t, reclaim, x);
        assert(blocks =~= t.push(x));
        lemma_contains_pushed(t, x, b);
        lemma_contains_pushed(s.owned(file_id, t, reclaim), x, b);
        lemma_contains_pushed(s.awaited(file_id, t, reclaim), x, b);
    }
}

proof fn lemma_contains_pushed(s: Seq<u32>, x: u32, b: u32)
    ensures
        s.push(x).contains(b) <==> s.contains(b) || b == x,
{
    let t = s.push(x);
    if s.contains(b) {
        let i = choose|i: int| 0 <= i < s.len() && s[i] == b;
        assert(t[i] == b);
    }
    assert(t[s.len() as int] == x);
    if t.contains(b) {
        let i = choose|i: int| 0 <= i < t.len() && t[i] == b;
        if i < s.len() {
            assert(s[i] == b);
        }
    }
}

proof fn lemma_ahead_leaves_others(s: CacheState, file_id: u64, run: Seq<u32>, b: u32)
    requires
        s.sound(),
        !run.contains(b),
    ensures
        s.claimed_ahead(file_id, run).in_flight((file_id, b)) == s.in_flight((file_id, b)),
    decreases run.len(),
{
    if run.len() > 0 {
        let t = run.drop_last();
        if t.contains(b) {
            let i = choose|i: int| 0 <= i < t.len() && t[i] == b;
            assert(run[i] == b);
        }
        assert(run[run.len() - 1] == run.last());
        lemma_ahead_leaves_others(s, file_id, t, b);
        reading_ahead_begins_flights(s, file_id, t);
        lemma_begun(s.claimed_ahead(file_id, t), (file_id, run.last()));
    }
}

/// A read-ahead fetches exactly the blocks that nobody has or fetches.
pub proof fn a_read_ahead_fetches_what_nobody_has(
    s: CacheState,
    file_id: u64,
    run: Seq<u32>,
    b: u32,
)
    requires
        s.sound(),
        increasing(run),
    ensures
        s.owned_ahead(file_id, run).contains(b) <==> run.contains(b) && !s.resident((file_id, b))
            && !s.in_flight((file_id, b)),
        s.cached_ahead(file_id, run) == run.len() - s.absent(file_id, run).len(),
    decreases run.len(),
{
    if run.len() > 0 {
        let t = run.drop_last();
        let x = run.last();
        assert(increasing(t));
        a_read_ahead_fetches_what_nobody_has(s, file_id, t, b);
        reading_ahead_begins_flights(s, file_id, t);
        let u = s.claimed_ahead(file_id, t);
        assert(u.resident((file_id, x)) == s.resident((file_id, x)));
        assert(!t.contains(x)) by {
            if t.contains(x) {
                let i = choose|i: int| 0 <= i < t.len() && t[i] == x;
                assert(run[i] < run[run.len() - 1]);
            }
        }
        lemma_ahead_leaves_others(s, file_id, t, x);
        assert(run =~= t.push(x));
        lemma_contains_pushed(t, x, b);
        lemma_contains_pushed(s.owned_ahead(file_id, t), x, b);
    }
}

} // verus!
