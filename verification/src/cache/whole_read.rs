//! What a demand read has at hand after each of its steps, and that a read of resident blocks
//! makes no fetch.

use vstd::prelude::*;

use crate::cache::block_cache::CacheState;
use crate::cache::blocks::increasing;
use crate::cache::coherence::{
    demand_hit_keeps_contents, hand_mirrors, same_contents_serve_the_same, serves,
};
use crate::cache::read::{handed_over, probing_keeps_contents};
use crate::cache::single_flight::claims_keep_the_order;

verus! {

/// The blocks that a probe of a cache has at hand.
pub open spec fn probed_bytes(s: CacheState, file_id: u64, needed: Seq<u32>) -> Map<u32, Seq<u8>> {
    Map::new(
        |b: u32| needed.contains(b) && s.resident((file_id, b)),
        |b: u32| s.block((file_id, b)).data,
    )
}

/// Every block that a reader claims is at hand afterwards, fetched by the reader itself,
/// or waited for; and nothing that was at hand is lost.
pub proof fn every_claimed_block_is_accounted_for(
    s: CacheState,
    have: Map<u32, Seq<u8>>,
    file_id: u64,
    blocks: Seq<u32>,
    reclaim: bool,
)
    ensures
        forall|b: u32|
            have.contains_key(b) ==> #[trigger] s.gathered(
                have,
                file_id,
                blocks,
                reclaim,
            ).contains_key(b),
        forall|b: u32| #[trigger]
            blocks.contains(b) ==> s.gathered(have, file_id, blocks, reclaim).contains_key(b)
                || s.owned(file_id, blocks, reclaim).contains(b) || s.awaited(
                file_id,
                blocks,
                reclaim,
            ).contains(b),
    decreases blocks.len(),
{
    if blocks.len() > 0 {
        let shorter = blocks.drop_last();
        let last = blocks.last();
        let g = s.gathered(have, file_id, blocks, reclaim);
        let o = s.owned(file_id, blocks, reclaim);
        let w = s.awaited(file_id, blocks, reclaim);
        let g0 = s.gathered(have, file_id, shorter, reclaim);
        let o0 = s.owned(file_id, shorter, reclaim);
        let w0 = s.awaited(file_id, shorter, reclaim);
        every_claimed_block_is_accounted_for(s, have, file_id, shorter, reclaim);
        assert forall|b: u32| have.contains_key(b) implies #[trigger] g.contains_key(b) by {
            assert(g0.contains_key(b));
        }
        assert forall|b: u32| #[trigger] blocks.contains(b) implies g.contains_key(b)
            || o.contains(b) || w.contains(b) by {
            let i = choose|i: int| 0 <= i < blocks.len() && blocks[i] == b;
            if i < shorter.len() {
                assert(shorter[i] == b);
                assert(shorter.contains(b));
                if o0.contains(b) {
                    let j = choose|j: int| 0 <= j < o0.len() && o0[j] == b;
                    assert(o[j] == b);
                }
                if w0.contains(b) {
                    let j = choose|j: int| 0 <= j < w0.len() && w0[j] == b;
                    assert(w[j] == b);
                }
            } else {
                assert(b == last);
                if s.last_claim(file_id, blocks, reclaim) is Own {
                    assert(o[o0.len() as int] == b);
                } else if s.last_claim(file_id, blocks, reclaim) is Wait {
                    assert(w[w0.len() as int] == b);
                }
            }
        }
    }
}

pub(crate) proof fn lemma_handed_over_contains(
    have: Map<u32, Seq<u8>>,
    start: u32,
    run: Seq<u32>,
    full: Seq<u8>,
    block_size: u64,
)
    ensures
        forall|b: u32|
            have.contains_key(b) || run.contains(b) ==> #[trigger] handed_over(
                have,
                start,
                run,
                full,
                block_size,
            ).contains_key(b),
    decreases run.len(),
{
    if run.len() > 0 {
        let shorter = run.drop_last();
        let after = handed_over(have, start, run, full, block_size);
        lemma_handed_over_contains(have, start, shorter, full, block_size);
        assert forall|b: u32| have.contains_key(b) || run.contains(b) implies #[trigger]
            after.contains_key(b) by {
            let before = handed_over(have, start, shorter, full, block_size);
            if run.contains(b) {
                let i = choose|i: int| 0 <= i < run.len() && run[i] == b;
                if i < shorter.len() {
                    assert(shorter[i] == b);
                    assert(shorter.contains(b));
                }
            }
            if b != run.last() {
                assert(before.contains_key(b));
            }
        }
    }
}

pub(crate) proof fn lemma_joined_contains(a: Seq<u32>, b: Seq<u32>, x: u32)
    ensures
        (a + b).contains(x) <==> a.contains(x) || b.contains(x),
{
    let all = a + b;
    if a.contains(x) {
        let i = choose|i: int| 0 <= i < a.len() && a[i] == x;
        assert(all[i] == x);
    }
    if b.contains(x) {
        let i = choose|i: int| 0 <= i < b.len() && b[i] == x;
        assert(all[a.len() + i] == x);
    }
    if all.contains(x) {
        let i = choose|i: int| 0 <= i < all.len() && all[i] == x;
        if i < a.len() {
            assert(a[i] == x);
        } else {
            assert(b[i - a.len()] == x);
        }
    }
}

pub(crate) proof fn lemma_handed_over_only(
    have: Map<u32, Seq<u8>>,
    start: u32,
    run: Seq<u32>,
    full: Seq<u8>,
    block_size: u64,
    b: u32,
)
    ensures
        handed_over(have, start, run, full, block_size).contains_key(b) ==> have.contains_key(b)
            || run.contains(b),
    decreases run.len(),
{
    if run.len() > 0 {
        let shorter = run.drop_last();
        lemma_handed_over_only(have, start, shorter, full, block_size, b);
        assert(run[run.len() - 1] == run.last());
        if shorter.contains(b) {
            let i = choose|i: int| 0 <= i < shorter.len() && shorter[i] == b;
            assert(run[i] == b);
        }
    }
}

pub(crate) proof fn lemma_pushed_contains(a: Seq<u32>, last: u32, x: u32)
    ensures
        a.push(last).contains(x) <==> a.contains(x) || x == last,
{
    assert(a.push(last) =~= a + seq![last]);
    assert(seq![last].contains(x) <==> x == last) by {
        assert(seq![last][0] == last);
    }
    lemma_joined_contains(a, seq![last], x);
}

/// No block is claimed in two ways.
pub(crate) proof fn lemma_claims_exclude_each_other(
    s: CacheState,
    have: Map<u32, Seq<u8>>,
    file_id: u64,
    blocks: Seq<u32>,
    reclaim: bool,
)
    requires
        increasing(blocks),
    ensures
        forall|b: u32| #[trigger]
            s.owned(file_id, blocks, reclaim).contains(b) ==> !s.awaited(
                file_id,
                blocks,
                reclaim,
            ).contains(b) && (!have.contains_key(b) ==> !s.gathered(
                have,
                file_id,
                blocks,
                reclaim,
            ).contains_key(b)),
        forall|b: u32| #[trigger]
            s.awaited(file_id, blocks, reclaim).contains(b) ==> (!have.contains_key(b)
                ==> !s.gathered(have, file_id, blocks, reclaim).contains_key(b)),
        forall|b: u32| #[trigger]
            s.gathered(have, file_id, blocks, reclaim).contains_key(b) ==> have.contains_key(b)
                || blocks.contains(b),
    decreases blocks.len(),
{
    if blocks.len() > 0 {
        let shorter = blocks.drop_last();
        let last = blocks.last();
        lemma_claims_exclude_each_other(s, have, file_id, shorter, reclaim);
        claims_keep_the_order(s, file_id, shorter, reclaim);
        let o0 = s.owned(file_id, shorter, reclaim);
        let w0 = s.awaited(file_id, shorter, reclaim);
        assert(!shorter.contains(last)) by {
            if shorter.contains(last) {
                let i = choose|i: int| 0 <= i < shorter.len() && shorter[i] == last;
                assert(blocks[i] < blocks[blocks.len() - 1]);
            }
        }
        assert(!o0.contains(last)) by {
            if o0.contains(last) {
                let i = choose|i: int| 0 <= i < o0.len() && o0[i] == last;
                assert(shorter.contains(o0[i]));
            }
        }
        assert(!w0.contains(last)) by {
            if w0.contains(last) {
                let i = choose|i: int| 0 <= i < w0.len() && w0[i] == last;
                assert(shorter.contains(w0[i]));
            }
        }
        assert forall|b: u32| #[trigger] o0.push(last).contains(b) <==> o0.contains(b) || b
            == last by {
            lemma_pushed_contains(o0, last, b);
        }
        assert forall|b: u32| #[trigger] w0.push(last).contains(b) <==> w0.contains(b) || b
            == last by {
            lemma_pushed_contains(w0, last, b);
        }
        assert forall|b: u32| #[trigger] blocks.contains(b) <==> shorter.contains(b) || b
            == last by {
            lemma_pushed_contains(shorter, last, b);
            assert(blocks =~= shorter.push(last));
        }
        assert forall|b: u32| #[trigger] s.gathered(have, file_id, blocks, reclaim).contains_key(
            b,
        ) implies have.contains_key(b) || blocks.contains(b) by {
            if b != last {
                assert(s.gathered(have, file_id, shorter, reclaim).contains_key(b));
            }
        }
        assert forall|b: u32| #[trigger] s.owned(file_id, blocks, reclaim).contains(b) implies !
            s.awaited(file_id, blocks, reclaim).contains(b) && (!have.contains_key(b)
            ==> !s.gathered(have, file_id, blocks, reclaim).contains_key(b)) by {
            if b == last {
                assert(!s.gathered(have, file_id, shorter, reclaim).contains_key(b)
                    || have.contains_key(b));
            } else {
                assert(o0.contains(b));
            }
        }
        assert forall|b: u32| #[trigger] s.awaited(file_id, blocks, reclaim).contains(
            b,
        ) implies (!have.contains_key(b) ==> !s.gathered(
            have,
            file_id,
            blocks,
            reclaim,
        ).contains_key(b)) by {
            if b == last {
                assert(!s.gathered(have, file_id, shorter, reclaim).contains_key(b)
                    || have.contains_key(b));
            } else {
                assert(w0.contains(b));
            }
        }
    }
}

/// A pass that takes blocks over waits for nobody.
pub(crate) proof fn lemma_reclaiming_waits_for_nobody(s: CacheState, file_id: u64, blocks: Seq<u32>)
    ensures
        s.awaited(file_id, blocks, true).len() == 0,
    decreases blocks.len(),
{
    if blocks.len() > 0 {
        lemma_reclaiming_waits_for_nobody(s, file_id, blocks.drop_last());
    }
}

/// Looking into a cache that serves the file once more keeps what is at hand, and what is
/// at hand the file's.
pub(crate) proof fn lemma_regathered(
    s: CacheState,
    file_id: u64,
    blocks: Seq<u32>,
    have: Map<u32, Seq<u8>>,
    file: Seq<u8>,
)
    requires
        s.sound(),
        serves(s, file_id, file),
        hand_mirrors(have, file, s.block_size),
    ensures
        s.reprobed(file_id, blocks, have).sound(),
        serves(s.reprobed(file_id, blocks, have), file_id, file),
        s.reprobed(file_id, blocks, have).block_size == s.block_size,
        hand_mirrors(s.regathered(file_id, blocks, have), file, s.block_size),
        forall|b: u32|
            have.contains_key(b) ==> #[trigger] s.regathered(file_id, blocks, have).contains_key(b),
    decreases blocks.len(),
{
    if blocks.len() > 0 {
        let shorter = blocks.drop_last();
        let t = s.reprobed(file_id, shorter, have);
        let key = (file_id, blocks.last());
        lemma_regathered(s, file_id, shorter, have, file);
        demand_hit_keeps_contents(t, key, true);
        same_contents_serve_the_same(t, t.demand_hit(key, true), file_id, file);
        let before = s.regathered(file_id, shorter, have);
        let after = s.regathered(file_id, blocks, have);
        assert forall|b: u32| have.contains_key(b) implies #[trigger] after.contains_key(b) by {
            assert(before.contains_key(b));
        }
    }
}

/// Every one of the blocks is at hand.
pub open spec fn complete(blocks: Seq<u32>, have: Map<u32, Seq<u8>>) -> bool {
    forall|i: int| 0 <= i < blocks.len() ==> have.contains_key(#[trigger] blocks[i])
}

/// A read of blocks that are all resident makes no fetch: nothing is missing, each block
/// counts as one hit and none as a miss, and the fetches stay as they were.
pub proof fn a_read_of_resident_blocks_makes_no_fetch(
    s: CacheState,
    file_id: u64,
    needed: Seq<u32>,
)
    requires
        s.sound(),
        forall|i: int| 0 <= i < needed.len() ==> s.resident((file_id, #[trigger] needed[i])),
    ensures
        s.absent(file_id, needed).len() == 0,
        s.probed(file_id, needed).metrics.fetches == s.metrics.fetches,
        s.probed(file_id, needed).metrics.misses == s.metrics.misses,
        s.probed(file_id, needed).metrics.hits as int == (s.metrics.hits + needed.len())
            % 0x1_0000_0000_0000_0000,
        forall|i: int|
            0 <= i < needed.len() ==> probed_bytes(s, file_id, needed).contains_key(
                #[trigger] needed[i],
            ),
    decreases needed.len(),
{
    if needed.len() > 0 {
        let shorter = needed.drop_last();
        assert forall|i: int| 0 <= i < shorter.len() implies s.resident(
            (file_id, #[trigger] shorter[i]),
        ) by {
            assert(shorter[i] == needed[i]);
        }
        a_read_of_resident_blocks_makes_no_fetch(s, file_id, shorter);
        probing_keeps_contents(s, file_id, shorter);
        let t = s.probed(file_id, shorter);
        let key = (file_id, needed.last());
        assert(needed[needed.len() - 1] == needed.last());
        assert(t.resident(key) == s.resident(key));
        let n = s.metrics.hits + shorter.len();
        assert((n + 1) % 0x1_0000_0000_0000_0000 == (n % 0x1_0000_0000_0000_0000 + 1)
            % 0x1_0000_0000_0000_0000) by (nonlinear_arith);
    }
}

} // verus!
