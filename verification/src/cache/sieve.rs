//! One shard of the memory tier, evicting in SIEVE order.
//!
//! Blocks queue up in order of insertion, each with one reference bit. A hand
//! walks from the oldest block to the newest: it spares referenced blocks,
//! clearing their bit, and evicts the first unreferenced one.

use bytes::Bytes;
use vstd::prelude::*;

use crate::cache::bytes_ops::{bytes_clone, bytes_len, content};

verus! {

/// A block: the interned file id and the block's index in the file.
pub type BlockKey = (u64, u32);

/// Index overhead charged for every block beside its bytes.
pub const BLOCK_OVERHEAD: u64 = 64;

/// The prefetch credit that a block still holds.
#[derive(Clone, Copy, Debug, PartialEq, Eq, Structural)]
pub struct Credit {
    /// The ledger that the credit was charged to.
    pub ledger: u64,
    /// The bytes charged.
    pub bytes: u64,
}

/// A cached block.
pub struct Block {
    pub data: Bytes,
    /// Read since the hand last passed.
    pub visited: bool,
    /// Read again after it was resident.
    pub ever_visited: bool,
    /// The prefetch tag: set until the first demand read or the eviction.
    pub credit: Option<Credit>,
}

/// A block as a mathematical value.
pub struct BlockState {
    pub data: Seq<u8>,
    pub visited: bool,
    pub ever_visited: bool,
    pub credit: Option<Credit>,
}

impl View for Block {
    type V = BlockState;

    open spec fn view(&self) -> BlockState {
        BlockState {
            data: content(self.data),
            visited: self.visited,
            ever_visited: self.ever_visited,
            credit: self.credit,
        }
    }
}

impl BlockState {
    /// A block that a demand read fetched.
    pub open spec fn fresh(data: Seq<u8>) -> BlockState {
        BlockState { data, visited: false, ever_visited: false, credit: None }
    }

    /// A block that was fetched ahead of demand.
    pub open spec fn prefetched(data: Seq<u8>, credit: Credit) -> BlockState {
        BlockState { data, visited: false, ever_visited: false, credit: Some(credit) }
    }

    /// A block read back from the SSD tier.
    pub open spec fn promoted(data: Seq<u8>) -> BlockState {
        BlockState { data, visited: true, ever_visited: true, credit: None }
    }

    /// The block after a demand read. The first read of a prefetched block
    /// consumes its credit and is not a repeat access.
    pub open spec fn hit(self, repeat: bool) -> BlockState {
        BlockState {
            data: self.data,
            visited: true,
            ever_visited: self.ever_visited || (repeat && self.credit is None),
            credit: None,
        }
    }

    /// The block after the hand has spared it.
    pub open spec fn spared(self) -> BlockState {
        BlockState { visited: false, ..self }
    }

    /// What the block counts against the budget.
    pub open spec fn charge(self) -> int {
        self.data.len() + BLOCK_OVERHEAD
    }
}

impl Block {
    /// A block that a demand read fetched.
    pub fn new(data: Bytes) -> (b: Block)
        ensures
            b@ == BlockState::fresh(content(data)),
    {
        Block { data, visited: false, ever_visited: false, credit: None }
    }

    /// A block fetched ahead of demand, holding `bytes` of credit of `ledger`.
    pub fn new_prefetch(data: Bytes, ledger: u64, bytes: u64) -> (b: Block)
        ensures
            b@ == BlockState::prefetched(content(data), (Credit { ledger, bytes })),
    {
        Block {
            data,
            visited: false,
            ever_visited: false,
            credit: Some(Credit { ledger, bytes }),
        }
    }

    /// A block read back from the SSD tier.
    pub fn new_promoted(data: Bytes) -> (b: Block)
        ensures
            b@ == BlockState::promoted(content(data)),
    {
        Block { data, visited: true, ever_visited: true, credit: None }
    }
}

/// A block with its key.
pub struct Evicted {
    pub key: BlockKey,
    pub block: Block,
}

/// A queue position as a mathematical value.
pub struct Slot {
    pub key: BlockKey,
    pub block: BlockState,
}

impl View for Evicted {
    type V = Slot;

    open spec fn view(&self) -> Slot {
        Slot { key: self.key, block: self.block@ }
    }
}

/// The queue positions as mathematical values.
pub open spec fn slots(v: Seq<Evicted>) -> Seq<Slot> {
    Seq::new(v.len(), |i: int| v[i]@)
}

/// What the blocks count against the budget, all together.
pub open spec fn total_charge(s: Seq<Slot>) -> int
    decreases s.len(),
{
    if s.len() == 0 {
        0
    } else {
        total_charge(s.drop_last()) + s.last().block.charge()
    }
}

/// The block is in the queue.
pub open spec fn holds(s: Seq<Slot>, key: BlockKey) -> bool {
    exists|i: int| 0 <= i < s.len() && (#[trigger] s[i]).key == key
}

/// Where the block is in the queue.
pub open spec fn position(s: Seq<Slot>, key: BlockKey) -> int {
    choose|i: int| 0 <= i < s.len() && (#[trigger] s[i]).key == key
}

/// No block is in the queue twice.
pub open spec fn distinct_keys(s: Seq<Slot>) -> bool {
    forall|i: int, j: int|
        0 <= i < j < s.len() ==> (#[trigger] s[i]).key != (#[trigger] s[j]).key
}

/// The first position of `from..to` that is not referenced, or `to`.
pub open spec fn first_unvisited(s: Seq<Slot>, from: int, to: int) -> int
    decreases to - from,
{
    if from >= to || !s[from].block.visited {
        from
    } else {
        first_unvisited(s, from + 1, to)
    }
}

/// The position the hand evicts: the first unreferenced block from the hand to
/// the newest, else the first from the oldest to the hand, else the block that
/// the hand started at.
pub open spec fn victim(s: Seq<Slot>, hand: int) -> int {
    let ahead = first_unvisited(s, hand, s.len() as int);
    let behind = first_unvisited(s, 0, hand);
    if ahead < s.len() {
        ahead
    } else {
        behind
    }
}

/// The hand passes over position `i` before it evicts.
pub open spec fn passed(s: Seq<Slot>, hand: int, i: int) -> bool {
    let ahead = first_unvisited(s, hand, s.len() as int);
    if ahead < s.len() {
        hand <= i < ahead
    } else {
        hand <= i || i < victim(s, hand)
    }
}

/// The queue with the bits cleared of the blocks that the hand passes over.
pub open spec fn spared(s: Seq<Slot>, hand: int) -> Seq<Slot> {
    Seq::new(
        s.len(),
        |i: int|
            if passed(s, hand, i) {
                Slot { key: s[i].key, block: s[i].block.spared() }
            } else {
                s[i]
            },
    )
}

/// The hand as a position in the queue: past the newest it is at the oldest.
pub open spec fn wrapped(hand: int, len: int) -> int {
    if hand >= len {
        0
    } else {
        hand
    }
}

/// The queue, the hand, and the evicted blocks after evicting until the charge
/// is within the budget.
pub open spec fn evicted_until(s: Seq<Slot>, hand: int, budget: int) -> (
    Seq<Slot>,
    int,
    Seq<Slot>,
)
    decreases s.len(),
{
    if s.len() == 0 || total_charge(s) <= budget {
        (s, hand, Seq::empty())
    } else {
        let h = wrapped(hand, s.len() as int);
        let v = victim(s, h);
        if 0 <= v < s.len() {
            let rest = evicted_until(spared(s, h).remove(v), v, budget);
            (rest.0, rest.1, seq![spared(s, h)[v]] + rest.2)
        } else {
            (s, hand, Seq::empty())
        }
    }
}

/// The state of a shard.
pub struct ShardState {
    /// The queue, oldest block first.
    pub queue: Seq<Slot>,
    /// The hand.
    pub hand: int,
    /// The budget in bytes.
    pub budget: int,
    /// Blocks that some reader is fetching.
    pub in_flight: Set<BlockKey>,
}

impl ShardState {
    /// The blocks of the shard by key.
    pub open spec fn blocks(self) -> Map<BlockKey, BlockState> {
        Map::new(
            |k: BlockKey| holds(self.queue, k),
            |k: BlockKey| self.queue[position(self.queue, k)].block,
        )
    }

    /// The shard with its queue and hand as given.
    pub open spec fn with_queue(self, queue: Seq<Slot>, hand: int) -> ShardState {
        ShardState { queue, hand, ..self }
    }

    /// The shard after a demand read of a resident block.
    pub open spec fn hit(self, key: BlockKey, repeat: bool) -> ShardState {
        let i = position(self.queue, key);
        ShardState {
            queue: self.queue.update(
                i,
                Slot { key, block: self.queue[i].block.hit(repeat) },
            ),
            ..self
        }
    }

    /// The shard after a block was put at the newest end of the queue and the
    /// budget was enforced. A block already resident stays as it is.
    pub open spec fn inserted(self, key: BlockKey, block: BlockState) -> ShardState {
        if holds(self.queue, key) {
            self
        } else {
            let r = evicted_until(self.queue.push(Slot { key, block }), self.hand, self.budget);
            self.with_queue(r.0, r.1)
        }
    }

    /// The blocks that putting a block in the queue evicts.
    pub open spec fn evicted_by(self, key: BlockKey, block: BlockState) -> Seq<Slot> {
        if holds(self.queue, key) {
            Seq::empty()
        } else {
            evicted_until(self.queue.push(Slot { key, block }), self.hand, self.budget).2
        }
    }
}

/// A shard of the memory tier.
pub struct Shard {
    queue: Vec<Evicted>,
    hand: usize,
    used: u64,
    budget: u64,
    in_flight: Vec<BlockKey>,
}

impl View for Shard {
    type V = ShardState;

    closed spec fn view(&self) -> ShardState {
        ShardState {
            queue: slots(self.queue@),
            hand: self.hand as int,
            budget: self.budget as int,
            in_flight: self.in_flight@.to_set(),
        }
    }
}

impl Shard {
    /// No block is held twice, the charge is counted and within the budget, and
    /// the hand is a position of the queue or just past the newest block.
    pub closed spec fn wf(&self) -> bool {
        &&& distinct_keys(slots(self.queue@))
        &&& self.used == total_charge(slots(self.queue@))
        &&& self.used <= self.budget
        &&& self.hand <= self.queue@.len()
        &&& self.in_flight@.no_duplicates()
    }

    /// What the invariant says of the shard's state.
    pub proof fn wf_facts(&self)
        requires
            self.wf(),
        ensures
            distinct_keys(self@.queue),
            total_charge(self@.queue) <= self@.budget,
            0 <= self@.hand <= self@.queue.len(),
            0 <= self@.budget <= u64::MAX,
    {
    }

    /// An empty shard.
    pub fn new(budget: u64) -> (s: Shard)
        ensures
            s.wf(),
            s@ == (ShardState {
                queue: Seq::empty(),
                hand: 0,
                budget: budget as int,
                in_flight: Set::empty(),
            }),
    {
        let s = Shard { queue: Vec::new(), hand: 0, used: 0, budget, in_flight: Vec::new() };
        assert(s@.queue =~= Seq::empty());
        assert(s@.in_flight =~= Set::empty());
        s
    }

    fn find(&self, key: BlockKey) -> (r: Option<usize>)
        requires
            self.wf(),
        ensures
            match r {
                Some(i) => holds(self@.queue, key) && i == position(self@.queue, key) && i
                    < self.queue@.len() && self.queue@[i as int].key == key,
                None => !holds(self@.queue, key),
            },
    {
        let mut i: usize = 0;
        while i < self.queue.len()
            invariant
                self.wf(),
                i <= self.queue@.len(),
                forall|j: int| 0 <= j < i ==> (#[trigger] self@.queue[j]).key != key,
            decreases self.queue@.len() - i,
        {
            let k: BlockKey = self.queue[i].key;
            assert(self@.queue[i as int].key == k);
            if k.0 == key.0 && k.1 == key.1 {
                proof {
                    let p = position(self@.queue, key);
                    assert(0 <= p < self@.queue.len() && self@.queue[p].key == key);
                    assert(p == i);
                }
                return Some(i);
            }
            i = i + 1;
        }
        None
    }

    /// Whether the block is resident. This is no demand read.
    pub fn contains(&self, key: BlockKey) -> (r: bool)
        requires
            self.wf(),
        ensures
            r == holds(self@.queue, key),
    {
        self.find(key).is_some()
    }

    /// Serves a demand read of a resident block: marks the block read, and takes
    /// its prefetch credit. `repeat` says that the block was resident before.
    pub fn demand_hit(&mut self, key: BlockKey, repeat: bool) -> (r: Option<(Bytes, Option<Credit>)>)
        requires
            old(self).wf(),
        ensures
            final(self).wf(),
            match r {
                Some(hit) => {
                    &&& holds(old(self)@.queue, key)
                    &&& content(hit.0) == old(self)@.queue[position(
                        old(self)@.queue,
                        key,
                    )].block.data
                    &&& hit.1 == old(self)@.queue[position(old(self)@.queue, key)].block.credit
                    &&& final(self)@ == old(self)@.hit(key, repeat)
                },
                None => !holds(old(self)@.queue, key) && final(self)@ == old(self)@,
            },
    {
        match self.find(key) {
            None => None,
            Some(i) => {
                let ghost before = slots(self.queue@);
                let data: Bytes = bytes_clone(&self.queue[i].block.data);
                let credit: Option<Credit> = self.queue[i].block.credit;
                let ever: bool = self.queue[i].block.ever_visited;
                self.queue[i].block.visited = true;
                self.queue[i].block.ever_visited = ever || (repeat && credit.is_none());
                self.queue[i].block.credit = None;
                proof {
                    let after = slots(self.queue@);
                    assert(after =~= before.update(
                        i as int,
                        Slot { key, block: before[i as int].block.hit(repeat) },
                    ));
                    lemma_charge_update(before, i as int, after[i as int]);
                    assert(distinct_keys(after)) by {
                        assert forall|a: int, b: int| 0 <= a < b < after.len() implies (
                        #[trigger] after[a]).key != (#[trigger] after[b]).key by {
                            assert(before[a].key != before[b].key);
                        }
                    }
                }
                Some((data, credit))
            },
        }
    }
}

/// Replacing a block by one of the same size keeps the charge.
pub(crate) proof fn lemma_charge_update(s: Seq<Slot>, i: int, x: Slot)
    requires
        0 <= i < s.len(),
        x.block.charge() == s[i].block.charge(),
    ensures
        total_charge(s.update(i, x)) == total_charge(s),
    decreases s.len(),
{
    let u = s.update(i, x);
    if i == s.len() - 1 {
        assert(u.drop_last() =~= s.drop_last());
    } else {
        lemma_charge_update(s.drop_last(), i, x);
        assert(u.drop_last() =~= s.drop_last().update(i, x));
    }
}

/// Taking a block out of the queue takes its charge off the total.
proof fn lemma_charge_remove(s: Seq<Slot>, i: int)
    requires
        0 <= i < s.len(),
    ensures
        total_charge(s.remove(i)) == total_charge(s) - s[i].block.charge(),
    decreases s.len(),
{
    if i == s.len() - 1 {
        assert(s.remove(i) =~= s.drop_last());
    } else {
        lemma_charge_remove(s.drop_last(), i);
        assert(s.remove(i).drop_last() =~= s.drop_last().remove(i));
        assert(s.remove(i).last() == s.last());
    }
}

/// The charge of a queue is never negative.
proof fn lemma_charge_nonnegative(s: Seq<Slot>)
    ensures
        0 <= total_charge(s),
        s.len() == 0 ==> total_charge(s) == 0,
    decreases s.len(),
{
    if s.len() > 0 {
        lemma_charge_nonnegative(s.drop_last());
    }
}

/// Two queues that differ only in reference bits have the same charge.
proof fn lemma_charge_same_data(s: Seq<Slot>, t: Seq<Slot>)
    requires
        s.len() == t.len(),
        forall|i: int| 0 <= i < s.len() ==> (#[trigger] s[i]).block.charge() == t[i].block.charge(),
    ensures
        total_charge(s) == total_charge(t),
    decreases s.len(),
{
    if s.len() > 0 {
        lemma_charge_same_data(s.drop_last(), t.drop_last());
        assert(s.last().block.charge() == t.last().block.charge());
    }
}

/// The search for an unreferenced block stays within its bounds.
proof fn lemma_first_unvisited_bounds(s: Seq<Slot>, from: int, to: int)
    requires
        from <= to,
    ensures
        from <= first_unvisited(s, from, to) <= to,
        first_unvisited(s, from, to) < to ==> !s[first_unvisited(s, from, to)].block.visited,
        forall|i: int|
            from <= i < first_unvisited(s, from, to) ==> (#[trigger] s[i]).block.visited,
    decreases to - from,
{
    if from < to && s[from].block.visited {
        lemma_first_unvisited_bounds(s, from + 1, to);
    }
}

/// There is always a block to evict.
proof fn lemma_victim_in_queue(s: Seq<Slot>, hand: int)
    requires
        0 <= hand < s.len(),
    ensures
        0 <= victim(s, hand) < s.len(),
{
    lemma_first_unvisited_bounds(s, hand, s.len() as int);
    lemma_first_unvisited_bounds(s, 0, hand);
}

impl Shard {
    /// Walks the hand from `h` to the block to evict, clearing the bits of the
    /// blocks it passes over.
    fn walk(&mut self, h: usize) -> (v: usize)
        requires
            h < old(self).queue@.len(),
        ensures
            v == victim(slots(old(self).queue@), h as int),
            v < old(self).queue@.len(),
            slots(final(self).queue@) == spared(slots(old(self).queue@), h as int),
            final(self).queue@.len() == old(self).queue@.len(),
            final(self).hand == old(self).hand,
            final(self).used == old(self).used,
            final(self).budget == old(self).budget,
            final(self).in_flight == old(self).in_flight,
    {
        let ghost before = slots(self.queue@);
        let n: usize = self.queue.len();
        let mut i: usize = h;
        while i < n && self.queue[i].block.visited
            invariant
                h <= i <= n,
                n == self.queue@.len() == before.len(),
                first_unvisited(before, h as int, n as int) == first_unvisited(
                    before,
                    i as int,
                    n as int,
                ),
                forall|j: int|
                    0 <= j < n ==> (#[trigger] self.queue@[j])@ == (if h <= j < i {
                        Slot { key: before[j].key, block: before[j].block.spared() }
                    } else {
                        before[j]
                    }),
                self.hand == old(self).hand,
                self.used == old(self).used,
                self.budget == old(self).budget,
                self.in_flight == old(self).in_flight,
            decreases n - i,
        {
            assert(self.queue@[i as int]@ == before[i as int]);
            self.queue[i].block.visited = false;
            i = i + 1;
        }
        if i < n {
            proof {
                assert(self.queue@[i as int]@ == before[i as int]);
                assert(!before[i as int].block.visited);
                assert(first_unvisited(before, i as int, n as int) == i);
                assert(slots(self.queue@) =~= spared(before, h as int));
            }
            return i;
        }
        let mut k: usize = 0;
        while k < h && self.queue[k].block.visited
            invariant
                k <= h < n,
                n == self.queue@.len() == before.len(),
                first_unvisited(before, h as int, n as int) == n,
                first_unvisited(before, 0, h as int) == first_unvisited(
                    before,
                    k as int,
                    h as int,
                ),
                forall|j: int|
                    0 <= j < n ==> (#[trigger] self.queue@[j])@ == (if h <= j || j < k {
                        Slot { key: before[j].key, block: before[j].block.spared() }
                    } else {
                        before[j]
                    }),
                self.hand == old(self).hand,
                self.used == old(self).used,
                self.budget == old(self).budget,
                self.in_flight == old(self).in_flight,
            decreases h - k,
        {
            assert(self.queue@[k as int]@ == before[k as int]);
            self.queue[k].block.visited = false;
            k = k + 1;
        }
        proof {
            if k < h {
                assert(self.queue@[k as int]@ == before[k as int]);
                assert(!before[k as int].block.visited);
            }
            assert(first_unvisited(before, k as int, h as int) == k);
            assert(slots(self.queue@) =~= spared(before, h as int));
        }
        k
    }

    /// Evicts until the charge, which is `charge` on entry, is within the budget.
    fn enforce_budget(&mut self, charge: u128) -> (out: Vec<Evicted>)
        requires
            distinct_keys(slots(old(self).queue@)),
            charge == total_charge(slots(old(self).queue@)),
            old(self).hand <= old(self).queue@.len(),
            old(self).in_flight@.no_duplicates(),
        ensures
            final(self).wf(),
            final(self)@ == old(self)@.with_queue(
                evicted_until(
                    old(self)@.queue,
                    old(self)@.hand,
                    old(self)@.budget,
                ).0,
                evicted_until(old(self)@.queue, old(self)@.hand, old(self)@.budget).1,
            ),
            slots(out@) == evicted_until(old(self)@.queue, old(self)@.hand, old(self)@.budget).2,
    {
        let ghost target = evicted_until(self@.queue, self@.hand, self@.budget);
        let mut out: Vec<Evicted> = Vec::new();
        let mut charge: u128 = charge;
        assert(slots(out@) + target.2 =~= target.2);
        while self.queue.len() > 0 && charge > self.budget as u128
            invariant
                distinct_keys(slots(self.queue@)),
                charge == total_charge(slots(self.queue@)),
                self.hand <= self.queue@.len(),
                self.in_flight == old(self).in_flight,
                self.budget == old(self).budget,
                ({
                    let rest = evicted_until(
                        slots(self.queue@),
                        self.hand as int,
                        self.budget as int,
                    );
                    target == (rest.0, rest.1, slots(out@) + rest.2)
                }),
            decreases self.queue@.len(),
        {
            let h: usize = if self.hand >= self.queue.len() {
                0
            } else {
                self.hand
            };
            let ghost before = slots(self.queue@);
            let ghost out_before = slots(out@);
            let v: usize = self.walk(h);
            let ghost walked = slots(self.queue@);
            proof {
                lemma_charge_same_data(before, walked);
                lemma_charge_remove(walked, v as int);
                lemma_charge_nonnegative(walked.remove(v as int));
            }
            let e: Evicted = self.queue.remove(v);
            assert(e@ == walked[v as int]);
            charge = charge - (bytes_len(&e.block.data) as u128 + BLOCK_OVERHEAD as u128);
            self.hand = v;
            out.push(e);
            proof {
                assert(slots(self.queue@) =~= walked.remove(v as int));
                assert(slots(out@) =~= out_before.push(walked[v as int]));
                assert(distinct_keys(slots(self.queue@))) by {
                    let t = slots(self.queue@);
                    assert forall|a: int, b: int| 0 <= a < b < t.len() implies (#[trigger] t[a]).key
                        != (#[trigger] t[b]).key by {
                        let a2 = if a < v { a } else { a + 1 };
                        let b2 = if b < v { b } else { b + 1 };
                        assert(t[a] == walked[a2] && t[b] == walked[b2]);
                        assert(before[a2].key != before[b2].key);
                    }
                }
                let rest = evicted_until(
                    slots(self.queue@),
                    self.hand as int,
                    self.budget as int,
                );
                lemma_victim_in_queue(before, h as int);
                assert(slots(out@) + rest.2 =~= out_before + (seq![walked[v as int]] + rest.2));
            }
        }
        proof {
            lemma_charge_nonnegative(slots(self.queue@));
            let rest = evicted_until(slots(self.queue@), self.hand as int, self.budget as int);
            assert(rest.2 =~= Seq::<Slot>::empty());
            assert(slots(out@) + rest.2 =~= slots(out@));
        }
        self.used = charge as u64;
        assert(self@ == old(self)@.with_queue(target.0, target.1));
        out
    }

    /// Puts a block at the newest end of the queue and evicts to the budget. A
    /// block that is resident already stays, and the new one is dropped.
    pub fn insert(&mut self, key: BlockKey, block: Block) -> (out: Vec<Evicted>)
        requires
            old(self).wf(),
        ensures
            final(self).wf(),
            final(self)@ == old(self)@.inserted(key, block@),
            slots(out@) == old(self)@.evicted_by(key, block@),
    {
        if self.contains(key) {
            let out: Vec<Evicted> = Vec::new();
            assert(slots(out@) =~= Seq::<Slot>::empty());
            return out;
        }
        let ghost before = slots(self.queue@);
        let charge: u128 = self.used as u128 + bytes_len(&block.data) as u128
            + BLOCK_OVERHEAD as u128;
        let ghost slot = Slot { key, block: block@ };
        self.queue.push(Evicted { key, block });
        proof {
            let after = slots(self.queue@);
            assert(after =~= before.push(slot));
            assert(after.drop_last() =~= before);
            assert(distinct_keys(after)) by {
                assert forall|a: int, b: int| 0 <= a < b < after.len() implies (
                #[trigger] after[a]).key != (#[trigger] after[b]).key by {
                    if b < before.len() {
                        assert(before[a].key != before[b].key);
                    } else {
                        assert(before[a].key != key);
                    }
                }
            }
        }
        self.enforce_budget(charge)
    }

    /// Changes the budget and evicts to it.
    pub fn set_budget(&mut self, budget: u64) -> (out: Vec<Evicted>)
        requires
            old(self).wf(),
        ensures
            final(self).wf(),
            final(self)@ == (ShardState { budget: budget as int, ..old(self)@ }).with_queue(
                evicted_until(old(self)@.queue, old(self)@.hand, budget as int).0,
                evicted_until(old(self)@.queue, old(self)@.hand, budget as int).1,
            ),
            slots(out@) == evicted_until(old(self)@.queue, old(self)@.hand, budget as int).2,
    {
        self.budget = budget;
        let charge: u128 = self.used as u128;
        self.enforce_budget(charge)
    }
}

/// The blocks of other files than `file_id`, in order.
pub open spec fn without_file(s: Seq<Slot>, file_id: u64) -> Seq<Slot>
    decreases s.len(),
{
    if s.len() == 0 {
        Seq::empty()
    } else if s.last().key.0 == file_id {
        without_file(s.drop_last(), file_id)
    } else {
        without_file(s.drop_last(), file_id).push(s.last())
    }
}

/// Leaving out a file's blocks keeps exactly the blocks of other files.
pub(crate) proof fn lemma_without_file(s: Seq<Slot>, file_id: u64)
    ensures
        without_file(s, file_id).len() <= s.len(),
        forall|x: Slot|
            without_file(s, file_id).contains(x) <==> (s.contains(x) && x.key.0 != file_id),
        forall|k: BlockKey|
            #[trigger] holds(without_file(s, file_id), k) <==> (holds(s, k) && k.0 != file_id),
    decreases s.len(),
{
    let w = without_file(s, file_id);
    if s.len() > 0 {
        let t = s.drop_last();
        let wt = without_file(t, file_id);
        lemma_without_file(t, file_id);
        assert(s =~= t.push(s.last()));
        assert forall|x: Slot| w.contains(x) <==> (s.contains(x) && x.key.0 != file_id) by {
            assert(s.contains(x) <==> (t.contains(x) || x == s.last())) by {
                if t.contains(x) {
                    let i = choose|i: int| 0 <= i < t.len() && t[i] == x;
                    assert(s[i] == x);
                }
                if x == s.last() {
                    assert(s[s.len() - 1] == x);
                }
                if s.contains(x) {
                    let i = choose|i: int| 0 <= i < s.len() && s[i] == x;
                    if i < t.len() {
                        assert(t[i] == x);
                    }
                }
            }
            if s.last().key.0 != file_id {
                assert(w.contains(x) <==> (wt.contains(x) || x == s.last())) by {
                    if wt.contains(x) {
                        let i = choose|i: int| 0 <= i < wt.len() && wt[i] == x;
                        assert(w[i] == x);
                    }
                    if x == s.last() {
                        assert(w[w.len() - 1] == x);
                    }
                    if w.contains(x) {
                        let i = choose|i: int| 0 <= i < w.len() && w[i] == x;
                        if i < wt.len() {
                            assert(wt[i] == x);
                        }
                    }
                }
            }
        }
    }
    assert forall|k: BlockKey| #[trigger] holds(w, k) <==> (holds(s, k) && k.0 != file_id) by {
        if holds(w, k) {
            let i = choose|i: int| 0 <= i < w.len() && (#[trigger] w[i]).key == k;
            assert(w.contains(w[i]));
            assert(s.contains(w[i]));
        }
        if holds(s, k) && k.0 != file_id {
            let i = choose|i: int| 0 <= i < s.len() && (#[trigger] s[i]).key == k;
            assert(s.contains(s[i]));
            assert(w.contains(s[i]));
        }
    }
}

impl Shard {
    /// Drops every block of a file. The hand stays at the block it was at, or
    /// moves to the next one that is left.
    pub fn remove_file_blocks(&mut self, file_id: u64)
        requires
            old(self).wf(),
        ensures
            final(self).wf(),
            final(self)@ == old(self)@.with_queue(
                without_file(old(self)@.queue, file_id),
                without_file(old(self)@.queue.take(old(self)@.hand), file_id).len() as int,
            ),
    {
        let ghost before = slots(self.queue@);
        let ghost hand0 = self.hand as int;
        let mut i: usize = 0;
        let ghost mut c: int = 0;
        assert(before.skip(0) =~= before);
        assert(without_file(before.take(0), file_id) =~= Seq::<Slot>::empty());
        while i < self.queue.len()
            invariant
                0 <= c <= before.len(),
                i == without_file(before.take(c), file_id).len(),
                slots(self.queue@) == without_file(before.take(c), file_id) + before.skip(c),
                distinct_keys(slots(self.queue@)),
                self.used == total_charge(slots(self.queue@)),
                self.used <= self.budget,
                0 <= hand0 <= before.len(),
                self.hand == (if c < hand0 {
                    i + (hand0 - c)
                } else {
                    without_file(before.take(hand0), file_id).len() as int
                }),
                c >= hand0 ==> self.hand <= i,
                self.in_flight == old(self).in_flight,
                self.budget == old(self).budget,
                self.in_flight@.no_duplicates(),
            decreases before.len() - c,
        {
            let ghost cur = slots(self.queue@);
            proof {
                assert(cur[i as int] == before[c]);
                assert(before.take(c + 1).drop_last() =~= before.take(c));
                assert(before.take(c + 1).last() == before[c]);
            }
            if self.queue[i].key.0 == file_id {
                proof {
                    lemma_charge_remove(cur, i as int);
                    lemma_charge_nonnegative(cur.remove(i as int));
                }
                let e: Evicted = self.queue.remove(i);
                self.used = self.used - (bytes_len(&e.block.data) as u64 + BLOCK_OVERHEAD);
                if i < self.hand {
                    self.hand = self.hand - 1;
                }
                proof {
                    assert(slots(self.queue@) =~= cur.remove(i as int));
                    assert(cur.remove(i as int) =~= without_file(before.take(c + 1), file_id)
                        + before.skip(c + 1));
                    let t = slots(self.queue@);
                    assert forall|a: int, b: int| 0 <= a < b < t.len() implies (#[trigger] t[a]).key
                        != (#[trigger] t[b]).key by {
                        let a2 = if a < i { a } else { a + 1 };
                        let b2 = if b < i { b } else { b + 1 };
                        assert(t[a] == cur[a2] && t[b] == cur[b2]);
                        assert(cur[a2].key != cur[b2].key);
                    }
                    c = c + 1;
                }
            } else {
                i = i + 1;
                proof {
                    assert(cur =~= without_file(before.take(c + 1), file_id) + before.skip(c + 1));
                    c = c + 1;
                }
            }
        }
        proof {
            assert(c == before.len()) by {
                assert(slots(self.queue@).len() == i + (before.len() - c));
            }
            assert(before.take(c) =~= before);
            assert(before.skip(c) =~= Seq::<Slot>::empty());
            assert(slots(self.queue@) =~= without_file(before, file_id));
        }
    }

    /// Drops every block. Fetches in flight stay in flight.
    pub fn clear(&mut self)
        requires
            old(self).wf(),
        ensures
            final(self).wf(),
            final(self)@ == old(self)@.with_queue(Seq::empty(), 0),
    {
        self.queue.clear();
        self.hand = 0;
        self.used = 0;
        assert(self@.queue =~= Seq::<Slot>::empty());
    }

    fn in_flight_find(&self, key: BlockKey) -> (r: Option<usize>)
        ensures
            match r {
                Some(i) => i < self.in_flight@.len() && self.in_flight@[i as int] == key,
                None => !self.in_flight@.contains(key),
            },
    {
        let mut i: usize = 0;
        while i < self.in_flight.len()
            invariant
                i <= self.in_flight@.len(),
                forall|j: int| 0 <= j < i ==> self.in_flight@[j] != key,
            decreases self.in_flight@.len() - i,
        {
            let k: BlockKey = self.in_flight[i];
            if k.0 == key.0 && k.1 == key.1 {
                return Some(i);
            }
            i = i + 1;
        }
        None
    }

    /// Whether some reader is fetching the block.
    pub fn in_flight_contains(&self, key: BlockKey) -> (r: bool)
        requires
            self.wf(),
        ensures
            r == self@.in_flight.contains(key),
    {
        match self.in_flight_find(key) {
            Some(i) => {
                assert(self.in_flight@.contains(self.in_flight@[i as int]));
                true
            },
            None => false,
        }
    }

    /// Notes that a reader is fetching the block.
    pub fn in_flight_insert(&mut self, key: BlockKey)
        requires
            old(self).wf(),
        ensures
            final(self).wf(),
            final(self)@ == (ShardState {
                in_flight: old(self)@.in_flight.insert(key),
                ..old(self)@
            }),
    {
        let ghost before = self.in_flight@;
        match self.in_flight_find(key) {
            Some(i) => {
                assert(before.contains(before[i as int]));
                assert(before.to_set().insert(key) =~= before.to_set());
            },
            None => {
                self.in_flight.push(key);
                proof {
                    let after = self.in_flight@;
                    assert forall|x: BlockKey| after.to_set().contains(x) <==> before.to_set().insert(
                        key,
                    ).contains(x) by {
                        if before.contains(x) {
                            let j = choose|j: int| 0 <= j < before.len() && before[j] == x;
                            assert(after[j] == x);
                        }
                        if x == key {
                            assert(after[before.len() as int] == x);
                        }
                    }
                    assert(after.to_set() =~= before.to_set().insert(key));
                    assert forall|a: int, b: int|
                        0 <= a < after.len() && 0 <= b < after.len() && a != b implies after[a]
                        != after[b] by {
                        if a < before.len() && b < before.len() {
                            assert(before[a] != before[b]);
                        } else if a < before.len() {
                            assert(before.contains(before[a]));
                        } else if b < before.len() {
                            assert(before.contains(before[b]));
                        }
                    }
                }
            },
        }
    }

    /// Notes that the fetch of the block ended.
    pub fn in_flight_remove(&mut self, key: BlockKey)
        requires
            old(self).wf(),
        ensures
            final(self).wf(),
            final(self)@ == (ShardState {
                in_flight: old(self)@.in_flight.remove(key),
                ..old(self)@
            }),
    {
        let ghost before = self.in_flight@;
        match self.in_flight_find(key) {
            Some(i) => {
                let _gone: BlockKey = self.in_flight.remove(i);
                proof {
                    let after = self.in_flight@;
                    assert(after =~= before.remove(i as int));
                    assert forall|x: BlockKey| after.to_set().contains(x) <==> before.to_set().remove(
                        key,
                    ).contains(x) by {
                        if after.contains(x) {
                            let j = choose|j: int| 0 <= j < after.len() && after[j] == x;
                            let j2 = if j < i { j } else { j + 1 };
                            assert(before[j2] == x);
                        }
                        if before.contains(x) && x != key {
                            let j = choose|j: int| 0 <= j < before.len() && before[j] == x;
                            let j2 = if j < i { j } else { j - 1 };
                            assert(after[j2] == x);
                        }
                    }
                    assert(after.to_set() =~= before.to_set().remove(key));
                    assert forall|a: int, b: int|
                        0 <= a < after.len() && 0 <= b < after.len() && a != b implies after[a]
                        != after[b] by {
                        let a2 = if a < i { a } else { a + 1 };
                        let b2 = if b < i { b } else { b + 1 };
                        assert(after[a] == before[a2] && after[b] == before[b2]);
                    }
                }
            },
            None => {
                assert(before.to_set().remove(key) =~= before.to_set());
            },
        }
    }

    /// Number of fetches in flight.
    pub fn in_flight_len(&self) -> (n: usize)
        requires
            self.wf(),
        ensures
            n == self@.in_flight.len(),
    {
        proof {
            self.in_flight@.unique_seq_to_set();
        }
        self.in_flight.len()
    }
}

/// The two states are the same block, reference bit aside.
pub open spec fn same_block(a: BlockState, b: BlockState) -> bool {
    a.data == b.data && a.ever_visited == b.ever_visited && a.credit == b.credit
}

/// Each block of `q` is a block of `s`, reference bits aside.
pub open spec fn drawn_from(q: Seq<Slot>, s: Seq<Slot>) -> bool {
    forall|i: int| 0 <= i < q.len() ==> appears_in(#[trigger] q[i], s)
}

/// The block is in `s`, its reference bit aside.
pub open spec fn appears_in(x: Slot, s: Seq<Slot>) -> bool {
    exists|j: int|
        0 <= j < s.len() && (#[trigger] s[j]).key == x.key && same_block(s[j].block, x.block)
}

/// The hand evicts a referenced block only when every block is referenced.
pub proof fn referenced_blocks_survive(s: Seq<Slot>, hand: int)
    requires
        0 <= hand < s.len(),
    ensures
        0 <= victim(s, hand) < s.len(),
        s[victim(s, hand)].block.visited ==> forall|i: int|
            0 <= i < s.len() ==> (#[trigger] s[i]).block.visited,
{
    lemma_first_unvisited_bounds(s, hand, s.len() as int);
    lemma_first_unvisited_bounds(s, 0, hand);
}

/// Evicting to a budget brings the charge within it, and loses no block: each
/// block is afterwards either still resident or among the evicted ones, never
/// both, and nothing but its reference bit has changed.
pub proof fn eviction_loses_no_block(s: Seq<Slot>, hand: int, budget: int)
    requires
        distinct_keys(s),
        0 <= hand <= s.len(),
        0 <= budget,
    ensures
        ({
            let r = evicted_until(s, hand, budget);
            &&& total_charge(r.0) <= budget
            &&& distinct_keys(r.0)
            &&& drawn_from(r.0, s)
            &&& drawn_from(r.2, s)
            &&& forall|k: BlockKey| #[trigger] holds(s, k) ==> (holds(r.0, k) != holds(r.2, k))
            &&& r.0.len() + r.2.len() == s.len()
        }),
    decreases s.len(),
{
    let r = evicted_until(s, hand, budget);
    if s.len() == 0 || total_charge(s) <= budget {
        lemma_charge_nonnegative(s);
        assert forall|i: int| 0 <= i < s.len() implies appears_in(#[trigger] s[i], s) by {
            assert(s[i].key == s[i].key && same_block(s[i].block, s[i].block));
        }
        assert forall|k: BlockKey| #[trigger] holds(s, k) implies (holds(r.0, k) != holds(
            r.2,
            k,
        )) by {}
    } else {
        let h = wrapped(hand, s.len() as int);
        let v = victim(s, h);
        lemma_victim_in_queue(s, h);
        let w = spared(s, h);
        let t = w.remove(v);
        assert(distinct_keys(t)) by {
            assert forall|a: int, b: int| 0 <= a < b < t.len() implies (#[trigger] t[a]).key != (
            #[trigger] t[b]).key by {
                let a2 = if a < v { a } else { a + 1 };
                let b2 = if b < v { b } else { b + 1 };
                assert(t[a] == w[a2] && t[b] == w[b2]);
                assert(s[a2].key != s[b2].key);
            }
        }
        eviction_loses_no_block(t, v, budget);
        let rest = evicted_until(t, v, budget);
        assert(r.0 == rest.0);
        assert(r.2 =~= seq![w[v]] + rest.2);
        assert forall|x: Slot| #[trigger] appears_in(x, t) implies appears_in(x, s) by {
            let j = choose|j: int|
                0 <= j < t.len() && (#[trigger] t[j]).key == x.key && same_block(
                    t[j].block,
                    x.block,
                );
            let j2 = if j < v { j } else { j + 1 };
            assert(t[j] == w[j2]);
            assert(s[j2].key == x.key && same_block(s[j2].block, x.block));
        }
        assert forall|i: int| 0 <= i < r.0.len() implies appears_in(#[trigger] r.0[i], s) by {
            assert(appears_in(rest.0[i], t));
        }
        assert forall|i: int| 0 <= i < r.2.len() implies appears_in(#[trigger] r.2[i], s) by {
            if i == 0 {
                assert(s[v].key == w[v].key && same_block(s[v].block, w[v].block));
            } else {
                assert(r.2[i] == rest.2[i - 1]);
                assert(appears_in(rest.2[i - 1], t));
            }
        }
        assert forall|k: BlockKey| #[trigger] holds(s, k) implies (holds(r.0, k) != holds(
            r.2,
            k,
        )) by {
            let p = choose|i: int| 0 <= i < s.len() && (#[trigger] s[i]).key == k;
            if p == v {
                assert(r.2[0].key == k);
                if holds(r.0, k) {
                    let i = choose|i: int| 0 <= i < r.0.len() && (#[trigger] r.0[i]).key == k;
                    assert(appears_in(rest.0[i], t));
                    let j = choose|j: int|
                        0 <= j < t.len() && (#[trigger] t[j]).key == k && same_block(
                            t[j].block,
                            rest.0[i].block,
                        );
                    let j2 = if j < v { j } else { j + 1 };
                    assert(t[j] == w[j2] && s[j2].key == k);
                    assert(s[j2].key != s[v].key);
                }
            } else {
                let p2 = if p < v { p } else { p - 1 };
                assert(t[p2] == w[p]);
                assert(t[p2].key == k);
                assert(holds(t, k));
                assert(holds(r.2, k) <==> holds(rest.2, k)) by {
                    if holds(rest.2, k) {
                        let i = choose|i: int|
                            0 <= i < rest.2.len() && (#[trigger] rest.2[i]).key == k;
                        assert(r.2[i + 1].key == k);
                    }
                    if holds(r.2, k) {
                        let i = choose|i: int| 0 <= i < r.2.len() && (#[trigger] r.2[i]).key == k;
                        if i == 0 {
                            assert(s[v].key == k && s[p].key == k);
                        } else {
                            assert(rest.2[i - 1].key == k);
                        }
                    }
                }
            }
        }
    }
}

/// A block that was read ahead and then read once by a scan is evicted without
/// ever counting as read again, so it never enters the SSD tier.
pub proof fn single_pass_prefetch_is_not_revisited(data: Seq<u8>, credit: Credit, repeat: bool)
    ensures
        !BlockState::prefetched(data, credit).hit(repeat).ever_visited,
        BlockState::prefetched(data, credit).hit(repeat).visited,
        BlockState::prefetched(data, credit).hit(repeat).credit is None,
        BlockState::prefetched(data, credit).hit(repeat).hit(true).ever_visited,
{
}

/// A block gives up its credit to one demand read at most: after a first read
/// there is none left.
pub proof fn credit_is_taken_once(b: BlockState, first: bool, second: bool)
    ensures
        b.hit(first).credit is None,
        b.hit(first).hit(second).credit is None,
{
}

/// The hand evicts the first block without a reference bit from where it stands to the newest,
/// or else from the oldest to where it stands; where every block has one, the block that it
/// stands at. It clears the bits of the blocks that it passes over, and changes nothing else.
pub proof fn the_hand_evicts_the_first_unreferenced_block(s: Seq<Slot>, hand: int)
    requires
        0 <= hand < s.len(),
    ensures
        ({
            let v = victim(s, hand);
            &&& 0 <= v < s.len()
            &&& v >= hand && !s[v].block.visited ==> forall|i: int|
                hand <= i < v ==> (#[trigger] s[i]).block.visited
            &&& v < hand ==> !s[v].block.visited && (forall|i: int|
                hand <= i < s.len() ==> (#[trigger] s[i]).block.visited) && (forall|i: int|
                0 <= i < v ==> (#[trigger] s[i]).block.visited)
            &&& s[v].block.visited ==> v == hand
            &&& (exists|i: int| hand <= i < s.len() && !(#[trigger] s[i]).block.visited) ==> v
                >= hand
        }),
        spared(s, hand).len() == s.len(),
        forall|i: int|
            0 <= i < s.len() ==> (#[trigger] spared(s, hand)[i]).key == s[i].key && spared(
                s,
                hand,
            )[i].block.data == s[i].block.data && spared(s, hand)[i].block.ever_visited
                == s[i].block.ever_visited && spared(s, hand)[i].block.credit == s[i].block.credit,
        forall|i: int|
            0 <= i < s.len() && (if victim(s, hand) >= hand && !s[victim(s, hand)].block.visited {
                hand <= i < victim(s, hand)
            } else {
                hand <= i || i < victim(s, hand)
            }) ==> !(#[trigger] spared(s, hand)[i]).block.visited,
        forall|i: int|
            0 <= i < s.len() && !(if victim(s, hand) >= hand && !s[victim(s, hand)].block.visited {
                hand <= i < victim(s, hand)
            } else {
                hand <= i || i < victim(s, hand)
            }) ==> #[trigger] spared(s, hand)[i] == s[i],
{
    lemma_first_unvisited_bounds(s, hand, s.len() as int);
    lemma_first_unvisited_bounds(s, 0, hand);
}

/// Blocks are evicted only while the charge is over the budget: within it none is, and
/// without the last one that was, it would still be over.
pub proof fn no_more_is_evicted_than_has_to_be(s: Seq<Slot>, hand: int, budget: int)
    requires
        0 <= hand <= s.len(),
        0 <= budget,
    ensures
        ({
            let r = evicted_until(s, hand, budget);
            &&& total_charge(s) <= budget ==> r.0 == s && r.1 == hand && r.2.len() == 0
            &&& r.2.len() > 0 ==> total_charge(r.0) + r.2.last().block.charge() > budget
            &&& total_charge(r.0) + total_charge(r.2) == total_charge(s)
        }),
    decreases s.len(),
{
    let r = evicted_until(s, hand, budget);
    lemma_charge_nonnegative(s);
    if s.len() > 0 && total_charge(s) > budget {
        let h = wrapped(hand, s.len() as int);
        let v = victim(s, h);
        lemma_victim_in_queue(s, h);
        let w = spared(s, h);
        let t = w.remove(v);
        lemma_charge_same_data(s, w);
        lemma_charge_remove(w, v);
        no_more_is_evicted_than_has_to_be(t, v, budget);
        let rest = evicted_until(t, v, budget);
        assert(r.2 == seq![w[v]] + rest.2);
        lemma_charge_in_front(w[v], rest.2);
        if rest.2.len() > 0 {
            assert(r.2.last() == rest.2.last());
        } else {
            assert(r.2.last() == w[v]);
            lemma_charge_nonnegative(rest.2);
            lemma_nothing_evicted(t, v, budget);
        }
    }
}

proof fn lemma_nothing_evicted(s: Seq<Slot>, hand: int, budget: int)
    requires
        0 <= hand <= s.len(),
        evicted_until(s, hand, budget).2.len() == 0,
    ensures
        evicted_until(s, hand, budget).0 == s,
{
    if s.len() > 0 && total_charge(s) > budget {
        lemma_victim_in_queue(s, wrapped(hand, s.len() as int));
    }
}

proof fn lemma_charge_in_front(x: Slot, s: Seq<Slot>)
    ensures
        total_charge(seq![x] + s) == x.block.charge() + total_charge(s),
    decreases s.len(),
{
    let a = seq![x] + s;
    if s.len() == 0 {
        assert(a =~= seq![x]);
        assert(a.drop_last() =~= Seq::<Slot>::empty());
        reveal_with_fuel(total_charge, 2);
    } else {
        lemma_charge_in_front(x, s.drop_last());
        assert(a.drop_last() =~= seq![x] + s.drop_last());
        assert(a.last() == s.last());
    }
}

/// A block counts its bytes and the overhead of one block, and blocks count together what
/// each counts.
pub proof fn blocks_are_charged_for_their_bytes(s: Seq<Slot>, x: Slot)
    ensures
        x.block.charge() == x.block.data.len() + BLOCK_OVERHEAD,
        total_charge(s.push(x)) == total_charge(s) + x.block.data.len() + BLOCK_OVERHEAD,
        total_charge(Seq::<Slot>::empty()) == 0,
{
    assert(s.push(x).drop_last() =~= s);
}

/// A demand read leaves a block's bytes as they are, marks it as read, and counts as a repeat
/// where the block was resident before and holds no credit; the hand takes the mark away and
/// nothing else.
pub proof fn a_read_marks_a_block(b: BlockState, repeat: bool)
    ensures
        b.hit(repeat).data == b.data,
        b.hit(repeat).visited,
        b.hit(repeat).credit is None,
        b.ever_visited ==> b.hit(repeat).ever_visited,
        !b.ever_visited ==> (b.hit(repeat).ever_visited <==> repeat && b.credit is None),
        !b.spared().visited,
        b.spared().data == b.data && b.spared().ever_visited == b.ever_visited
            && b.spared().credit == b.credit,
{
}

/// A new block has the bytes that it was made of and counts as unread, unless it comes from
/// the SSD tier; only one that was read ahead holds credit.
pub proof fn a_new_block_has_its_bytes(data: Seq<u8>, credit: Credit)
    ensures
        BlockState::fresh(data).data == data,
        !BlockState::fresh(data).visited && !BlockState::fresh(data).ever_visited,
        BlockState::fresh(data).credit is None,
        BlockState::prefetched(data, credit).data == data,
        !BlockState::prefetched(data, credit).visited,
        !BlockState::prefetched(data, credit).ever_visited,
        BlockState::prefetched(data, credit).credit == Some(credit),
        BlockState::promoted(data).data == data,
        BlockState::promoted(data).visited && BlockState::promoted(data).ever_visited,
        BlockState::promoted(data).credit is None,
{
}

/// Leaving out a file's blocks keeps those of other files, in their order.
pub proof fn the_blocks_of_other_files_stay_in_order(s: Seq<Slot>, file_id: u64)
    ensures
        without_file(s, file_id) == s.filter(|x: Slot| x.key.0 != file_id),
    decreases s.len(),
{
    reveal(Seq::filter);
    if s.len() > 0 {
        the_blocks_of_other_files_stay_in_order(s.drop_last(), file_id);
    }
}

} // verus!
