//! The SSD tier's bookkeeping: one append-only file per shard, laid out as
//! fixed-size regions that blocks never span, an index of what is where, and a
//! queue of blocks to write. The index lives in memory only. The caller reads
//! and writes the file, and keeps the regions' read scores, which decay over
//! time; here a score is a number that orders regions from cold to hot.
//! A file can be forgotten, and a shard whose file failed is given up for good.

use std::collections::HashMap;

use bytes::Bytes;
use vstd::prelude::*;

use crate::cache::bytes_ops::{bytes_clone, bytes_len, content};
use crate::cache::config::BlockCacheConfig;
use crate::cache::metrics::Metrics;
use crate::cache::sieve::BlockKey;
use crate::text::{concat3, decimal, ends_with, is_decimal, starts_with};

verus! {

broadcast use vstd::std_specs::hash::group_hash_axioms;

/// A shard's queue is written out once it holds this many bytes: 8 MiB.
pub const FLUSH_THRESHOLD_BYTES: u64 = 8388608;

/// The CRC-32C checksum of some bytes.
pub uninterp spec fn crc32c_of(data: Seq<u8>) -> u32;

/// `crc32c::crc32c`: the checksum of the bytes, which is the same for the same
/// bytes on every machine.
#[verifier::external_body]
fn crc32c_of_bytes(data: &Bytes) -> (crc: u32)
    ensures
        crc == crc32c_of(content(*data)),
{
    crc32c::crc32c(data)
}

/// The checksum under which a block is written.
pub fn block_checksum(data: &Bytes) -> (crc: u32)
    ensures
        crc == crc32c_of(content(*data)),
{
    crc32c_of_bytes(data)
}

/// Where a block is in a shard's file.
#[derive(Clone, Copy, Debug, PartialEq, Eq, Structural)]
pub struct SsdEntry {
    pub region: usize,
    pub offset: u64,
    pub len: u32,
    pub crc: u32,
}

/// A region of a shard's file.
struct Region {
    write_offset: u64,
    score: u64,
    keys: Vec<BlockKey>,
}

/// A region as a mathematical value.
pub struct RegionState {
    /// The next free byte of the region.
    pub write_offset: int,
    /// How hot the region is.
    pub score: u64,
    /// The blocks put into the region.
    pub keys: Seq<BlockKey>,
}

impl RegionState {
    /// A region with nothing in it, as cold as can be.
    pub open spec fn empty() -> RegionState {
        RegionState { write_offset: 0, score: 0, keys: Seq::empty() }
    }
}

/// The state of an SSD shard.
pub struct SsdState {
    pub region_size: u64,
    pub max_regions: int,
    pub regions: Seq<RegionState>,
    pub index: Map<BlockKey, SsdEntry>,
    /// The region being appended to.
    pub active: Option<int>,
    /// Blocks admitted and not yet written.
    pub pending: Seq<(BlockKey, Seq<u8>)>,
    /// A flush is under way.
    pub flushing: bool,
    /// The file failed: nothing is written or served any more.
    pub degraded: bool,
}

/// No block is pending twice.
pub open spec fn distinct_pending(pending: Seq<(BlockKey, Seq<u8>)>) -> bool {
    forall|i: int, j: int|
        0 <= i < j < pending.len() ==> (#[trigger] pending[i]).0 != (#[trigger] pending[j]).0
}

/// The pending blocks but for those of a file.
pub open spec fn pending_without(pending: Seq<(BlockKey, Seq<u8>)>, file_id: u64) -> Seq<
    (BlockKey, Seq<u8>),
>
    decreases pending.len(),
{
    if pending.len() == 0 {
        Seq::empty()
    } else if pending.last().0.0 == file_id {
        pending_without(pending.drop_last(), file_id)
    } else {
        pending_without(pending.drop_last(), file_id).push(pending.last())
    }
}

/// The keys but for those of a file.
pub open spec fn keys_without(keys: Seq<BlockKey>, file_id: u64) -> Seq<BlockKey>
    decreases keys.len(),
{
    if keys.len() == 0 {
        Seq::empty()
    } else if keys.last().0 == file_id {
        keys_without(keys.drop_last(), file_id)
    } else {
        keys_without(keys.drop_last(), file_id).push(keys.last())
    }
}

/// The bytes of the pending blocks, all together.
pub open spec fn pending_len(pending: Seq<(BlockKey, Seq<u8>)>) -> int
    decreases pending.len(),
{
    if pending.len() == 0 {
        0
    } else {
        pending_len(pending.drop_last()) + pending.last().1.len()
    }
}

/// The block is among those pending.
pub open spec fn is_pending(pending: Seq<(BlockKey, Seq<u8>)>, key: BlockKey) -> bool {
    exists|i: int| 0 <= i < pending.len() && (#[trigger] pending[i]).0 == key
}

/// The coldest of the first `n` regions other than the active one; the first of
/// several that are equally cold.
pub open spec fn coldest(regions: Seq<RegionState>, active: Option<int>, n: int) -> Option<int>
    decreases n,
{
    if n <= 0 {
        None
    } else {
        let before = coldest(regions, active, n - 1);
        if active == Some(n - 1) {
            before
        } else {
            match before {
                None => Some(n - 1),
                Some(i) => if regions[n - 1].score < regions[i].score {
                    Some(n - 1)
                } else {
                    before
                },
            }
        }
    }
}

impl SsdState {
    /// The active region has room for `len` bytes.
    pub open spec fn has_room(self, len: int) -> bool {
        self.active is Some && self.regions[self.active->0].write_offset + len <= self.region_size
    }

    /// The region to reclaim: the coldest that is not active, else the first.
    pub open spec fn victim(self) -> int {
        match coldest(self.regions, self.active, self.regions.len() as int) {
            Some(i) => i,
            None => 0,
        }
    }

    /// The shard with its regions' scores as given.
    pub open spec fn rescored(self, scores: Seq<u64>) -> SsdState {
        SsdState {
            regions: Seq::new(
                self.regions.len(),
                |i: int| RegionState { score: scores[i], ..self.regions[i] },
            ),
            ..self
        }
    }

    /// The shard with a region emptied: nothing in it is served any more.
    pub open spec fn erased(self, r: int) -> SsdState {
        SsdState {
            index: self.index.remove_keys(self.regions[r].keys.to_set()),
            regions: self.regions.update(r, RegionState::empty()),
            ..self
        }
    }

    /// The shard after a fresh region was made active, with the scores decayed to
    /// `scores`: a new region while there is room for one, else the victim.
    pub open spec fn with_fresh_region(self, scores: Seq<u64>) -> SsdState {
        let s = self.rescored(scores);
        if s.regions.len() < s.max_regions {
            SsdState {
                regions: s.regions.push(RegionState::empty()),
                active: Some(s.regions.len() as int),
                ..s
            }
        } else {
            SsdState { active: Some(s.victim()), ..s.erased(s.victim()) }
        }
    }

    /// The shard after room for `len` bytes was made.
    pub open spec fn ensured(self, len: int, scores: Seq<u64>) -> SsdState {
        if self.has_room(len) {
            self
        } else {
            self.with_fresh_region(scores)
        }
    }

    /// Making room for `len` bytes reclaims a region.
    pub open spec fn reclaims(self, len: int) -> bool {
        !self.has_room(len) && self.regions.len() >= self.max_regions
    }

    /// The shard after `len` bytes of the active region were set aside for a
    /// block.
    pub open spec fn set_aside(self, key: BlockKey, len: int) -> SsdState {
        let r = self.active->0;
        SsdState {
            regions: self.regions.update(
                r,
                RegionState {
                    write_offset: self.regions[r].write_offset + len,
                    score: self.regions[r].score,
                    keys: self.regions[r].keys.push(key),
                },
            ),
            ..self
        }
    }

    /// Room in a region is set aside for a block.
    pub open spec fn holds_room(self, key: BlockKey, region: int) -> bool {
        0 <= region < self.regions.len() && self.regions[region].keys.contains(key)
    }

    /// Room in the entry's region is set aside for the block, and the entry lies in what
    /// of the region is set aside.
    pub open spec fn in_room(self, key: BlockKey, entry: SsdEntry) -> bool {
        self.holds_room(key, entry.region as int) && entry.offset + entry.len
            <= self.regions[entry.region as int].write_offset
    }

    /// The shard after a block was written to the room that was set aside for it. A
    /// block whose room was taken back meanwhile is not indexed.
    pub open spec fn recorded(self, key: BlockKey, entry: SsdEntry) -> SsdState {
        if self.in_room(key, entry) {
            self.indexed(key, entry)
        } else {
            self
        }
    }

    /// The shard after a file was forgotten: no block of it is indexed or pending, and
    /// no room is set aside for one.
    pub open spec fn forgotten(self, file_id: u64) -> SsdState {
        SsdState {
            regions: Seq::new(
                self.regions.len(),
                |i: int|
                    RegionState {
                        keys: keys_without(self.regions[i].keys, file_id),
                        ..self.regions[i]
                    },
            ),
            index: self.index.remove_keys(Set::new(|k: BlockKey| k.0 == file_id)),
            pending: pending_without(self.pending, file_id),
            ..self
        }
    }

    /// The shard with nothing in it.
    pub open spec fn emptied(self) -> SsdState {
        SsdState {
            regions: Seq::empty(),
            index: Map::empty(),
            active: None,
            pending: Seq::empty(),
            ..self
        }
    }

    /// Regions are filled at most to the end, the active one exists, the shard's
    /// file fits a 64-bit offset, every pending block fits a region and is pending
    /// once, what is indexed lies in room set aside for it, and a shard whose file failed
    /// is empty.
    pub open spec fn sound(self) -> bool {
        &&& self.region_size > 0
        &&& 0 < self.max_regions
        &&& self.max_regions * self.region_size <= u64::MAX
        &&& self.regions.len() <= self.max_regions
        &&& forall|i: int|
            0 <= i < self.regions.len() ==> 0 <= (#[trigger] self.regions[i]).write_offset
                <= self.region_size
        &&& self.active is Some ==> 0 <= self.active->0 < self.regions.len()
        &&& forall|i: int|
            0 <= i < self.pending.len() ==> (#[trigger] self.pending[i]).1.len()
                <= self.region_size
        &&& distinct_pending(self.pending)
        &&& forall|k: BlockKey| #[trigger]
            self.index.contains_key(k) ==> self.in_room(k, self.index[k])
        &&& self.degraded ==> self.regions.len() == 0 && self.pending.len() == 0
            && self.active is None
    }

    /// A block may be admitted: the file has not failed, and the block fits a region
    /// and is neither indexed nor pending.
    pub open spec fn admits(self, key: BlockKey, len: int) -> bool {
        !self.degraded && len <= self.region_size && !self.index.contains_key(key) && !is_pending(
            self.pending,
            key,
        )
    }

    /// Where a block of the shard's file starts.
    pub open spec fn file_offset(self, region: int, offset: int) -> int {
        region * self.region_size + offset
    }
}

/// A shard of the SSD tier.
pub struct SsdShard {
    region_size: u64,
    max_regions: usize,
    regions: Vec<Region>,
    index: HashMap<u128, SsdEntry>,
    active: Option<usize>,
    pending: Vec<(BlockKey, Bytes)>,
    pending_bytes: u64,
    flushing: bool,
    degraded: bool,
}

/// A key as one number.
spec fn code(key: BlockKey) -> u128 {
    (key.0 * 0x1_0000_0000 + key.1) as u128
}

proof fn lemma_code_injective(a: BlockKey, b: BlockKey)
    ensures
        code(a) == code(b) ==> a == b,
{
}

fn encode(key: BlockKey) -> (c: u128)
    ensures
        c == code(key),
{
    key.0 as u128 * 0x1_0000_0000 + key.1 as u128
}

spec fn region_view(r: Region) -> RegionState {
    RegionState { write_offset: r.write_offset as int, score: r.score, keys: r.keys@ }
}

spec fn region_views(v: Seq<Region>) -> Seq<RegionState> {
    Seq::new(v.len(), |i: int| region_view(v[i]))
}

/// The pending blocks as mathematical values.
pub open spec fn pending_views(v: Seq<(BlockKey, Bytes)>) -> Seq<(BlockKey, Seq<u8>)> {
    Seq::new(v.len(), |i: int| (v[i].0, content(v[i].1)))
}

spec fn index_view(m: Map<u128, SsdEntry>) -> Map<BlockKey, SsdEntry> {
    Map::new(|k: BlockKey| m.contains_key(code(k)), |k: BlockKey| m[code(k)])
}

proof fn lemma_index_insert(m: Map<u128, SsdEntry>, key: BlockKey, e: SsdEntry)
    ensures
        index_view(m.insert(code(key), e)) == index_view(m).insert(key, e),
{
    assert forall|k: BlockKey| index_view(m.insert(code(key), e)).contains_key(k) == index_view(
        m,
    ).insert(key, e).contains_key(k) by {
        lemma_code_injective(k, key);
    }
    assert forall|k: BlockKey| index_view(m.insert(code(key), e)).contains_key(k) implies index_view(
        m.insert(code(key), e),
    )[k] == index_view(m).insert(key, e)[k] by {
        lemma_code_injective(k, key);
    }
    assert(index_view(m.insert(code(key), e)) =~= index_view(m).insert(key, e));
}

proof fn lemma_index_remove(m: Map<u128, SsdEntry>, key: BlockKey)
    ensures
        index_view(m.remove(code(key))) == index_view(m).remove(key),
{
    assert forall|k: BlockKey| index_view(m.remove(code(key))).contains_key(k) == index_view(
        m,
    ).remove(key).contains_key(k) by {
        lemma_code_injective(k, key);
    }
    assert(index_view(m.remove(code(key))) =~= index_view(m).remove(key));
}

impl View for SsdShard {
    type V = SsdState;

    closed spec fn view(&self) -> SsdState {
        SsdState {
            region_size: self.region_size,
            max_regions: self.max_regions as int,
            regions: region_views(self.regions@),
            index: index_view(self.index@),
            active: match self.active {
                Some(r) => Some(r as int),
                None => None,
            },
            pending: pending_views(self.pending@),
            flushing: self.flushing,
            degraded: self.degraded,
        }
    }
}

impl SsdShard {
    /// The state is sound, and the pending bytes are counted.
    pub closed spec fn wf(&self) -> bool {
        &&& self@.sound()
        &&& self.pending_bytes == pending_len(self@.pending)
    }

    /// What the invariant says of the state.
    pub proof fn wf_sound(&self)
        requires
            self.wf(),
        ensures
            self@.sound(),
            pending_len(self@.pending) <= u64::MAX,
    {
    }

    /// An empty shard.
    pub fn new(region_size: u64, max_regions: usize) -> (s: SsdShard)
        requires
            region_size > 0,
            max_regions > 0,
            max_regions * region_size <= u64::MAX,
        ensures
            s.wf(),
            s@ == (SsdState {
                region_size,
                max_regions: max_regions as int,
                regions: Seq::empty(),
                index: Map::empty(),
                active: None,
                pending: Seq::empty(),
                flushing: false,
                degraded: false,
            }),
    {
        let s = SsdShard {
            region_size,
            max_regions,
            regions: Vec::new(),
            index: HashMap::new(),
            active: None,
            pending: Vec::new(),
            pending_bytes: 0,
            flushing: false,
            degraded: false,
        };
        assert(s@.regions =~= Seq::empty());
        assert(s@.index =~= Map::empty());
        assert(s@.pending =~= Seq::empty());
        s
    }

    /// Whether a block of `len` bytes fits what is left of the active region. If
    /// not, the caller decays the regions' scores before it reserves room.
    pub fn has_room(&self, len: u64) -> (r: bool)
        requires
            self.wf(),
        ensures
            r == self@.has_room(len as int),
    {
        match self.active {
            Some(r) => {
                assert(self@.regions[r as int] == region_view(self.regions@[r as int]));
                self.regions[r].write_offset as u128 + len as u128 <= self.region_size as u128
            },
            None => false,
        }
    }

    /// The regions' scores.
    pub fn scores(&self) -> (v: Vec<u64>)
        ensures
            v@.len() == self@.regions.len(),
            forall|i: int| 0 <= i < v@.len() ==> #[trigger] v@[i] == self@.regions[i].score,
    {
        let mut v: Vec<u64> = Vec::new();
        let mut i: usize = 0;
        while i < self.regions.len()
            invariant
                i <= self.regions@.len(),
                v@.len() == i,
                forall|j: int| 0 <= j < i ==> #[trigger] v@[j] == self@.regions[j].score,
            decreases self.regions@.len() - i,
        {
            assert(self@.regions[i as int] == region_view(self.regions@[i as int]));
            v.push(self.regions[i].score);
            i = i + 1;
        }
        v
    }

    /// The region to reclaim.
    fn pick_victim(&self) -> (v: usize)
        ensures
            v == self@.victim(),
            self.regions@.len() > 0 ==> v < self.regions@.len(),
    {
        let ghost rs = region_views(self.regions@);
        let mut best: Option<usize> = None;
        let mut i: usize = 0;
        while i < self.regions.len()
            invariant
                i <= self.regions@.len(),
                rs == region_views(self.regions@),
                match best {
                    Some(b) => coldest(rs, self@.active, i as int) == Some(b as int) && b < i,
                    None => coldest(rs, self@.active, i as int) is None,
                },
            decreases self.regions@.len() - i,
        {
            let is_active: bool = match self.active {
                Some(r) => r == i,
                None => false,
            };
            if !is_active {
                match best {
                    None => {
                        best = Some(i);
                    },
                    Some(b) => {
                        assert(rs[i as int].score == self.regions@[i as int].score);
                        assert(rs[b as int].score == self.regions@[b as int].score);
                        if self.regions[i].score < self.regions[b].score {
                            best = Some(i);
                        }
                    },
                }
            }
            i = i + 1;
        }
        match best {
            Some(b) => b,
            None => 0,
        }
    }

    /// Empties a region and drops what the index holds of it.
    fn erase_region(&mut self, r: usize)
        requires
            r < old(self).regions@.len(),
        ensures
            final(self)@ == old(self)@.erased(r as int),
            final(self).regions@.len() == old(self).regions@.len(),
            final(self).pending_bytes == old(self).pending_bytes,
            final(self).max_regions == old(self).max_regions,
            final(self).active == old(self).active,
    {
        let ghost before = self@;
        let ghost keys0 = self.regions@[r as int].keys@;
        let mut keys: Vec<BlockKey> = Vec::new();
        std::mem::swap(&mut keys, &mut self.regions[r].keys);
        let mut i: usize = 0;
        proof {
            assert(keys@ == keys0);
            assert(before.index.remove_keys(keys0.take(0).to_set()) =~= before.index);
        }
        while i < keys.len()
            invariant
                i <= keys@.len(),
                keys@ == keys0,
                r < self.regions@.len(),
                before == old(self)@,
                index_view(self.index@) == before.index.remove_keys(
                    keys0.take(i as int).to_set(),
                ),
                self.region_size == old(self).region_size,
                self.max_regions == old(self).max_regions,
                self.active == old(self).active,
                self.pending == old(self).pending,
                self.pending_bytes == old(self).pending_bytes,
                self.flushing == old(self).flushing,
                self.degraded == old(self).degraded,
                self.regions@.len() == old(self).regions@.len(),
                forall|j: int|
                    0 <= j < self.regions@.len() && j != r ==> #[trigger] self.regions@[j] == old(
                        self,
                    ).regions@[j],
                keys0 == old(self).regions@[r as int].keys@,
            decreases keys@.len() - i,
        {
            proof {
                lemma_index_remove(self.index@, keys@[i as int]);
                let p = keys0.take(i as int);
                let w = keys0.take(i + 1);
                assert(w =~= p.push(keys0[i as int]));
                assert forall|k: BlockKey| w.to_set().contains(k) <==> (p.to_set().contains(k) || k
                    == keys0[i as int]) by {
                    if p.contains(k) {
                        let j = choose|j: int| 0 <= j < p.len() && p[j] == k;
                        assert(w[j] == k);
                    }
                    if k == keys0[i as int] {
                        assert(w[i as int] == k);
                    }
                    if w.contains(k) {
                        let j = choose|j: int| 0 <= j < w.len() && w[j] == k;
                        if j < i {
                            assert(p[j] == k);
                        }
                    }
                }
                assert(before.index.remove_keys(p.to_set()).remove(keys0[i as int])
                    =~= before.index.remove_keys(w.to_set()));
            }
            let c: u128 = encode(keys[i]);
            self.index.remove(&c);
            i = i + 1;
        }
        assert(keys0.take(keys0.len() as int) =~= keys0);
        self.regions.set(r, Region { write_offset: 0, score: 0, keys: Vec::new() });
        proof {
            assert(before.regions[r as int].keys == keys0);
            assert(self@.regions =~= before.erased(r as int).regions) by {
                assert forall|j: int| 0 <= j < self@.regions.len() implies self@.regions[j]
                    == before.erased(r as int).regions[j] by {
                    if j != r {
                        assert(self.regions@[j] == old(self).regions@[j]);
                    } else {
                        assert(self@.regions[j].keys =~= Seq::<BlockKey>::empty());
                    }
                }
            }
        }
    }

    /// Makes sure that the active region has room for `len` bytes, taking a new
    /// region or reclaiming the coldest one. `decayed` holds the regions' scores
    /// after one step of decay; it is used only when a fresh region is needed.
    fn ensure_region(&mut self, len: u64, decayed: &Vec<u64>, metrics: &mut Metrics) -> (r: usize)
        requires
            old(self).wf(),
            !old(self)@.degraded,
            len <= old(self)@.region_size,
            decayed@.len() == old(self)@.regions.len(),
        ensures
            final(self).wf(),
            final(self)@ == old(self)@.ensured(len as int, decayed@),
            final(self)@.active == Some(r as int),
            final(self)@.has_room(len as int),
            *final(metrics) == (if old(self)@.reclaims(len as int) {
                Metrics {
                    ssd_region_evictions: old(metrics).ssd_region_evictions.wrapping_add(1),
                    ..*old(metrics)
                }
            } else {
                *old(metrics)
            }),
    {
        if self.has_room(len) {
            return self.active.unwrap();
        }
        let ghost before = self@;
        let mut i: usize = 0;
        while i < self.regions.len()
            invariant
                i <= self.regions@.len(),
                before == old(self)@,
                self.regions@.len() == before.regions.len() == decayed@.len(),
                forall|j: int|
                    0 <= j < self.regions@.len() ==> region_view(#[trigger] self.regions@[j]) == (
                    RegionState {
                        score: if j < i {
                            decayed@[j]
                        } else {
                            before.regions[j].score
                        },
                        ..before.regions[j]
                    }),
                self.region_size == old(self).region_size,
                self.max_regions == old(self).max_regions,
                self.active == old(self).active,
                self.pending == old(self).pending,
                self.pending_bytes == old(self).pending_bytes,
                self.flushing == old(self).flushing,
                self.degraded == old(self).degraded,
                self.index == old(self).index,
            decreases self.regions@.len() - i,
        {
            assert(region_view(self.regions@[i as int]).write_offset
                == before.regions[i as int].write_offset);
            self.regions[i].score = decayed[i];
            i = i + 1;
        }
        let ghost s = before.rescored(decayed@);
        proof {
            assert(self@.regions =~= s.regions) by {
                assert forall|j: int| 0 <= j < self@.regions.len() implies self@.regions[j]
                    == s.regions[j] by {
                    assert(region_view(self.regions@[j]) == self@.regions[j]);
                }
            }
            assert(self@ == s);
        }
        if self.regions.len() < self.max_regions {
            let r: usize = self.regions.len();
            self.regions.push(Region { write_offset: 0, score: 0, keys: Vec::new() });
            self.active = Some(r);
            proof {
                assert(self@.regions =~= s.regions.push(RegionState::empty())) by {
                    assert(self@.regions[r as int].keys =~= Seq::<BlockKey>::empty());
                    assert forall|j: int| 0 <= j < r implies self@.regions[j] == s.regions[j] by {}
                }
                assert(self@ == before.with_fresh_region(decayed@));
            }
            return r;
        }
        let v: usize = self.pick_victim();
        self.erase_region(v);
        metrics.record_ssd_region_eviction();
        self.active = Some(v);
        assert(self@ == before.with_fresh_region(decayed@));
        v
    }

    /// Sets room for a block aside and says where: the region and the offset in
    /// it. The block lies within the region.
    pub fn reserve(
        &mut self,
        key: BlockKey,
        len: u64,
        decayed: &Vec<u64>,
        metrics: &mut Metrics,
    ) -> (place: (usize, u64))
        requires
            old(self).wf(),
            !old(self)@.degraded,
            len <= old(self)@.region_size,
            decayed@.len() == old(self)@.regions.len(),
        ensures
            final(self).wf(),
            ({
                let s = old(self)@.ensured(len as int, decayed@);
                &&& final(self)@ == s.set_aside(key, len as int)
                &&& s.active == Some(place.0 as int)
                &&& place.1 == s.regions[place.0 as int].write_offset
                &&& place.1 + len <= s.region_size
            }),
            *final(metrics) == (if old(self)@.reclaims(len as int) {
                Metrics {
                    ssd_region_evictions: old(metrics).ssd_region_evictions.wrapping_add(1),
                    ..*old(metrics)
                }
            } else {
                *old(metrics)
            }),
    {
        let r: usize = self.ensure_region(len, decayed, metrics);
        let ghost s = self@;
        let ghost before = self.regions@;
        assert(s.regions[r as int] == region_view(self.regions@[r as int]));
        let offset: u64 = self.regions[r].write_offset;
        self.regions[r].write_offset = offset + len;
        self.regions[r].keys.push(key);
        proof {
            let t = s.set_aside(key, len as int);
            assert(self@.regions =~= t.regions) by {
                assert forall|j: int| 0 <= j < self@.regions.len() implies self@.regions[j]
                    == t.regions[j] by {
                    if j != r {
                        assert(self.regions@[j] == before[j]);
                    }
                }
            }
            assert(self@ == t);
            lemma_set_aside(s, key, len as int);
        }
        (r, offset)
    }

    /// Where a block starts in the shard's file.
    pub fn file_offset(&self, region: usize, offset: u64) -> (pos: u64)
        requires
            self.wf(),
            region < self@.max_regions,
            offset <= self@.region_size,
        ensures
            pos == self@.file_offset(region as int, offset as int),
    {
        proof {
            let m = self.max_regions as int;
            let z = self.region_size as int;
            let q = region as int;
            assert(q * z + z <= m * z) by (nonlinear_arith)
                requires
                    q + 1 <= m,
                    z >= 0,
            ;
            assert(0 <= q * z) by (nonlinear_arith)
                requires
                    0 <= q,
                    z >= 0,
            ;
        }
        region as u64 * self.region_size + offset
    }

    fn has_pending(&self, key: BlockKey) -> (r: bool)
        ensures
            r == is_pending(self@.pending, key),
    {
        let mut i: usize = 0;
        while i < self.pending.len()
            invariant
                i <= self.pending@.len(),
                forall|j: int| 0 <= j < i ==> (#[trigger] self@.pending[j]).0 != key,
            decreases self.pending@.len() - i,
        {
            let k: BlockKey = self.pending[i].0;
            assert(self@.pending[i as int].0 == k);
            if k.0 == key.0 && k.1 == key.1 {
                return true;
            }
            i = i + 1;
        }
        false
    }

    /// The bytes of the blocks queued for writing, all together.
    pub fn pending_bytes(&self) -> (n: u64)
        requires
            self.wf(),
        ensures
            n == pending_len(self@.pending),
    {
        self.pending_bytes
    }

    /// Queues a block for writing, unless it is too large for a region or is
    /// there already. Says whether a flush is due.
    pub fn admit_block(&mut self, key: BlockKey, data: Bytes) -> (flush: bool)
        requires
            old(self).wf(),
            pending_len(old(self)@.pending) + content(data).len() <= u64::MAX,
        ensures
            final(self).wf(),
            ({
                let s = old(self)@;
                let queue = s.pending.push((key, content(data)));
                if s.admits(key, content(data).len() as int) {
                    &&& flush == (!s.flushing && pending_len(queue) >= FLUSH_THRESHOLD_BYTES)
                    &&& final(self)@ == (SsdState {
                        pending: queue,
                        flushing: s.flushing || flush,
                        ..s
                    })
                } else {
                    !flush && final(self)@ == s
                }
            }),
    {
        let len: u64 = bytes_len(&data) as u64;
        if self.degraded || len > self.region_size {
            return false;
        }
        let c: u128 = encode(key);
        if self.index.contains_key(&c) || self.has_pending(key) {
            return false;
        }
        let ghost before = self@;
        let ghost item = (key, content(data));
        self.pending_bytes = self.pending_bytes + len;
        self.pending.push((key, data));
        proof {
            assert(self@.pending =~= before.pending.push(item));
            assert(self@.pending.drop_last() =~= before.pending);
            assert(distinct_pending(self@.pending)) by {
                assert forall|i: int, j: int| 0 <= i < j < self@.pending.len() implies (
                #[trigger] self@.pending[i]).0 != (#[trigger] self@.pending[j]).0 by {
                    assert(self@.pending[i] == before.pending[i]);
                    if j < before.pending.len() {
                        assert(self@.pending[j] == before.pending[j]);
                    }
                }
            }
            assert forall|i: int| 0 <= i < self@.pending.len() implies (
            #[trigger] self@.pending[i]).1.len() <= self@.region_size by {
                if i < before.pending.len() {
                    assert(self@.pending[i] == before.pending[i]);
                }
            }
            assert forall|k: BlockKey| #[trigger] self@.index.contains_key(
                k,
            ) implies self@.in_room(k, self@.index[k]) by {
                assert(before.index.contains_key(k));
                assert(before.in_room(k, before.index[k]));
            }
        }
        let flush: bool = !self.flushing && self.pending_bytes >= FLUSH_THRESHOLD_BYTES;
        if flush {
            self.flushing = true;
        }
        flush
    }

    /// Takes the queued blocks for writing. With nothing queued the flush is
    /// over.
    pub fn take_batch(&mut self) -> (batch: Option<Vec<(BlockKey, Bytes)>>)
        requires
            old(self).wf(),
        ensures
            final(self).wf(),
            match batch {
                Some(b) => {
                    &&& old(self)@.pending.len() > 0
                    &&& pending_views(b@) == old(self)@.pending
                    &&& final(self)@ == (SsdState { pending: Seq::empty(), ..old(self)@ })
                },
                None => old(self)@.pending.len() == 0 && final(self)@ == (SsdState {
                    flushing: false,
                    ..old(self)@
                }),
            },
    {
        if self.pending.len() == 0 {
            self.flushing = false;
            return None;
        }
        let mut batch: Vec<(BlockKey, Bytes)> = Vec::new();
        std::mem::swap(&mut batch, &mut self.pending);
        self.pending_bytes = 0;
        assert(self@.pending =~= Seq::empty());
        Some(batch)
    }

    /// Indexes a block that was written, unless its room was taken back meanwhile.
    pub fn record_written(&mut self, key: BlockKey, entry: SsdEntry, metrics: &mut Metrics)
        requires
            old(self).wf(),
        ensures
            final(self).wf(),
            final(self)@ == old(self)@.recorded(key, entry),
            *final(metrics) == (Metrics {
                ssd_writes: old(metrics).ssd_writes.wrapping_add(1),
                ..*old(metrics)
            }),
    {
        if self.has_room_for(key, &entry) {
            proof {
                lemma_index_insert(self.index@, key, entry);
            }
            let c: u128 = encode(key);
            self.index.insert(c, entry);
        }
        metrics.record_ssd_write();
    }

    fn has_room_for(&self, key: BlockKey, entry: &SsdEntry) -> (r: bool)
        ensures
            r == self@.in_room(key, *entry),
    {
        let region: usize = entry.region;
        if region >= self.regions.len() {
            return false;
        }
        let end: u64 = self.regions[region].write_offset;
        assert(self@.regions[region as int].write_offset == end);
        if entry.offset > end || entry.len as u64 > end - entry.offset {
            return false;
        }
        let keys: &Vec<BlockKey> = &self.regions[region].keys;
        assert(self@.regions[region as int].keys == keys@);
        let mut i: usize = 0;
        while i < keys.len()
            invariant
                i <= keys@.len(),
                region == entry.region,
                region < self.regions@.len(),
                entry.offset + entry.len <= self@.regions[region as int].write_offset,
                keys@ == self@.regions[region as int].keys,
                forall|j: int| 0 <= j < i ==> #[trigger] keys@[j] != key,
            decreases keys@.len() - i,
        {
            let k: BlockKey = keys[i];
            if k.0 == key.0 && k.1 == key.1 {
                assert(keys@[i as int] == key);
                assert(keys@.contains(key));
                return true;
            }
            i = i + 1;
        }
        false
    }

    /// Ends a round of writing. Says whether more blocks were queued meanwhile,
    /// so that another round is due.
    pub fn end_batch(&mut self) -> (more: bool)
        requires
            old(self).wf(),
        ensures
            final(self).wf(),
            more == (old(self)@.pending.len() > 0),
            final(self)@ == (SsdState {
                flushing: old(self)@.flushing && more,
                ..old(self)@
            }),
    {
        if self.pending.len() == 0 {
            self.flushing = false;
            false
        } else {
            true
        }
    }

    /// Where a block is, if it is indexed: within a region.
    pub fn lookup(&self, key: BlockKey) -> (e: Option<SsdEntry>)
        requires
            self.wf(),
        ensures
            match e {
                Some(x) => self@.index.contains_key(key) && self@.index[key] == x && x.region
                    < self@.max_regions && x.offset + x.len <= self@.region_size,
                None => !self@.index.contains_key(key),
            },
    {
        proof {
            if self@.index.contains_key(key) {
                let x = self@.index[key];
                assert(self@.in_room(key, x));
                assert(self@.regions[x.region as int].write_offset <= self@.region_size);
            }
        }
        let c: u128 = encode(key);
        match self.index.get(&c) {
            Some(e) => Some(*e),
            None => None,
        }
    }

    /// Number of regions in use.
    pub fn region_count(&self) -> (n: usize)
        ensures
            n == self@.regions.len(),
    {
        self.regions.len()
    }

    /// Checks bytes read from the file against the checksum they were written
    /// under, which is `entry`'s. A mismatch drops the block and counts as a
    /// corruption. A match counts as a hit, and the region's score becomes
    /// `score`, if the block is still where it was.
    pub fn verify_read(
        &mut self,
        key: BlockKey,
        entry: SsdEntry,
        buf: &Bytes,
        score: u64,
        metrics: &mut Metrics,
    ) -> (ok: bool)
        requires
            old(self).wf(),
        ensures
            final(self).wf(),
            ok == (crc32c_of(content(*buf)) == entry.crc),
            ok ==> final(self)@ == (if old(self)@.index.contains_key(key) && old(
                self,
            )@.index[key].region == entry.region {
                SsdState {
                    regions: old(self)@.regions.update(
                        entry.region as int,
                        RegionState { score, ..old(self)@.regions[entry.region as int] },
                    ),
                    ..old(self)@
                }
            } else {
                old(self)@
            }),
            !ok ==> final(self)@ == (SsdState {
                index: old(self)@.index.remove(key),
                ..old(self)@
            }),
            *final(metrics) == (if ok {
                Metrics { ssd_hits: old(metrics).ssd_hits.wrapping_add(1), ..*old(metrics) }
            } else {
                Metrics {
                    ssd_corruptions: old(metrics).ssd_corruptions.wrapping_add(1),
                    ..*old(metrics)
                }
            }),
    {
        if crc32c_of_bytes(buf) != entry.crc {
            proof {
                lemma_index_remove(self.index@, key);
            }
            let c: u128 = encode(key);
            self.index.remove(&c);
            metrics.record_ssd_corruption();
            return false;
        }
        let ghost before = self@;
        let ghost exec_before = self.regions@;
        let current: Option<SsdEntry> = self.lookup(key);
        match current {
            Some(cur) => {
                if cur.region == entry.region {
                    self.regions[entry.region].score = score;
                    proof {
                        let t = before.regions.update(
                            entry.region as int,
                            RegionState { score, ..before.regions[entry.region as int] },
                        );
                        assert(self@.regions =~= t) by {
                            assert forall|j: int| 0 <= j < self@.regions.len() implies self@.regions[j]
                                == t[j] by {
                                if j != entry.region {
                                    assert(self.regions@[j] == exec_before[j]);
                                }
                            }
                        }
                        assert(self@.sound()) by {
                            assert forall|j: int| 0 <= j < self@.regions.len() implies 0 <= (
                            #[trigger] self@.regions[j]).write_offset <= self@.region_size by {
                                assert(0 <= before.regions[j].write_offset <= before.region_size);
                            }
                        }
                    }
                }
            },
            None => {},
        }
        metrics.record_ssd_hit();
        true
    }

    /// Forgets everything: nothing is served from the file any more.
    pub fn clear(&mut self)
        requires
            old(self).wf(),
        ensures
            final(self).wf(),
            final(self)@ == old(self)@.emptied(),
    {
        self.index.clear();
        self.regions.clear();
        self.active = None;
        self.pending.clear();
        self.pending_bytes = 0;
        assert(self@.regions =~= Seq::empty());
        assert(self@.index =~= Map::empty());
        assert(self@.pending =~= Seq::empty());
    }

    /// Gives the file up after it could not be read or written: from now on nothing is
    /// written to it or served from it.
    pub fn degrade(&mut self)
        requires
            old(self).wf(),
        ensures
            final(self).wf(),
            final(self)@ == (SsdState { degraded: true, ..old(self)@.emptied() }),
    {
        self.clear();
        self.degraded = true;
    }

    /// Whether the file was given up.
    pub fn is_degraded(&self) -> (r: bool)
        ensures
            r == self@.degraded,
    {
        self.degraded
    }

    /// Forgets a file: none of its blocks is served any more, nor written.
    pub fn forget_file(&mut self, file_id: u64)
        requires
            old(self).wf(),
        ensures
            final(self).wf(),
            final(self)@ == old(self)@.forgotten(file_id),
    {
        self.forget_pending(file_id);
        self.forget_rooms(file_id);
    }

    /// Takes the blocks of a file out of the queue.
    fn forget_pending(&mut self, file_id: u64)
        requires
            old(self).wf(),
        ensures
            final(self).wf(),
            final(self)@ == (SsdState {
                pending: pending_without(old(self)@.pending, file_id),
                ..old(self)@
            }),
    {
        let ghost before = self@.pending;
        let mut kept: Vec<(BlockKey, Bytes)> = Vec::new();
        let mut bytes: u64 = 0;
        let mut i: usize = 0;
        proof {
            assert(before.take(0) =~= Seq::empty());
            assert(pending_views(kept@) =~= Seq::empty());
        }
        while i < self.pending.len()
            invariant
                i <= self.pending@.len(),
                before == self@.pending,
                before.len() == self.pending@.len(),
                *self == *old(self),
                self.wf(),
                pending_views(kept@) == pending_without(before.take(i as int), file_id),
                bytes == pending_len(pending_views(kept@)),
                bytes <= pending_len(before.take(i as int)),
            decreases self.pending@.len() - i,
        {
            let key: BlockKey = self.pending[i].0;
            proof {
                assert(before[i as int] == (key, content(self.pending@[i as int].1)));
                assert(before.take(i + 1).drop_last() =~= before.take(i as int));
                assert(before.take(i + 1).last() == before[i as int]);
                lemma_pending_len_grows(before, i + 1);
            }
            if key.0 != file_id {
                let data: Bytes = bytes_clone(&self.pending[i].1);
                let len: u64 = bytes_len(&data) as u64;
                let ghost was = kept@;
                kept.push((key, data));
                assert(pending_views(kept@) =~= pending_views(was).push(before[i as int]));
                assert(pending_views(kept@).drop_last() =~= pending_views(was));
                bytes = bytes + len;
            }
            i = i + 1;
        }
        proof {
            assert(before.take(before.len() as int) =~= before);
            lemma_pending_without(before, file_id);
        }
        self.pending = kept;
        self.pending_bytes = bytes;
        assert(self@.pending == pending_without(before, file_id));
    }

    /// Takes back what room is set aside for the blocks of a file.
    fn forget_rooms(&mut self, file_id: u64)
        requires
            old(self).wf(),
        ensures
            final(self).wf(),
            final(self)@ == (SsdState {
                pending: old(self)@.pending,
                ..old(self)@.forgotten(file_id)
            }),
    {
        let ghost before = self@;
        let mut r: usize = 0;
        while r < self.regions.len()
            invariant
                r <= self.regions@.len() == before.regions.len(),
                before == old(self)@,
                forall|j: int|
                    0 <= j < before.regions.len() ==> region_view(#[trigger] self.regions@[j]) == (
                    if j < r {
                        RegionState {
                            keys: keys_without(before.regions[j].keys, file_id),
                            ..before.regions[j]
                        }
                    } else {
                        before.regions[j]
                    }),
                forall|k: BlockKey| #[trigger]
                    index_view(self.index@).contains_key(k) <==> before.index.contains_key(k) && !(
                    k.0 == file_id && exists|j: int|
                        0 <= j < r && (#[trigger] before.regions[j]).keys.contains(k)),
                forall|k: BlockKey| #[trigger]
                    index_view(self.index@).contains_key(k) ==> index_view(self.index@)[k]
                        == before.index[k],
                self.region_size == old(self).region_size,
                self.max_regions == old(self).max_regions,
                self.active == old(self).active,
                self.pending == old(self).pending,
                self.pending_bytes == old(self).pending_bytes,
                self.flushing == old(self).flushing,
                self.degraded == old(self).degraded,
            decreases self.regions@.len() - r,
        {
            self.forget_region(r, file_id);
            r = r + 1;
        }
        proof {
            let after = before.forgotten(file_id);
            assert(self@.regions =~= after.regions) by {
                assert forall|j: int| 0 <= j < self@.regions.len() implies self@.regions[j]
                    == after.regions[j] by {
                    assert(region_view(self.regions@[j]) == self@.regions[j]);
                }
            }
            assert forall|k: BlockKey| #[trigger] self@.index.contains_key(k)
                <==> after.index.contains_key(k) by {
                if before.index.contains_key(k) && k.0 == file_id {
                    assert(before.in_room(k, before.index[k]));
                }
            }
            assert(self@.index =~= after.index);
            lemma_forgotten_is_sound(before, file_id);
        }
    }

    /// Takes back what room of a region is set aside for the blocks of a file.
    fn forget_region(&mut self, r: usize, file_id: u64)
        requires
            r < old(self).regions@.len(),
        ensures
            final(self).regions@.len() == old(self).regions@.len(),
            forall|j: int|
                0 <= j < final(self).regions@.len() && j != r ==> #[trigger] final(self).regions@[j] == old(self).regions@[j],
            region_view(final(self).regions@[r as int]) == (RegionState {
                keys: keys_without(old(self).regions@[r as int].keys@, file_id),
                ..region_view(old(self).regions@[r as int])
            }),
            forall|k: BlockKey| #[trigger]
                index_view(final(self).index@).contains_key(k) <==> index_view(
                    old(self).index@,
                ).contains_key(k) && !(k.0 == file_id && old(self).regions@[r as int].keys@.contains(
                    k,
                )),
            forall|k: BlockKey| #[trigger]
                index_view(final(self).index@).contains_key(k) ==> index_view(final(self).index@)[k]
                    == index_view(old(self).index@)[k],
            final(self).region_size == old(self).region_size,
            final(self).max_regions == old(self).max_regions,
            final(self).active == old(self).active,
            final(self).pending == old(self).pending,
            final(self).pending_bytes == old(self).pending_bytes,
            final(self).flushing == old(self).flushing,
            final(self).degraded == old(self).degraded,
    {
        let ghost keys0 = self.regions@[r as int].keys@;
        let ghost index0 = index_view(self.index@);
        let mut keys: Vec<BlockKey> = Vec::new();
        std::mem::swap(&mut keys, &mut self.regions[r].keys);
        let mut kept: Vec<BlockKey> = Vec::new();
        let mut i: usize = 0;
        assert(keys0.take(0) =~= Seq::empty());
        while i < keys.len()
            invariant
                i <= keys@.len(),
                keys@ == keys0,
                keys0 == old(self).regions@[r as int].keys@,
                index0 == index_view(old(self).index@),
                kept@ == keys_without(keys0.take(i as int), file_id),
                r < self.regions@.len(),
                self.regions@.len() == old(self).regions@.len(),
                forall|j: int|
                    0 <= j < self.regions@.len() && j != r ==> #[trigger] self.regions@[j] == old(
                        self,
                    ).regions@[j],
                self.regions@[r as int].write_offset == old(self).regions@[r as int].write_offset,
                self.regions@[r as int].score == old(self).regions@[r as int].score,
                forall|k: BlockKey| #[trigger]
                    index_view(self.index@).contains_key(k) <==> index0.contains_key(k) && !(k.0
                        == file_id && keys0.take(i as int).contains(k)),
                forall|k: BlockKey| #[trigger]
                    index_view(self.index@).contains_key(k) ==> index_view(self.index@)[k]
                        == index0[k],
                self.region_size == old(self).region_size,
                self.max_regions == old(self).max_regions,
                self.active == old(self).active,
                self.pending == old(self).pending,
                self.pending_bytes == old(self).pending_bytes,
                self.flushing == old(self).flushing,
                self.degraded == old(self).degraded,
            decreases keys@.len() - i,
        {
            let key: BlockKey = keys[i];
            let ghost was = index_view(self.index@);
            proof {
                let p = keys0.take(i as int);
                let w = keys0.take(i + 1);
                assert(w.drop_last() =~= p);
                assert(w.last() == key);
                assert(w =~= p.push(key));
                assert forall|k: BlockKey| #[trigger] w.contains(k) <==> p.contains(k) || k
                    == key by {
                    if p.contains(k) {
                        let j = choose|j: int| 0 <= j < p.len() && p[j] == k;
                        assert(w[j] == k);
                    }
                    if k == key {
                        assert(w[i as int] == k);
                    }
                    if w.contains(k) {
                        let j = choose|j: int| 0 <= j < w.len() && w[j] == k;
                        if j < i {
                            assert(p[j] == k);
                        }
                    }
                }
                lemma_index_remove(self.index@, key);
            }
            if key.0 == file_id {
                let c: u128 = encode(key);
                self.index.remove(&c);
            } else {
                kept.push(key);
            }
            i = i + 1;
        }
        assert(keys0.take(keys0.len() as int) =~= keys0);
        self.regions[r].keys = kept;
    }
}

/// A prefix of the queue holds at most as many bytes as the queue.
proof fn lemma_pending_len_grows(pending: Seq<(BlockKey, Seq<u8>)>, n: int)
    requires
        0 <= n <= pending.len(),
    ensures
        0 <= pending_len(pending.take(n)) <= pending_len(pending),
    decreases pending.len(),
{
    if n == pending.len() {
        assert(pending.take(n) =~= pending);
        if n > 0 {
            lemma_pending_len_grows(pending.drop_last(), n - 1);
        }
    } else {
        assert(pending.drop_last().take(n) =~= pending.take(n));
        lemma_pending_len_grows(pending.drop_last(), n);
    }
}

/// What is left of a queue without a file.
pub(crate) proof fn lemma_pending_without(pending: Seq<(BlockKey, Seq<u8>)>, file_id: u64)
    ensures
        forall|i: int|
            0 <= i < pending_without(pending, file_id).len() ==> (#[trigger] pending_without(
                pending,
                file_id,
            )[i]).0.0 != file_id && exists|j: int|
                0 <= j < pending.len() && #[trigger] pending[j] == pending_without(
                    pending,
                    file_id,
                )[i],
        forall|j: int|
            0 <= j < pending.len() && (#[trigger] pending[j]).0.0 != file_id ==> is_pending(
                pending_without(pending, file_id),
                pending[j].0,
            ),
        distinct_pending(pending) ==> distinct_pending(pending_without(pending, file_id)),
    decreases pending.len(),
{
    if pending.len() > 0 {
        let shorter = pending.drop_last();
        let before = pending_without(shorter, file_id);
        let after = pending_without(pending, file_id);
        lemma_pending_without(shorter, file_id);
        assert forall|i: int| 0 <= i < after.len() implies (#[trigger] after[i]).0.0 != file_id
            && exists|j: int| 0 <= j < pending.len() && #[trigger] pending[j] == after[i] by {
            if i < before.len() {
                assert(after[i] == before[i]);
                let j = choose|j: int| 0 <= j < shorter.len() && #[trigger] shorter[j] == before[i];
                assert(pending[j] == after[i]);
            } else {
                assert(pending[pending.len() - 1] == after[i]);
            }
        }
        assert forall|j: int| 0 <= j < pending.len() && (#[trigger] pending[j]).0.0
            != file_id implies is_pending(after, pending[j].0) by {
            if j < shorter.len() {
                assert(shorter[j] == pending[j]);
                let i = choose|i: int| 0 <= i < before.len() && (#[trigger] before[i]).0
                    == pending[j].0;
                assert(after[i].0 == pending[j].0);
            } else {
                assert(after[after.len() - 1].0 == pending[j].0);
            }
        }
        if distinct_pending(pending) {
            assert(distinct_pending(shorter));
            assert forall|i: int, j: int| 0 <= i < j < after.len() implies (#[trigger] after[i]).0
                != (#[trigger] after[j]).0 by {
                assert(after[i] == before[i]);
                if j < before.len() {
                    assert(after[j] == before[j]);
                } else {
                    let m = choose|m: int|
                        0 <= m < shorter.len() && #[trigger] shorter[m] == before[i];
                    assert(pending[m] == before[i]);
                    assert(pending[pending.len() - 1] == after[j]);
                }
            }
        }
    }
}

/// What is left of keys without a file.
proof fn lemma_keys_without(keys: Seq<BlockKey>, file_id: u64)
    ensures
        forall|k: BlockKey| #[trigger]
            keys_without(keys, file_id).contains(k) <==> keys.contains(k) && k.0 != file_id,
    decreases keys.len(),
{
    if keys.len() > 0 {
        let shorter = keys.drop_last();
        let before = keys_without(shorter, file_id);
        let after = keys_without(keys, file_id);
        lemma_keys_without(shorter, file_id);
        assert forall|k: BlockKey| #[trigger] after.contains(k) <==> keys.contains(k) && k.0
            != file_id by {
            if after.contains(k) {
                let i = choose|i: int| 0 <= i < after.len() && after[i] == k;
                if i < before.len() {
                    assert(before[i] == k);
                    assert(before.contains(k));
                    let j = choose|j: int| 0 <= j < shorter.len() && shorter[j] == k;
                    assert(keys[j] == k);
                } else {
                    assert(keys[keys.len() - 1] == k);
                }
            }
            if keys.contains(k) && k.0 != file_id {
                let j = choose|j: int| 0 <= j < keys.len() && keys[j] == k;
                if j < shorter.len() {
                    assert(shorter[j] == k);
                    assert(before.contains(k));
                    let i = choose|i: int| 0 <= i < before.len() && before[i] == k;
                    assert(after[i] == k);
                } else {
                    assert(after[after.len() - 1] == k);
                }
            }
        }
    }
}

proof fn lemma_forgotten_is_sound(s: SsdState, file_id: u64)
    requires
        s.sound(),
    ensures
        s.forgotten(file_id).sound(),
        (SsdState { pending: s.pending, ..s.forgotten(file_id) }).sound(),
{
    let t = s.forgotten(file_id);
    lemma_pending_without(s.pending, file_id);
    assert forall|i: int| 0 <= i < t.regions.len() implies 0 <= (#[trigger] t.regions[i]).write_offset
        <= t.region_size by {
        assert(0 <= s.regions[i].write_offset <= s.region_size);
    }
    assert forall|i: int| 0 <= i < t.pending.len() implies (#[trigger] t.pending[i]).1.len()
        <= t.region_size by {
        let j = choose|j: int| 0 <= j < s.pending.len() && #[trigger] s.pending[j] == t.pending[i];
        assert(s.pending[j].1.len() <= s.region_size);
    }
    assert forall|k: BlockKey| #[trigger] t.index.contains_key(k) implies t.in_room(
        k,
        t.index[k],
    ) by {
        assert(s.index.contains_key(k));
        let r = s.index[k].region as int;
        assert(s.in_room(k, s.index[k]));
        lemma_keys_without(s.regions[r].keys, file_id);
    }
    if s.degraded {
        assert(t.pending.len() == 0);
    }
    assert forall|k: BlockKey| #[trigger] (SsdState { pending: s.pending, ..t }).index.contains_key(
        k,
    ) implies (SsdState { pending: s.pending, ..t }).in_room(k, t.index[k]) by {
        assert(t.index.contains_key(k));
        assert(t.in_room(k, t.index[k]));
    }
}

/// Configuration of the SSD tier.
#[derive(Clone, Debug)]
pub struct SsdConfig {
    pub dir: String,
    pub total_limit: u64,
    pub num_shards: usize,
    pub region_size: u64,
}

/// How the SSD tier is laid out.
#[derive(Clone, Copy, Debug, PartialEq, Eq, Structural)]
pub struct SsdLayout {
    /// Number of shard files.
    pub num_shards: usize,
    /// Most regions that one shard file may hold.
    pub max_regions: usize,
    /// Size of a region in bytes.
    pub region_size: u64,
}

impl SsdConfig {
    /// How many regions the budget pays for.
    pub open spec fn total_regions(self) -> int {
        self.total_limit as int / self.region_size as int
    }

    /// The number of shards: as many as asked for, one at least, and no more than there
    /// are regions.
    pub open spec fn shard_count(self) -> int {
        let asked: int = if self.num_shards == 0 {
            1
        } else {
            self.num_shards as int
        };
        if self.total_regions() < asked {
            self.total_regions()
        } else {
            asked
        }
    }

    /// How many regions a shard may have: its share of those that the budget pays for.
    pub open spec fn regions_per_shard(self) -> int {
        self.total_regions() / self.shard_count()
    }

    /// The layout for the configured budget: the regions it pays for, shared
    /// evenly by the shards. There are only so many shards that each has a region,
    /// and there is no layout when the budget does not pay for a single one.
    pub fn layout(&self) -> (l: Option<SsdLayout>)
        requires
            self.region_size > 0,
            self.total_limit / self.region_size <= usize::MAX,
        ensures
            match l {
                Some(x) => {
                    &&& self.total_limit >= self.region_size
                    &&& x.num_shards == self.shard_count()
                    &&& x.max_regions == self.regions_per_shard()
                    &&& x.region_size == self.region_size
                    &&& x.num_shards >= 1 && x.max_regions >= 1
                    &&& x.num_shards * (x.max_regions * x.region_size) <= self.total_limit
                    &&& x.max_regions * x.region_size <= self.total_limit
                },
                None => self.total_limit < self.region_size,
            },
    {
        if self.total_limit < self.region_size {
            return None;
        }
        let total_regions: u64 = self.total_limit / self.region_size;
        let asked: u64 = if self.num_shards == 0 {
            1
        } else {
            self.num_shards as u64
        };
        proof {
            vstd::arithmetic::div_mod::lemma_div_is_ordered(
                self.region_size as int,
                self.total_limit as int,
                self.region_size as int,
            );
            vstd::arithmetic::div_mod::lemma_div_by_self(self.region_size as int);
        }
        assert(total_regions >= 1);
        let num_shards: u64 = if total_regions < asked {
            total_regions
        } else {
            asked
        };
        let share: u64 = total_regions / num_shards;
        proof {
            lemma_share(*self);
        }
        let num_shards: usize = num_shards as usize;
        let max_regions: usize = share as usize;
        Some(SsdLayout { num_shards, max_regions, region_size: self.region_size })
    }
}

/// Each shard has a region, and the shards' regions are paid for.
proof fn lemma_share(config: SsdConfig)
    requires
        config.region_size > 0,
        config.total_limit >= config.region_size,
    ensures
        1 <= config.shard_count() <= config.total_regions(),
        1 <= config.regions_per_shard() <= config.total_regions(),
        config.shard_count() * (config.regions_per_shard() * config.region_size)
            <= config.total_limit,
        config.regions_per_shard() * config.region_size <= config.total_limit,
{
    let z = config.region_size as int;
    let regions = config.total_regions();
    vstd::arithmetic::div_mod::lemma_div_is_ordered(z, config.total_limit as int, z);
    vstd::arithmetic::div_mod::lemma_div_by_self(z);
    let n = config.shard_count();
    let share = config.regions_per_shard();
    vstd::arithmetic::div_mod::lemma_fundamental_div_mod(config.total_limit as int, z);
    vstd::arithmetic::div_mod::lemma_mod_bound(config.total_limit as int, z);
    vstd::arithmetic::div_mod::lemma_fundamental_div_mod(regions, n);
    vstd::arithmetic::div_mod::lemma_mod_bound(regions, n);
    vstd::arithmetic::div_mod::lemma_div_is_ordered(n, regions, n);
    vstd::arithmetic::div_mod::lemma_div_by_self(n);
    vstd::arithmetic::div_mod::lemma_div_is_ordered_by_denominator(regions, 1, n);
    assert(n * (share * z) <= z * regions) by (nonlinear_arith)
        requires
            n * share <= regions,
            z > 0,
    ;
    assert(share * z <= z * regions) by (nonlinear_arith)
        requires
            share <= regions,
            z > 0,
    ;
}

impl BlockCacheConfig {
    /// The SSD tier that a normalized configuration asks for, if any: its regions
    /// are large enough for a block.
    pub fn ssd_config(&self) -> (c: Option<SsdConfig>)
        ensures
            match c {
                Some(x) => {
                    &&& self.ssd_dir matches Some(d) && x.dir == d
                    &&& self.ssd_limit > 0
                    &&& x.total_limit == self.ssd_limit
                    &&& x.num_shards == self.num_shards
                    &&& x.region_size == if self.ssd_region_size < self.block_size {
                        self.block_size
                    } else {
                        self.ssd_region_size
                    }
                },
                None => self.ssd_dir is None || self.ssd_limit == 0,
            },
    {
        match &self.ssd_dir {
            Some(dir) => if self.ssd_limit > 0 {
                Some(
                    SsdConfig {
                        dir: dir.clone(),
                        total_limit: self.ssd_limit,
                        num_shards: self.num_shards,
                        region_size: if self.ssd_region_size < self.block_size {
                            self.block_size
                        } else {
                            self.ssd_region_size
                        },
                    },
                )
            } else {
                None
            },
            None => None,
        }
    }
}

/// The name of a shard file, recognized again by [`is_shard_file`].
pub fn shard_file_name(shard: u64) -> (name: String)
    ensures
        exists|digits: Seq<char>|
            #[trigger] is_decimal(shard as int, digits) && name@ == "comet-data-cache-"@ + digits
                + ".bin"@,
{
    let digits: String = decimal(shard);
    assert(is_decimal(shard as int, digits@));
    concat3("comet-data-cache-", digits.as_str(), ".bin")
}

/// The name is one that a shard file may have.
pub open spec fn shard_file(name: Seq<char>) -> bool {
    "comet-data-cache-"@.is_prefix_of(name) && ".bin"@.is_suffix_of(name)
}

/// Whether a file found at start-up is a shard file left behind by an earlier
/// process. Such files are removed: the tier starts empty.
pub fn is_shard_file(name: &str) -> (r: bool)
    ensures
        r == shard_file(name@),
{
    starts_with(name, "comet-data-cache-") && ends_with(name, ".bin")
}

/// The name of every shard file is recognized as one.
pub proof fn shard_file_names_are_recognized(name: Seq<char>, digits: Seq<char>)
    requires
        name == "comet-data-cache-"@ + digits + ".bin"@,
    ensures
        shard_file(name),
{
    assert("comet-data-cache-"@ =~= name.subrange(0, "comet-data-cache-"@.len() as int));
    assert(".bin"@ =~= name.subrange(name.len() - ".bin"@.len(), name.len() as int));
}

/// A block set aside lies within its region and within that region's part of
/// the file, which no other region shares.
pub proof fn blocks_never_span_a_region(s: SsdState, key: BlockKey, len: int, scores: Seq<u64>)
    requires
        s.sound(),
        !s.degraded,
        0 <= len <= s.region_size,
        scores.len() == s.regions.len(),
    ensures
        ({
            let t = s.ensured(len, scores);
            let r = t.active->0;
            let offset = t.regions[r].write_offset;
            &&& t.sound()
            &&& t.active is Some
            &&& 0 <= offset
            &&& offset + len <= s.region_size
            &&& t.file_offset(r, offset) + len <= t.file_offset(r + 1, 0)
            &&& t.file_offset(r + 1, 0) <= u64::MAX
            &&& t.set_aside(key, len).sound()
        }),
{
    lemma_ensured(s, len, scores);
    let t = s.ensured(len, scores);
    let r = t.active->0;
    let z = s.region_size as int;
    assert((r + 1) * z == r * z + z) by (nonlinear_arith);
    assert((r + 1) * z <= s.max_regions * z) by (nonlinear_arith)
        requires
            r + 1 <= s.max_regions,
            z >= 0,
    ;
    lemma_set_aside(t, key, len);
}

/// The coldest region is one of those looked at.
proof fn lemma_coldest(regions: Seq<RegionState>, active: Option<int>, n: int)
    requires
        0 <= n <= regions.len(),
    ensures
        match coldest(regions, active, n) {
            Some(i) => 0 <= i < n && active != Some(i) && forall|j: int|
                0 <= j < n && active != Some(j) ==> regions[i].score <= (
                #[trigger] regions[j]).score,
            None => forall|j: int| 0 <= j < n ==> active == Some(j),
        },
    decreases n,
{
    if n > 0 {
        lemma_coldest(regions, active, n - 1);
    }
}

pub(crate) proof fn lemma_ensured(s: SsdState, len: int, scores: Seq<u64>)
    requires
        s.sound(),
        !s.degraded,
        0 <= len <= s.region_size,
        scores.len() == s.regions.len(),
    ensures
        s.ensured(len, scores).sound(),
        s.ensured(len, scores).has_room(len),
        !s.ensured(len, scores).degraded,
{
    let t = s.ensured(len, scores);
    if !s.has_room(len) {
        let d = s.rescored(scores);
        assert forall|j: int| 0 <= j < d.regions.len() implies 0 <= (
        #[trigger] d.regions[j]).write_offset <= d.region_size by {
            assert(0 <= s.regions[j].write_offset <= s.region_size);
        }
        lemma_coldest(d.regions, d.active, d.regions.len() as int);
        if d.regions.len() >= d.max_regions {
            let v = d.victim();
            assert(0 <= v < d.regions.len());
            assert forall|j: int| 0 <= j < t.regions.len() implies 0 <= (
            #[trigger] t.regions[j]).write_offset <= t.region_size by {
                assert(0 <= d.regions[j].write_offset <= d.region_size);
            }
        } else {
            assert forall|j: int| 0 <= j < t.regions.len() implies 0 <= (
            #[trigger] t.regions[j]).write_offset <= t.region_size by {
                if j < d.regions.len() {
                    assert(0 <= d.regions[j].write_offset <= d.region_size);
                }
            }
        }
        assert forall|k: BlockKey| #[trigger] t.index.contains_key(k) implies t.in_room(
            k,
            t.index[k],
        ) by {
            assert(s.index.contains_key(k));
            let r = s.index[k].region as int;
            assert(s.in_room(k, s.index[k]));
            assert(d.regions[r].keys == s.regions[r].keys);
        }
    }
}

/// Setting room aside keeps a shard sound.
proof fn lemma_set_aside(t: SsdState, key: BlockKey, len: int)
    requires
        t.sound(),
        !t.degraded,
        t.has_room(len),
        0 <= len,
    ensures
        t.set_aside(key, len).sound(),
{
    let u = t.set_aside(key, len);
    let a = t.active->0;
    assert forall|j: int| 0 <= j < u.regions.len() implies 0 <= (#[trigger] u.regions[j]).write_offset
        <= u.region_size by {
        assert(0 <= t.regions[j].write_offset <= t.region_size);
    }
    assert forall|k: BlockKey| #[trigger] u.index.contains_key(k) implies u.in_room(
        k,
        u.index[k],
    ) by {
        assert(t.index.contains_key(k));
        let r = t.index[k].region as int;
        assert(t.in_room(k, t.index[k]));
        let i = choose|i: int| 0 <= i < t.regions[r].keys.len() && t.regions[r].keys[i] == k;
        assert(u.regions[r].keys[i] == k);
    }
}

/// Two blocks set aside one after the other, without a region reclaimed in
/// between, do not share a byte of the file.
pub proof fn reservations_do_not_overlap(
    s: SsdState,
    key: BlockKey,
    len: int,
    scores: Seq<u64>,
    next: BlockKey,
    next_len: int,
    next_scores: Seq<u64>,
)
    requires
        s.sound(),
        !s.degraded,
        0 <= len <= s.region_size,
        0 <= next_len <= s.region_size,
        scores.len() == s.regions.len(),
        ({
            let t = s.ensured(len, scores).set_aside(key, len);
            next_scores.len() == t.regions.len() && !t.reclaims(next_len)
        }),
    ensures
        ({
            let t = s.ensured(len, scores);
            let u = t.set_aside(key, len);
            let w = u.ensured(next_len, next_scores);
            let first = t.file_offset(t.active->0, t.regions[t.active->0].write_offset);
            let second = w.file_offset(w.active->0, w.regions[w.active->0].write_offset);
            first + len <= second || second + next_len <= first
        }),
{
    blocks_never_span_a_region(s, key, len, scores);
    let t = s.ensured(len, scores);
    let u = t.set_aside(key, len);
    blocks_never_span_a_region(u, next, next_len, next_scores);
    let w = u.ensured(next_len, next_scores);
    let a = t.active->0;
    let b = w.active->0;
    let z = s.region_size as int;
    if a != b {
        assert((a + 1) * z <= b * z || (b + 1) * z <= a * z) by (nonlinear_arith)
            requires
                a < b || b < a,
                z > 0,
        ;
    }
}

/// Reclaiming a region leaves nothing of it in the index, takes nothing else
/// out, and never takes the region being appended to while there is another.
pub proof fn reclaimed_region_is_forgotten(s: SsdState)
    requires
        s.sound(),
        s.regions.len() > 0,
    ensures
        0 <= s.victim() < s.regions.len(),
        s.regions.len() > 1 ==> s.active != Some(s.victim()),
        forall|i: int|
            0 <= i < s.regions.len() && s.active != Some(i) ==> s.regions[s.victim()].score <= (
            #[trigger] s.regions[i]).score,
        forall|k: BlockKey| #[trigger]
            s.erased(s.victim()).index.contains_key(k) <==> (s.index.contains_key(k)
                && !s.regions[s.victim()].keys.contains(k)),
{
    lemma_coldest(s.regions, s.active, s.regions.len() as int);
    if s.regions.len() > 1 {
        if s.active == Some(0int) {
            assert(s.active != Some(1int));
        }
    }
}

/// A file after `data` was written at a position.
pub open spec fn written_at(file: Seq<u8>, at: int, data: Seq<u8>) -> Seq<u8> {
    Seq::new(
        if file.len() < at + data.len() {
            (at + data.len()) as nat
        } else {
            file.len()
        },
        |i: int|
            if at <= i < at + data.len() {
                data[i - at]
            } else {
                file[i]
            },
    )
}

impl SsdState {
    /// The bytes of a file that an entry of the index names.
    pub open spec fn stored(self, file: Seq<u8>, entry: SsdEntry) -> Seq<u8> {
        let at = self.file_offset(entry.region as int, entry.offset as int);
        file.subrange(at, at + entry.len)
    }

    /// The entry under which a block is indexed that was written where room was last
    /// set aside.
    pub open spec fn entry_for(self, data: Seq<u8>) -> SsdEntry {
        SsdEntry {
            region: self.active->0 as usize,
            offset: self.regions[self.active->0].write_offset as u64,
            len: data.len() as u32,
            crc: crc32c_of(data),
        }
    }

    /// The shard with a block indexed.
    pub open spec fn indexed(self, key: BlockKey, entry: SsdEntry) -> SsdState {
        SsdState { index: self.index.insert(key, entry), ..self }
    }
}

/// What a read gives back is what was written: a block that was given room, written
/// there and indexed is found, its entry names exactly its bytes, and they pass the
/// check of their checksum.
pub proof fn written_block_is_served(
    s: SsdState,
    key: BlockKey,
    data: Seq<u8>,
    scores: Seq<u64>,
    file: Seq<u8>,
)
    requires
        s.sound(),
        !s.degraded,
        s.max_regions <= usize::MAX,
        data.len() <= s.region_size,
        data.len() <= u32::MAX,
        scores.len() == s.regions.len(),
    ensures
        ({
            let t = s.ensured(data.len() as int, scores);
            let entry = t.entry_for(data);
            let at = t.file_offset(t.active->0, t.regions[t.active->0].write_offset);
            let after = written_at(file, at, data);
            let u = t.set_aside(key, data.len() as int).indexed(key, entry);
            &&& u.index.contains_key(key) && u.index[key] == entry
            &&& u.stored(after, entry) == data
            &&& crc32c_of(u.stored(after, entry)) == entry.crc
        }),
{
    blocks_never_span_a_region(s, key, data.len() as int, scores);
    let t = s.ensured(data.len() as int, scores);
    let entry = t.entry_for(data);
    let at = t.file_offset(t.active->0, t.regions[t.active->0].write_offset);
    let after = written_at(file, at, data);
    let u = t.set_aside(key, data.len() as int).indexed(key, entry);
    assert(entry.region == t.active->0);
    assert(u.file_offset(entry.region as int, entry.offset as int) == at);
    assert(u.stored(after, entry) =~= data);
}

/// Writing a block leaves every other block's bytes in place, but for those of a region
/// that is reclaimed for it.
pub proof fn writing_disturbs_no_other_block(
    s: SsdState,
    data: Seq<u8>,
    scores: Seq<u64>,
    file: Seq<u8>,
    other: SsdEntry,
)
    requires
        s.sound(),
        !s.degraded,
        data.len() <= s.region_size,
        scores.len() == s.regions.len(),
        other.region < s.regions.len(),
        other.offset + other.len <= s.regions[other.region as int].write_offset,
        s.file_offset(other.region as int, other.offset as int) + other.len <= file.len(),
        s.reclaims(data.len() as int) ==> s.rescored(scores).victim() != other.region,
    ensures
        ({
            let t = s.ensured(data.len() as int, scores);
            let at = t.file_offset(t.active->0, t.regions[t.active->0].write_offset);
            t.stored(written_at(file, at, data), other) == s.stored(file, other)
        }),
{
    let len = data.len() as int;
    lemma_ensured(s, len, scores);
    let t = s.ensured(len, scores);
    let a = t.active->0;
    let o = other.region as int;
    let z = s.region_size as int;
    let at = t.file_offset(a, t.regions[a].write_offset);
    let place = s.file_offset(o, other.offset as int);
    assert(0 <= s.regions[o].write_offset <= z);
    assert(0 <= t.regions[a].write_offset);
    if a != o {
        assert((a + 1) * z <= o * z || (o + 1) * z <= a * z) by (nonlinear_arith)
            requires
                a < o || o < a,
                z > 0,
        ;
        assert((a + 1) * z == a * z + z) by (nonlinear_arith);
        assert((o + 1) * z == o * z + z) by (nonlinear_arith);
    } else {
        assert(t.regions[a].write_offset == s.regions[o].write_offset);
    }
    assert(place + other.len <= at || at + len <= place);
    assert(0 <= o * z) by (nonlinear_arith)
        requires
            0 <= o,
            0 < z,
    ;
    assert(t.stored(written_at(file, at, data), other) =~= s.stored(file, other));
}

/// The shard files stay within the configured limit, all together: no block is given
/// room beyond a shard's share.
pub proof fn shard_files_stay_within_the_limit(
    config: SsdConfig,
    layout: SsdLayout,
    s: SsdState,
    len: int,
    scores: Seq<u64>,
)
    requires
        0 < config.region_size <= config.total_limit,
        layout.num_shards as int == config.shard_count(),
        layout.max_regions as int == config.regions_per_shard(),
        s.sound(),
        !s.degraded,
        s.region_size == config.region_size,
        s.max_regions == layout.max_regions,
        0 <= len <= s.region_size,
        scores.len() == s.regions.len(),
    ensures
        layout.num_shards * (layout.max_regions * config.region_size) <= config.total_limit,
        ({
            let t = s.ensured(len, scores);
            t.file_offset(t.active->0, t.regions[t.active->0].write_offset) + len
                <= layout.max_regions * config.region_size
        }),
{
    let z = config.region_size as int;
    lemma_share(config);
    lemma_ensured(s, len, scores);
    let t = s.ensured(len, scores);
    let a = t.active->0;
    assert((a + 1) * z == a * z + z) by (nonlinear_arith);
    assert((a + 1) * z <= s.max_regions * z) by (nonlinear_arith)
        requires
            a + 1 <= s.max_regions,
            z > 0,
    ;
}

/// A forgotten file is served no more: none of its blocks is indexed or queued, and one
/// that was being written meanwhile is not indexed either. Other files stay.
pub proof fn forgotten_file_is_not_served(
    s: SsdState,
    file_id: u64,
    block: u32,
    entry: SsdEntry,
)
    requires
        s.sound(),
    ensures
        ({
            let t = s.forgotten(file_id);
            &&& t.sound()
            &&& !t.index.contains_key((file_id, block))
            &&& !is_pending(t.pending, (file_id, block))
            &&& !t.recorded((file_id, block), entry).index.contains_key((file_id, block))
            &&& forall|k: BlockKey|
                k.0 != file_id ==> {
                    &&& #[trigger] t.index.contains_key(k) == s.index.contains_key(k)
                    &&& t.index.contains_key(k) ==> t.index[k] == s.index[k]
                    &&& is_pending(t.pending, k) == is_pending(s.pending, k)
                }
        }),
{
    let t = s.forgotten(file_id);
    lemma_forgotten_is_sound(s, file_id);
    lemma_pending_without(s.pending, file_id);
    if 0 <= entry.region < s.regions.len() {
        lemma_keys_without(s.regions[entry.region as int].keys, file_id);
    }
    assert forall|k: BlockKey| k.0 != file_id implies #[trigger] t.index.contains_key(k)
        == s.index.contains_key(k) && (t.index.contains_key(k) ==> t.index[k] == s.index[k])
        && is_pending(t.pending, k) == is_pending(s.pending, k) by {
        if is_pending(t.pending, k) {
            let i = choose|i: int| 0 <= i < t.pending.len() && (#[trigger] t.pending[i]).0 == k;
            let j = choose|j: int|
                0 <= j < s.pending.len() && #[trigger] s.pending[j] == t.pending[i];
            assert(s.pending[j].0 == k);
        }
        if is_pending(s.pending, k) {
            let j = choose|j: int| 0 <= j < s.pending.len() && (#[trigger] s.pending[j]).0 == k;
            assert(is_pending(t.pending, s.pending[j].0));
        }
    }
}

/// A shard whose file failed passes everything through for good: it takes in nothing,
/// serves nothing, and neither forgetting nor emptying brings it back.
pub proof fn a_failed_file_is_passed_by(
    s: SsdState,
    key: BlockKey,
    len: int,
    entry: SsdEntry,
    file_id: u64,
)
    requires
        s.sound(),
        s.degraded,
    ensures
        !s.admits(key, len),
        !s.index.contains_key(key),
        s.recorded(key, entry) == s,
        s.forgotten(file_id).degraded,
        s.emptied().degraded,
{
    if s.index.contains_key(key) {
        assert(s.in_room(key, s.index[key]));
    }
}

/// A shard and its file after the first `n` blocks of a batch were given room and written
/// there. The regions' scores before each block are given.
pub open spec fn batch_written(
    s: SsdState,
    file: Seq<u8>,
    batch: Seq<(BlockKey, Seq<u8>)>,
    scores: Seq<Seq<u64>>,
    n: int,
) -> (SsdState, Seq<u8>)
    decreases n,
{
    if n <= 0 {
        (s, file)
    } else {
        let (t, f) = batch_written(s, file, batch, scores, n - 1);
        let (key, data) = batch[n - 1];
        let u = t.ensured(data.len() as int, scores[n - 1]);
        let at = u.file_offset(u.active->0, u.regions[u.active->0].write_offset);
        (u.set_aside(key, data.len() as int), written_at(f, at, data))
    }
}

/// Where a block of a batch was written.
pub open spec fn batch_entry(
    s: SsdState,
    file: Seq<u8>,
    batch: Seq<(BlockKey, Seq<u8>)>,
    scores: Seq<Seq<u64>>,
    i: int,
) -> SsdEntry {
    batch_written(s, file, batch, scores, i).0.ensured(
        batch[i].1.len() as int,
        scores[i],
    ).entry_for(batch[i].1)
}

/// The shard after the first `n` blocks of a batch, all of it written, were indexed.
pub open spec fn batch_recorded(
    s: SsdState,
    file: Seq<u8>,
    batch: Seq<(BlockKey, Seq<u8>)>,
    scores: Seq<Seq<u64>>,
    n: int,
) -> SsdState
    decreases n,
{
    if n <= 0 {
        batch_written(s, file, batch, scores, batch.len() as int).0
    } else {
        batch_recorded(s, file, batch, scores, n - 1).recorded(
            batch[n - 1].0,
            batch_entry(s, file, batch, scores, n - 1),
        )
    }
}

/// A batch fits a shard: its blocks are different and fit regions, and there is a score
/// for each region before each block.
pub open spec fn batch_fits(
    s: SsdState,
    file: Seq<u8>,
    batch: Seq<(BlockKey, Seq<u8>)>,
    scores: Seq<Seq<u64>>,
) -> bool {
    &&& s.sound()
    &&& !s.degraded
    &&& s.max_regions <= usize::MAX
    &&& distinct_pending(batch)
    &&& scores.len() == batch.len()
    &&& forall|i: int|
        0 <= i < batch.len() ==> (#[trigger] batch[i]).1.len() <= s.region_size
            && batch[i].1.len() <= u32::MAX
    &&& forall|i: int|
        0 <= i < batch.len() ==> (#[trigger] scores[i]).len() == batch_written(
            s,
            file,
            batch,
            scores,
            i,
        ).0.regions.len()
}

pub(crate) proof fn lemma_batch_state(
    s: SsdState,
    file: Seq<u8>,
    batch: Seq<(BlockKey, Seq<u8>)>,
    scores: Seq<Seq<u64>>,
    n: int,
)
    requires
        batch_fits(s, file, batch, scores),
        0 <= n <= batch.len(),
    ensures
        ({
            let t = batch_written(s, file, batch, scores, n).0;
            &&& t.sound()
            &&& !t.degraded
            &&& t.region_size == s.region_size
            &&& t.max_regions == s.max_regions
        }),
    decreases n,
{
    if n > 0 {
        lemma_batch_state(s, file, batch, scores, n - 1);
        let t = batch_written(s, file, batch, scores, n - 1).0;
        let len = batch[n - 1].1.len() as int;
        assert(scores[n - 1].len() == t.regions.len());
        lemma_ensured(t, len, scores[n - 1]);
        lemma_set_aside(t.ensured(len, scores[n - 1]), batch[n - 1].0, len);
    }
}

/// While the room of a block is not taken back, its bytes stay where they were written.
pub(crate) proof fn lemma_batch_bytes_stay(
    s: SsdState,
    file: Seq<u8>,
    batch: Seq<(BlockKey, Seq<u8>)>,
    scores: Seq<Seq<u64>>,
    i: int,
    n: int,
)
    requires
        batch_fits(s, file, batch, scores),
        0 <= i < n <= batch.len(),
    ensures
        ({
            let (t, f) = batch_written(s, file, batch, scores, n);
            let e = batch_entry(s, file, batch, scores, i);
            t.holds_room(batch[i].0, e.region as int) ==> {
                &&& t.stored(f, e) == batch[i].1
                &&& e.offset + e.len <= t.regions[e.region as int].write_offset
                &&& t.file_offset(e.region as int, e.offset as int) + e.len <= f.len()
            }
        }),
    decreases n,
{
    let (t, f) = batch_written(s, file, batch, scores, n - 1);
    let (key, data) = batch[n - 1];
    let len = data.len() as int;
    let e = batch_entry(s, file, batch, scores, i);
    let r = e.region as int;
    let u = t.ensured(len, scores[n - 1]);
    let a = u.active->0;
    let at = u.file_offset(a, u.regions[a].write_offset);
    let w = u.set_aside(key, len);
    lemma_batch_state(s, file, batch, scores, n - 1);
    assert(scores[n - 1].len() == t.regions.len());
    assert(batch[n - 1].1.len() <= s.region_size);
    lemma_ensured(t, len, scores[n - 1]);
    if i == n - 1 {
        blocks_never_span_a_region(t, key, len, scores[n - 1]);
        written_block_is_served(t, key, data, scores[n - 1], f);
    } else {
        lemma_batch_bytes_stay(s, file, batch, scores, i, n - 1);
        let k = batch[i].0;
        assert(k != key);
        if w.holds_room(k, r) {
            let j = choose|j: int| 0 <= j < w.regions[r].keys.len() && w.regions[r].keys[j] == k;
            assert(u.regions[r].keys[j] == k);
            assert(u.holds_room(k, r));
            if t.reclaims(len) {
                assert(t.rescored(scores[n - 1]).victim() != r);
            }
            assert(r < t.regions.len());
            assert(t.holds_room(k, r));
            writing_disturbs_no_other_block(t, data, scores[n - 1], f, e);
            assert(w.stored(written_at(f, at, data), e) == t.stored(f, e));
        }
    }
}

proof fn lemma_batch_recorded(
    s: SsdState,
    file: Seq<u8>,
    batch: Seq<(BlockKey, Seq<u8>)>,
    scores: Seq<Seq<u64>>,
    i: int,
    n: int,
)
    requires
        distinct_pending(batch),
        0 <= i < batch.len(),
        0 <= n <= batch.len(),
    ensures
        ({
            let t = batch_written(s, file, batch, scores, batch.len() as int).0;
            let u = batch_recorded(s, file, batch, scores, n);
            let e = batch_entry(s, file, batch, scores, i);
            &&& u == (SsdState { index: u.index, ..t })
            &&& i < n && t.in_room(batch[i].0, e) ==> u.index.contains_key(batch[i].0)
                && u.index[batch[i].0] == e
        }),
    decreases n,
{
    if n > 0 {
        lemma_batch_recorded(s, file, batch, scores, i, n - 1);
        if i < n - 1 {
            assert(batch[i].0 != batch[n - 1].0);
        }
    }
}

/// Every block of a batch that was given room, written and indexed is served back with its
/// bytes, unless its region was reclaimed for a later block of the same batch.
pub proof fn written_batch_is_served(
    s: SsdState,
    file: Seq<u8>,
    batch: Seq<(BlockKey, Seq<u8>)>,
    scores: Seq<Seq<u64>>,
    i: int,
)
    requires
        batch_fits(s, file, batch, scores),
        0 <= i < batch.len(),
    ensures
        ({
            let n = batch.len() as int;
            let (t, f) = batch_written(s, file, batch, scores, n);
            let u = batch_recorded(s, file, batch, scores, n);
            let e = batch_entry(s, file, batch, scores, i);
            t.holds_room(batch[i].0, e.region as int) ==> {
                &&& u.index.contains_key(batch[i].0) && u.index[batch[i].0] == e
                &&& u.stored(f, e) == batch[i].1
                &&& crc32c_of(u.stored(f, e)) == e.crc
            }
        }),
        (forall|j: int|
            0 <= j < batch.len() ==> !(#[trigger] batch_written(
                s,
                file,
                batch,
                scores,
                j,
            )).0.reclaims(batch[j].1.len() as int)) ==> batch_written(
            s,
            file,
            batch,
            scores,
            batch.len() as int,
        ).0.holds_room(batch[i].0, batch_entry(s, file, batch, scores, i).region as int),
{
    let n = batch.len() as int;
    lemma_batch_bytes_stay(s, file, batch, scores, i, n);
    lemma_batch_recorded(s, file, batch, scores, i, n);
    if forall|j: int|
        0 <= j < batch.len() ==> !(#[trigger] batch_written(s, file, batch, scores, j)).0.reclaims(
            batch[j].1.len() as int,
        ) {
        lemma_room_stays(s, file, batch, scores, i, n);
    }
}

/// Room is taken back only where a region is reclaimed.
proof fn lemma_room_stays(
    s: SsdState,
    file: Seq<u8>,
    batch: Seq<(BlockKey, Seq<u8>)>,
    scores: Seq<Seq<u64>>,
    i: int,
    n: int,
)
    requires
        batch_fits(s, file, batch, scores),
        0 <= i < n <= batch.len(),
        forall|j: int|
            0 <= j < batch.len() ==> !(#[trigger] batch_written(
                s,
                file,
                batch,
                scores,
                j,
            )).0.reclaims(batch[j].1.len() as int),
    ensures
        batch_written(s, file, batch, scores, n).0.holds_room(
            batch[i].0,
            batch_entry(s, file, batch, scores, i).region as int,
        ),
    decreases n,
{
    let t = batch_written(s, file, batch, scores, n - 1).0;
    let (key, data) = batch[n - 1];
    let len = data.len() as int;
    let r = batch_entry(s, file, batch, scores, i).region as int;
    let u = t.ensured(len, scores[n - 1]);
    let w = u.set_aside(key, len);
    lemma_batch_state(s, file, batch, scores, n - 1);
    assert(scores[n - 1].len() == t.regions.len());
    assert(batch[n - 1].1.len() <= s.region_size);
    lemma_ensured(t, len, scores[n - 1]);
    assert(!t.reclaims(len));
    if i == n - 1 {
        assert(w.regions[r].keys[u.regions[r].keys.len() as int] == key);
    } else {
        lemma_room_stays(s, file, batch, scores, i, n - 1);
        let k = batch[i].0;
        let j = choose|j: int| 0 <= j < t.regions[r].keys.len() && t.regions[r].keys[j] == k;
        assert(u.regions[r].keys[j] == k);
        assert(w.regions[r].keys[j] == k);
    }
}

/// The layout leaves no region out that the budget pays for, other than what cannot be shared
/// evenly, and has as many shards as were asked for where there are regions for them.
pub proof fn the_layout_uses_what_the_budget_pays_for(config: SsdConfig, layout: SsdLayout)
    requires
        0 < config.region_size <= config.total_limit,
        layout.num_shards as int == config.shard_count(),
        layout.max_regions as int == config.regions_per_shard(),
    ensures
        config.num_shards > 0 ==> layout.num_shards <= config.num_shards,
        config.num_shards == 0 ==> layout.num_shards == 1,
        layout.num_shards >= 1 && layout.max_regions >= 1,
        0 < config.num_shards && config.num_shards * config.region_size <= config.total_limit
            ==> layout.num_shards == config.num_shards,
        config.num_shards * config.region_size > config.total_limit ==> layout.max_regions == 1,
        (layout.num_shards * layout.max_regions + layout.num_shards) * config.region_size
            > config.total_limit,
{
    let z = config.region_size as int;
    let limit = config.total_limit as int;
    let regions = config.total_regions();
    let n = config.shard_count();
    let share = config.regions_per_shard();
    lemma_share(config);
    vstd::arithmetic::div_mod::lemma_fundamental_div_mod(limit, z);
    vstd::arithmetic::div_mod::lemma_mod_bound(limit, z);
    vstd::arithmetic::div_mod::lemma_fundamental_div_mod(regions, n);
    vstd::arithmetic::div_mod::lemma_mod_bound(regions, n);
    assert((n * share + n) * z > limit) by (nonlinear_arith)
        requires
            regions < n * share + n,
            limit < z * regions + z,
            z > 0,
    ;
    let asked = config.num_shards as int;
    if asked * z <= limit && asked > regions {
        assert(asked * z >= z * regions + z) by (nonlinear_arith)
            requires
                asked >= regions + 1,
                z > 0,
        ;
    }
    if asked * z > limit {
        assert(asked > regions) by (nonlinear_arith)
            requires
                asked * z > limit,
                limit >= z * regions,
                z > 0,
        ;
        assert(asked > 0) by (nonlinear_arith)
            requires
                asked * z > limit,
                limit > 0,
                z > 0,
        ;
        assert(n == regions);
        vstd::arithmetic::div_mod::lemma_div_by_self(n);
    }
}

/// A forgotten file's blocks leave the queue, and the others stay in it in their order.
pub proof fn other_files_stay_in_the_queue_in_order(
    pending: Seq<(BlockKey, Seq<u8>)>,
    file_id: u64,
)
    ensures
        pending_without(pending, file_id) == pending.filter(
            |x: (BlockKey, Seq<u8>)| x.0.0 != file_id,
        ),
    decreases pending.len(),
{
    reveal(Seq::filter);
    if pending.len() > 0 {
        other_files_stay_in_the_queue_in_order(pending.drop_last(), file_id);
    }
}

/// The room of other files' blocks stays set aside.
pub proof fn other_files_keep_their_room(keys: Seq<BlockKey>, file_id: u64)
    ensures
        keys_without(keys, file_id) == keys.filter(|k: BlockKey| k.0 != file_id),
    decreases keys.len(),
{
    reveal(Seq::filter);
    if keys.len() > 0 {
        other_files_keep_their_room(keys.drop_last(), file_id);
    }
}

/// The queue holds the bytes of its blocks, all together.
pub proof fn queued_bytes_are_those_of_the_blocks(
    pending: Seq<(BlockKey, Seq<u8>)>,
    key: BlockKey,
    data: Seq<u8>,
)
    ensures
        pending_len(Seq::<(BlockKey, Seq<u8>)>::empty()) == 0,
        pending_len(pending.push((key, data))) == pending_len(pending) + data.len(),
{
    assert(pending.push((key, data)).drop_last() =~= pending);
}

/// A block is queued unless the file was given up, the block is larger than a region, or it
/// is written or queued already.
pub proof fn a_block_is_queued_unless_it_is_there(s: SsdState, key: BlockKey, len: int)
    ensures
        s.degraded ==> !s.admits(key, len),
        len > s.region_size ==> !s.admits(key, len),
        s.index.contains_key(key) ==> !s.admits(key, len),
        (exists|i: int| 0 <= i < s.pending.len() && (#[trigger] s.pending[i]).0 == key)
            ==> !s.admits(key, len),
        !s.degraded && len <= s.region_size && !s.index.contains_key(key) && (forall|i: int|
            0 <= i < s.pending.len() ==> (#[trigger] s.pending[i]).0 != key) ==> s.admits(key, len),
{
}

/// Where the active region has room it is used as it is. Otherwise a region is added while the
/// limit allows one, and nothing is dropped; only then is one reclaimed, the coldest by the
/// decayed scores.
pub proof fn a_region_is_reclaimed_only_at_the_limit(s: SsdState, len: int, scores: Seq<u64>)
    requires
        s.sound(),
        !s.degraded,
        0 <= len <= s.region_size,
        scores.len() == s.regions.len(),
    ensures
        ({
            let t = s.ensured(len, scores);
            let fits = s.active is Some && s.regions[s.active->0].write_offset + len
                <= s.region_size;
            &&& fits ==> t == s
            &&& !fits && s.regions.len() < s.max_regions ==> {
                &&& t.index == s.index
                &&& t.regions.len() == s.regions.len() + 1
                &&& t.active == Some(s.regions.len() as int)
                &&& t.regions.last().write_offset == 0 && t.regions.last().keys.len() == 0
            }
            &&& !fits && s.regions.len() >= s.max_regions ==> {
                let v = t.active->0;
                &&& t.regions.len() == s.regions.len()
                &&& 0 <= v < s.regions.len()
                &&& s.regions.len() > 1 ==> s.active != Some(v)
                &&& forall|i: int|
                    0 <= i < s.regions.len() && s.active != Some(i) ==> scores[v]
                        <= #[trigger] scores[i]
                &&& t.regions[v].write_offset == 0 && t.regions[v].keys.len() == 0
                &&& forall|k: BlockKey| #[trigger]
                    t.index.contains_key(k) <==> s.index.contains_key(k)
                        && !s.regions[v].keys.contains(k)
            }
            &&& s.reclaims(len) <==> !fits && s.regions.len() >= s.max_regions
            &&& t.pending == s.pending && t.flushing == s.flushing && t.degraded == s.degraded
        }),
{
    let d = s.rescored(scores);
    lemma_coldest(d.regions, d.active, d.regions.len() as int);
    if !s.has_room(len) && s.regions.len() >= s.max_regions {
        let v = d.victim();
        assert(0 <= v < d.regions.len());
        if s.regions.len() > 1 {
            if s.active == Some(0int) {
                assert(d.active != Some(1int));
            }
            assert(s.active != Some(v));
        }
        assert forall|i: int| 0 <= i < s.regions.len() && s.active != Some(i) implies scores[v]
            <= #[trigger] scores[i] by {
            assert(d.regions[i].score == scores[i]);
            assert(d.regions[v].score <= d.regions[i].score);
        }
    }
}

/// Room for a block is taken from the active region and from no other.
pub proof fn room_is_taken_from_the_active_region(s: SsdState, key: BlockKey, len: int)
    requires
        s.active is Some,
        0 <= s.active->0 < s.regions.len(),
    ensures
        ({
            let t = s.set_aside(key, len);
            let r = s.active->0;
            &&& t.regions[r].write_offset == s.regions[r].write_offset + len
            &&& t.regions[r].score == s.regions[r].score
            &&& t.regions[r].keys.len() == s.regions[r].keys.len() + 1
            &&& t.regions[r].keys.last() == key
            &&& forall|i: int|
                0 <= i < s.regions.len() && i != r ==> #[trigger] t.regions[i] == s.regions[i]
            &&& t.index == s.index && t.pending == s.pending && t.active == s.active
        }),
{
}

/// A written block is found where it was written, if its room is still set aside, and
/// otherwise not; no other block is moved.
pub proof fn a_written_block_is_found_where_it_is(
    s: SsdState,
    key: BlockKey,
    entry: SsdEntry,
    other: BlockKey,
)
    ensures
        ({
            let t = s.recorded(key, entry);
            let r = entry.region as int;
            let kept = r < s.regions.len() && s.regions[r].keys.contains(key) && entry.offset
                + entry.len <= s.regions[r].write_offset;
            &&& kept ==> t.index.contains_key(key) && t.index[key] == entry
            &&& !kept ==> t == s
            &&& other != key ==> (t.index.contains_key(other) <==> s.index.contains_key(other))
            &&& other != key ==> t.index[other] == s.index[other]
            &&& t.regions == s.regions && t.pending == s.pending
        }),
{
}

/// A shard that forgot everything has nothing queued or indexed and no region.
pub proof fn an_emptied_shard_has_nothing(s: SsdState, key: BlockKey)
    ensures
        ({
            let t = s.emptied();
            &&& !t.index.contains_key(key)
            &&& !is_pending(t.pending, key)
            &&& t.regions.len() == 0 && t.active is None
            &&& t.region_size == s.region_size && t.max_regions == s.max_regions
            &&& t.degraded == s.degraded && t.flushing == s.flushing
        }),
{
}

} // verus!
