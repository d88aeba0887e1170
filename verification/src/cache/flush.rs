//! A flush of an SSD shard from its first block to its last: what was queued is taken, given
//! room, written and indexed, and the round is ended.

use vstd::prelude::*;

use crate::cache::metrics::Metrics;
use crate::cache::sieve::BlockKey;
use crate::cache::ssd::{
    batch_entry, batch_fits, batch_recorded, batch_written, crc32c_of, is_pending,
    written_batch_is_served, SsdState,
};
use crate::cache::tiers::{in_place, lemma_indexed_bytes_stay};

verus! {

impl SsdState {
    /// The shard once its queue was taken for writing.
    pub open spec fn batch_taken(self) -> SsdState {
        SsdState { pending: Seq::empty(), ..self }
    }

    /// The shard and its file after a flush during which nothing was queued. The regions'
    /// scores before each block are given.
    pub open spec fn flushed(self, disk: Seq<u8>, scores: Seq<Seq<u64>>) -> (SsdState, Seq<u8>) {
        let s = self.batch_taken();
        let n = self.pending.len() as int;
        (
            SsdState { flushing: false, ..batch_recorded(s, disk, self.pending, scores, n) },
            batch_written(s, disk, self.pending, scores, n).1,
        )
    }

    /// The first `n` queued blocks find room without a region being reclaimed.
    pub open spec fn has_room_for_batch(
        self,
        disk: Seq<u8>,
        scores: Seq<Seq<u64>>,
        n: int,
    ) -> bool {
        forall|j: int|
            0 <= j < n ==> !(#[trigger] batch_written(
                self.batch_taken(),
                disk,
                self.pending,
                scores,
                j,
            )).0.reclaims(self.pending[j].1.len() as int)
    }
}

/// The counters after the first `n` blocks of a batch were given room: each region that was
/// reclaimed for one counts.
pub open spec fn rooms_counted(
    m: Metrics,
    s: SsdState,
    disk: Seq<u8>,
    batch: Seq<(BlockKey, Seq<u8>)>,
    scores: Seq<Seq<u64>>,
    n: int,
) -> Metrics
    decreases n,
{
    if n <= 0 {
        m
    } else {
        let before = rooms_counted(m, s, disk, batch, scores, n - 1);
        if batch_written(s, disk, batch, scores, n - 1).0.reclaims(batch[n - 1].1.len() as int) {
            Metrics {
                ssd_region_evictions: before.ssd_region_evictions.wrapping_add(1),
                ..before
            }
        } else {
            before
        }
    }
}

/// The counters after `n` written blocks were taken in.
pub open spec fn writes_counted(m: Metrics, n: int) -> Metrics
    decreases n,
{
    if n <= 0 {
        m
    } else {
        let before = writes_counted(m, n - 1);
        Metrics { ssd_writes: before.ssd_writes.wrapping_add(1), ..before }
    }
}

proof fn lemma_rooms_counted(
    m: Metrics,
    s: SsdState,
    disk: Seq<u8>,
    scores: Seq<Seq<u64>>,
    n: int,
)
    requires
        0 <= n <= s.pending.len(),
        s.has_room_for_batch(disk, scores, s.pending.len() as int),
    ensures
        rooms_counted(m, s.batch_taken(), disk, s.pending, scores, n) == m,
        batch_written(s.batch_taken(), disk, s.pending, scores, n).0.index == s.index,
    decreases n,
{
    if n > 0 {
        lemma_rooms_counted(m, s, disk, scores, n - 1);
        let t = batch_written(s.batch_taken(), disk, s.pending, scores, n - 1);
        assert(!t.0.reclaims(s.pending[n - 1].1.len() as int));
    }
}

proof fn lemma_writes_counted(m: Metrics, n: int)
    requires
        0 <= n,
    ensures
        writes_counted(m, n) == (Metrics { ssd_writes: writes_counted(m, n).ssd_writes, ..m }),
        writes_counted(m, n).ssd_writes as int == (m.ssd_writes + n) % 0x1_0000_0000_0000_0000,
    decreases n,
{
    if n > 0 {
        lemma_writes_counted(m, n - 1);
        let x = m.ssd_writes + n - 1;
        assert((x + 1) % 0x1_0000_0000_0000_0000 == (x % 0x1_0000_0000_0000_0000 + 1)
            % 0x1_0000_0000_0000_0000) by (nonlinear_arith);
    }
}

/// A block that is not of the batch is indexed as before it.
proof fn lemma_others_stay_indexed(
    s: SsdState,
    disk: Seq<u8>,
    scores: Seq<Seq<u64>>,
    n: int,
    k: BlockKey,
)
    requires
        0 <= n <= s.pending.len(),
        !is_pending(s.pending, k),
    ensures
        ({
            let c = s.batch_taken();
            let t = batch_written(c, disk, s.pending, scores, s.pending.len() as int).0;
            let u = batch_recorded(c, disk, s.pending, scores, n);
            &&& u == (SsdState { index: u.index, ..t })
            &&& u.index.contains_key(k) == t.index.contains_key(k)
            &&& u.index.contains_key(k) ==> u.index[k] == t.index[k]
        }),
    decreases n,
{
    if n > 0 {
        lemma_others_stay_indexed(s, disk, scores, n - 1, k);
        assert(s.pending[n - 1].0 != k);
    }
}

/// After a flush that found room for every queued block and during which nothing was queued,
/// nothing is queued and no flush is under way; every block that was queued is found where
/// its bytes are, under their checksum; every block that was found before is found with the
/// same bytes; each queued block counts as a write, and no region as reclaimed.
pub proof fn a_flush_makes_every_queued_block_readable(
    s: SsdState,
    disk: Seq<u8>,
    scores: Seq<Seq<u64>>,
    m: Metrics,
)
    requires
        batch_fits(s.batch_taken(), disk, s.pending, scores),
        s.has_room_for_batch(disk, scores, s.pending.len() as int),
        forall|i: int|
            0 <= i < s.pending.len() ==> !s.index.contains_key((#[trigger] s.pending[i]).0),
    ensures
        ({
            let n = s.pending.len() as int;
            let (t, f) = s.flushed(disk, scores);
            let rooms = rooms_counted(m, s.batch_taken(), disk, s.pending, scores, n);
            let counted = writes_counted(rooms, n);
            &&& t.pending.len() == 0
            &&& !t.flushing
            &&& forall|i: int|
                0 <= i < n ==> {
                    let (k, data) = #[trigger] s.pending[i];
                    &&& t.index.contains_key(k)
                    &&& t.stored(f, t.index[k]) == data
                    &&& crc32c_of(t.stored(f, t.index[k])) == t.index[k].crc
                }
            &&& forall|k: BlockKey| #[trigger]
                s.index.contains_key(k) && in_place(s, disk, s.index[k]) ==> {
                    &&& t.index.contains_key(k)
                    &&& t.index[k] == s.index[k]
                    &&& t.stored(f, t.index[k]) == s.stored(disk, s.index[k])
                }
            &&& counted.ssd_writes as int == (m.ssd_writes + n) % 0x1_0000_0000_0000_0000
            &&& counted == (Metrics { ssd_writes: counted.ssd_writes, ..m })
        }),
{
    let n = s.pending.len() as int;
    let c = s.batch_taken();
    let (t, f) = s.flushed(disk, scores);
    let u = batch_recorded(c, disk, s.pending, scores, n);
    let w = batch_written(c, disk, s.pending, scores, n).0;
    lemma_rooms_counted(m, s, disk, scores, n);
    lemma_writes_counted(m, n);
    assert(t.pending.len() == 0) by {
        lemma_batch_pending(c, disk, s.pending, scores, n);
    }
    assert forall|i: int| 0 <= i < n implies {
        let (k, data) = #[trigger] s.pending[i];
        &&& t.index.contains_key(k)
        &&& t.stored(f, t.index[k]) == data
        &&& crc32c_of(t.stored(f, t.index[k])) == t.index[k].crc
    } by {
        written_batch_is_served(c, disk, s.pending, scores, i);
        let e = batch_entry(c, disk, s.pending, scores, i);
        assert(w.holds_room(s.pending[i].0, e.region as int));
        assert(t.stored(f, e) == u.stored(f, e));
    }
    assert forall|k: BlockKey| #[trigger]
        s.index.contains_key(k) && in_place(s, disk, s.index[k]) implies {
        &&& t.index.contains_key(k)
        &&& t.index[k] == s.index[k]
        &&& t.stored(f, t.index[k]) == s.stored(disk, s.index[k])
    } by {
        if is_pending(s.pending, k) {
            let i = choose|i: int| 0 <= i < s.pending.len() && (#[trigger] s.pending[i]).0 == k;
            assert(!s.index.contains_key(s.pending[i].0));
        }
        lemma_others_stay_indexed(s, disk, scores, n, k);
        assert(in_place(c, disk, c.index[k]));
        lemma_indexed_bytes_stay(c, disk, s.pending, scores, n, k);
        assert(c.stored(disk, s.index[k]) == s.stored(disk, s.index[k]));
        assert(t.stored(f, s.index[k]) == w.stored(f, s.index[k]));
    }
}

/// Writing and indexing a batch queue nothing.
proof fn lemma_batch_pending(
    s: SsdState,
    disk: Seq<u8>,
    batch: Seq<(BlockKey, Seq<u8>)>,
    scores: Seq<Seq<u64>>,
    n: int,
)
    ensures
        batch_recorded(s, disk, batch, scores, n).pending == s.pending,
    decreases n,
{
    if n > 0 {
        lemma_batch_pending(s, disk, batch, scores, n - 1);
    } else {
        lemma_written_pending(s, disk, batch, scores, batch.len() as int);
    }
}

proof fn lemma_written_pending(
    s: SsdState,
    disk: Seq<u8>,
    batch: Seq<(BlockKey, Seq<u8>)>,
    scores: Seq<Seq<u64>>,
    n: int,
)
    ensures
        batch_written(s, disk, batch, scores, n).0.pending == s.pending,
    decreases n,
{
    if n > 0 {
        lemma_written_pending(s, disk, batch, scores, n - 1);
    }
}

} // verus!
