//! What passes between the tiers: the blocks that leave the memory tier for the SSD tier
//! hold the file's bytes, and so does what the SSD tier gives back.

use vstd::prelude::*;

use crate::cache::block_cache::{
    lives_in, revisited, shard_slot, sound_shard, CacheState, VersionDecision,
};
use crate::cache::blocks::{block_slice, file_bytes};
use crate::cache::coherence::{
    hand_mirrors, lemma_home, lemma_position, publishing_keeps_serving, reconciling_keeps_serving,
    serves,
};
use crate::cache::metrics::Metrics;
use crate::cache::read::lemma_published_settings;
use crate::cache::sieve::{
    appears_in, distinct_keys, evicted_until, eviction_loses_no_block, same_block, BlockKey,
    BlockState, Credit, Slot,
};
use crate::cache::ssd::{
    batch_entry, batch_fits, batch_recorded, batch_written, crc32c_of, lemma_batch_bytes_stay,
    lemma_batch_state, lemma_ensured, lemma_pending_without,
    writing_disturbs_no_other_block, written_at, written_batch_is_served, RegionState, SsdEntry,
    SsdState,
};
use crate::cache::version::FileVersion;

verus! {

/// Those of the blocks that are the file's hold what the file has there.
pub open spec fn blocks_mirror(
    v: Seq<(BlockKey, Seq<u8>)>,
    file_id: u64,
    file: Seq<u8>,
    block_size: u64,
) -> bool {
    forall|i: int|
        0 <= i < v.len() && (#[trigger] v[i]).0.0 == file_id ==> v[i].1 == block_slice(
            file,
            v[i].0.1 as int,
            block_size as int,
        )
}

/// Those of the evicted blocks that are the file's hold what the file has there.
pub open spec fn evictions_mirror(
    out: Seq<Slot>,
    file_id: u64,
    file: Seq<u8>,
    block_size: u64,
) -> bool {
    forall|i: int|
        0 <= i < out.len() && (#[trigger] out[i]).key.0 == file_id ==> out[i].block.data
            == block_slice(file, out[i].key.1 as int, block_size as int)
}

proof fn lemma_revisited_mirror(out: Seq<Slot>, file_id: u64, file: Seq<u8>, block_size: u64)
    requires
        evictions_mirror(out, file_id, file, block_size),
    ensures
        blocks_mirror(revisited(out), file_id, file, block_size),
    decreases out.len(),
{
    if out.len() > 0 {
        let shorter = out.drop_last();
        assert forall|i: int|
            0 <= i < shorter.len() && (#[trigger] shorter[i]).key.0 == file_id implies shorter[i].block.data
            == block_slice(file, shorter[i].key.1 as int, block_size as int) by {
            assert(shorter[i] == out[i]);
        }
        lemma_revisited_mirror(shorter, file_id, file, block_size);
        assert(out[out.len() - 1] == out.last());
    }
}

proof fn lemma_joined_evictions(
    a: Seq<Slot>,
    b: Seq<Slot>,
    file_id: u64,
    file: Seq<u8>,
    block_size: u64,
)
    requires
        evictions_mirror(a, file_id, file, block_size),
        evictions_mirror(b, file_id, file, block_size),
    ensures
        evictions_mirror(a + b, file_id, file, block_size),
{
    let all = a + b;
    assert forall|i: int|
        0 <= i < all.len() && (#[trigger] all[i]).key.0 == file_id implies all[i].block.data
        == block_slice(file, all[i].key.1 as int, block_size as int) by {
        if i < a.len() {
            assert(all[i] == a[i]);
        } else {
            assert(all[i] == b[i - a.len()]);
        }
    }
}

/// A queued block is the one that is found under its key.
proof fn lemma_queued_is_resident(s: CacheState, i: int, j: int)
    requires
        s.sound(),
        0 <= i < s.shards.len(),
        0 <= j < s.shards[i].queue.len(),
    ensures
        s.resident(s.shards[i].queue[j].key),
        s.block(s.shards[i].queue[j].key) == s.shards[i].queue[j].block,
{
    let q = s.shards[i].queue;
    let k = q[j].key;
    assert(sound_shard(s.shards[i]));
    assert(lives_in(q, i, s.shards.len() as int));
    assert(s.home(k) == i);
    assert(q[j].key == k);
    lemma_position(q, k);
}

proof fn lemma_insertion_evicts_the_files(
    s: CacheState,
    key: BlockKey,
    block: BlockState,
    file_id: u64,
    file: Seq<u8>,
)
    requires
        s.sound(),
        serves(s, file_id, file),
        key.0 != file_id || block.data == block_slice(file, key.1 as int, s.block_size as int),
    ensures
        evictions_mirror(s.evicted_by(key, block), file_id, file, s.block_size),
{
    let out = s.evicted_by(key, block);
    lemma_home(s, key);
    let h = s.home(key);
    let sh = s.shards[h];
    let q = sh.queue;
    assert(sound_shard(sh));
    if !s.resident(key) {
        let p = q.push(Slot { key, block });
        assert(distinct_keys(p)) by {
            assert forall|a: int, b: int| 0 <= a < b < p.len() implies (#[trigger] p[a]).key != (
            #[trigger] p[b]).key by {
                if b < q.len() {
                    assert(q[a].key != q[b].key);
                } else {
                    assert(q[a].key != key);
                }
            }
        }
        vstd::arithmetic::div_mod::lemma_div_pos_is_pos(
            s.memory_budget as int,
            s.shards.len() as int,
        );
        eviction_loses_no_block(p, sh.hand, sh.budget);
        assert(out == evicted_until(p, sh.hand, sh.budget).2);
        assert forall|i: int|
            0 <= i < out.len() && (#[trigger] out[i]).key.0 == file_id implies out[i].block.data
            == block_slice(file, out[i].key.1 as int, s.block_size as int) by {
            assert(appears_in(out[i], p));
            let j = choose|j: int|
                0 <= j < p.len() && (#[trigger] p[j]).key == out[i].key && same_block(
                    p[j].block,
                    out[i].block,
                );
            if j < q.len() {
                assert(p[j] == q[j]);
                lemma_queued_is_resident(s, h, j);
                let k = out[i].key;
                assert(k == (file_id, k.1));
                assert(s.resident((file_id, k.1)));
            }
        }
    }
}

/// What putting a block into the memory tier hands to the SSD tier are the file's bytes, as
/// far as it is the file's at all.
pub proof fn insertion_hands_on_the_files_blocks(
    s: CacheState,
    key: BlockKey,
    block: BlockState,
    file_id: u64,
    file: Seq<u8>,
)
    requires
        s.sound(),
        serves(s, file_id, file),
        key.0 != file_id || block.data == block_slice(file, key.1 as int, s.block_size as int),
    ensures
        blocks_mirror(s.admitted(s.evicted_by(key, block)), file_id, file, s.block_size),
{
    lemma_insertion_evicts_the_files(s, key, block, file_id, file);
    lemma_revisited_mirror(s.evicted_by(key, block), file_id, file, s.block_size);
}

/// What publishing a run fetched from the file hands to the SSD tier are the file's bytes,
/// as far as it is the file's at all.
pub proof fn publishing_hands_on_the_files_blocks(
    s: CacheState,
    file_id: u64,
    start: u32,
    run: Seq<u32>,
    end: u32,
    full: Seq<u8>,
    credit: Option<Credit>,
    file: Seq<u8>,
)
    requires
        s.sound(),
        serves(s, file_id, file),
        forall|i: int| 0 <= i < run.len() ==> start <= #[trigger] run[i] <= end,
        full == file_bytes(file, start * s.block_size, (end + 1) * s.block_size),
    ensures
        blocks_mirror(
            s.admitted(s.publish_evictions(file_id, start, run, full, credit)),
            file_id,
            file,
            s.block_size,
        ),
{
    lemma_publishing_evicts_the_files(s, file_id, start, run, end, full, credit, file);
    lemma_revisited_mirror(
        s.publish_evictions(file_id, start, run, full, credit),
        file_id,
        file,
        s.block_size,
    );
}

proof fn lemma_publishing_evicts_the_files(
    s: CacheState,
    file_id: u64,
    start: u32,
    run: Seq<u32>,
    end: u32,
    full: Seq<u8>,
    credit: Option<Credit>,
    file: Seq<u8>,
)
    requires
        s.sound(),
        serves(s, file_id, file),
        forall|i: int| 0 <= i < run.len() ==> start <= #[trigger] run[i] <= end,
        full == file_bytes(file, start * s.block_size, (end + 1) * s.block_size),
    ensures
        evictions_mirror(
            s.publish_evictions(file_id, start, run, full, credit),
            file_id,
            file,
            s.block_size,
        ),
    decreases run.len(),
{
    if run.len() > 0 {
        let shorter = run.drop_last();
        let b = run.last();
        let block = s.run_block(start, b, full, credit);
        let t = s.published(file_id, start, shorter, full, credit);
        assert forall|i: int| 0 <= i < shorter.len() implies start <= #[trigger] shorter[i]
            <= end by {
            assert(shorter[i] == run[i]);
        }
        lemma_publishing_evicts_the_files(s, file_id, start, shorter, end, full, credit, file);
        publishing_keeps_serving(s, file_id, start, shorter, end, full, credit, file);
        lemma_published_settings(s, file_id, start, shorter, full, credit);
        assert(start <= run[run.len() - 1] <= end);
        crate::cache::blocks::cut_run_gives_file_blocks(
            file,
            full,
            start as int,
            end as int,
            b as int,
            s.block_size as int,
        );
        lemma_insertion_evicts_the_files(t, (file_id, b), block, file_id, file);
        lemma_joined_evictions(
            s.publish_evictions(file_id, start, shorter, full, credit),
            t.evicted_by((file_id, b), block),
            file_id,
            file,
            s.block_size,
        );
    }
}

/// What a completed fetch or read-ahead of the file hands to the SSD tier are the file's
/// bytes, as far as it is the file's at all, if the cache served the file before or has just
/// learned that it changed. What is counted makes no difference.
pub proof fn completed_fetch_hands_on_the_files_blocks(
    s: CacheState,
    counted: Metrics,
    file_id: u64,
    run: Seq<u32>,
    full: Seq<u8>,
    version: FileVersion,
    credit: Option<Credit>,
    file: Seq<u8>,
)
    requires
        s.sound(),
        run.len() > 0,
        forall|i: int| 0 <= i < run.len() ==> run[0] <= #[trigger] run[i] <= run.last(),
        full == file_bytes(file, run[0] * s.block_size, (run.last() + 1) * s.block_size),
        serves(s, file_id, file) || s.files.decision(file_id, version)
            == VersionDecision::Overwritten,
    ensures
        ({
            let t = s.with_metrics(counted).reconciled(file_id, version);
            blocks_mirror(
                t.admitted(t.publish_evictions(file_id, run[0], run, full, credit)),
                file_id,
                file,
                s.block_size,
            )
        }),
{
    let c = s.with_metrics(counted);
    assert(c.sound());
    if serves(s, file_id, file) {
        assert forall|b: u32| #[trigger] c.resident((file_id, b)) implies c.block(
            (file_id, b),
        ).data == block_slice(file, b as int, c.block_size as int) by {
            assert(s.resident((file_id, b)));
        }
    }
    reconciling_keeps_serving(c, file_id, version, file);
    publishing_hands_on_the_files_blocks(
        c.reconciled(file_id, version),
        file_id,
        run[0],
        run,
        run.last(),
        full,
        credit,
        file,
    );
}

/// What changing the memory budget hands to the SSD tier are the file's bytes, as far as it
/// is the file's at all.
pub proof fn resizing_hands_on_the_files_blocks(
    s: CacheState,
    bytes: u64,
    file_id: u64,
    file: Seq<u8>,
)
    requires
        s.sound(),
        serves(s, file_id, file),
    ensures
        ({
            let n = s.shards.len() as int;
            blocks_mirror(
                s.admitted(s.resize_evictions(n, bytes as int / n)),
                file_id,
                file,
                s.block_size,
            )
        }),
{
    let n = s.shards.len() as int;
    let per_shard = bytes as int / n;
    vstd::arithmetic::div_mod::lemma_div_pos_is_pos(bytes as int, n);
    lemma_resizing_evicts_the_files(s, n, per_shard, file_id, file);
    lemma_revisited_mirror(s.resize_evictions(n, per_shard), file_id, file, s.block_size);
}

proof fn lemma_resizing_evicts_the_files(
    s: CacheState,
    n: int,
    per_shard: int,
    file_id: u64,
    file: Seq<u8>,
)
    requires
        s.sound(),
        serves(s, file_id, file),
        0 <= n <= s.shards.len(),
        0 <= per_shard,
    ensures
        evictions_mirror(s.resize_evictions(n, per_shard), file_id, file, s.block_size),
    decreases n,
{
    if n > 0 {
        lemma_resizing_evicts_the_files(s, n - 1, per_shard, file_id, file);
        let sh = s.shards[n - 1];
        let q = sh.queue;
        let out = evicted_until(q, sh.hand, per_shard).2;
        assert(sound_shard(sh));
        eviction_loses_no_block(q, sh.hand, per_shard);
        assert forall|i: int|
            0 <= i < out.len() && (#[trigger] out[i]).key.0 == file_id implies out[i].block.data
            == block_slice(file, out[i].key.1 as int, s.block_size as int) by {
            assert(appears_in(out[i], q));
            let j = choose|j: int|
                0 <= j < q.len() && (#[trigger] q[j]).key == out[i].key && same_block(
                    q[j].block,
                    out[i].block,
                );
            lemma_queued_is_resident(s, n - 1, j);
            let k = out[i].key;
            assert(k == (file_id, k.1));
            assert(s.resident((file_id, k.1)));
        }
        lemma_joined_evictions(
            s.resize_evictions(n - 1, per_shard),
            out,
            file_id,
            file,
            s.block_size,
        );
    }
}

/// The entry names bytes that were written: within its region, and within the file.
pub open spec fn in_place(s: SsdState, disk: Seq<u8>, e: SsdEntry) -> bool {
    &&& e.region < s.regions.len()
    &&& e.offset + e.len <= s.regions[e.region as int].write_offset
    &&& s.file_offset(e.region as int, e.offset as int) + e.len <= disk.len()
}

/// Every block of the file that an SSD shard has indexed is on its disk with what the file
/// has there, under its checksum; and so is every block of it that is queued.
pub open spec fn ssd_serves(
    s: SsdState,
    disk: Seq<u8>,
    file_id: u64,
    file: Seq<u8>,
    block_size: u64,
) -> bool {
    &&& forall|b: u32| #[trigger]
        s.index.contains_key((file_id, b)) ==> {
            let e = s.index[(file_id, b)];
            &&& in_place(s, disk, e)
            &&& s.stored(disk, e) == block_slice(file, b as int, block_size as int)
            &&& crc32c_of(s.stored(disk, e)) == e.crc
        }
    &&& blocks_mirror(s.pending, file_id, file, block_size)
}

/// Queueing a block keeps an SSD shard serving a file, if the block is another file's or
/// holds what the file has there.
pub proof fn queueing_keeps_the_ssd_serving(
    s: SsdState,
    disk: Seq<u8>,
    key: BlockKey,
    data: Seq<u8>,
    flushing: bool,
    file_id: u64,
    file: Seq<u8>,
    block_size: u64,
)
    requires
        ssd_serves(s, disk, file_id, file, block_size),
        key.0 != file_id || data == block_slice(file, key.1 as int, block_size as int),
    ensures
        ssd_serves(
            SsdState { pending: s.pending.push((key, data)), flushing, ..s },
            disk,
            file_id,
            file,
            block_size,
        ),
{
    let t = SsdState { pending: s.pending.push((key, data)), flushing, ..s };
    assert forall|b: u32| #[trigger] t.index.contains_key((file_id, b)) implies {
        let e = t.index[(file_id, b)];
        &&& in_place(t, disk, e)
        &&& t.stored(disk, e) == block_slice(file, b as int, block_size as int)
        &&& crc32c_of(t.stored(disk, e)) == e.crc
    } by {
        assert(s.index.contains_key((file_id, b)));
    }
}

/// While blocks of a batch are written, what stays indexed stays where it is.
pub(crate) proof fn lemma_indexed_bytes_stay(
    s: SsdState,
    disk: Seq<u8>,
    batch: Seq<(BlockKey, Seq<u8>)>,
    scores: Seq<Seq<u64>>,
    n: int,
    k: BlockKey,
)
    requires
        batch_fits(s, disk, batch, scores),
        0 <= n <= batch.len(),
        s.index.contains_key(k) ==> in_place(s, disk, s.index[k]),
    ensures
        ({
            let (t, f) = batch_written(s, disk, batch, scores, n);
            &&& t.pending == s.pending
            &&& t.index.contains_key(k) ==> {
                &&& s.index.contains_key(k)
                &&& t.index[k] == s.index[k]
                &&& in_place(t, f, t.index[k])
                &&& t.stored(f, t.index[k]) == s.stored(disk, s.index[k])
            }
        }),
    decreases n,
{
    if n > 0 {
        lemma_indexed_bytes_stay(s, disk, batch, scores, n - 1, k);
        let (t, f) = batch_written(s, disk, batch, scores, n - 1);
        let (key, data) = batch[n - 1];
        let len = data.len() as int;
        let u = t.ensured(len, scores[n - 1]);
        let at = u.file_offset(u.active->0, u.regions[u.active->0].write_offset);
        let w = u.set_aside(key, len);
        lemma_batch_state(s, disk, batch, scores, n - 1);
        assert(scores[n - 1].len() == t.regions.len());
        assert(batch[n - 1].1.len() <= s.region_size);
        lemma_ensured(t, len, scores[n - 1]);
        if w.index.contains_key(k) {
            assert(u.index.contains_key(k));
            assert(t.index.contains_key(k));
            let e = t.index[k];
            let r = e.region as int;
            assert(t.holds_room(k, r));
            if t.reclaims(len) {
                let d = t.rescored(scores[n - 1]);
                assert(d.regions[r].keys == t.regions[r].keys);
                assert(d.victim() != r);
            }
            writing_disturbs_no_other_block(t, data, scores[n - 1], f, e);
            assert(w.stored(written_at(f, at, data), e) == t.stored(f, e));
        }
    }
}

/// What is indexed after a batch was, or is a block of the batch that kept its room.
proof fn lemma_indexed_after_batch(
    s: SsdState,
    disk: Seq<u8>,
    batch: Seq<(BlockKey, Seq<u8>)>,
    scores: Seq<Seq<u64>>,
    n: int,
    k: BlockKey,
)
    requires
        0 <= n <= batch.len(),
    ensures
        ({
            let t = batch_written(s, disk, batch, scores, batch.len() as int).0;
            let u = batch_recorded(s, disk, batch, scores, n);
            &&& u == (SsdState { index: u.index, ..t })
            &&& u.index.contains_key(k) ==> (t.index.contains_key(k) && u.index[k] == t.index[k])
                || exists|i: int|
                0 <= i < n && (#[trigger] batch[i]).0 == k && u.index[k] == batch_entry(
                    s,
                    disk,
                    batch,
                    scores,
                    i,
                ) && t.holds_room(k, u.index[k].region as int)
        }),
    decreases n,
{
    if n > 0 {
        lemma_indexed_after_batch(s, disk, batch, scores, n - 1, k);
        let u = batch_recorded(s, disk, batch, scores, n);
        if u.index.contains_key(k) && batch[n - 1].0 == k {
            assert(batch[n - 1].0 == k);
        }
    }
}

/// Writing a batch of blocks and indexing them keeps an SSD shard serving a file, if those
/// of the blocks that are the file's hold what the file has there.
pub proof fn writing_a_batch_keeps_the_ssd_serving(
    s: SsdState,
    disk: Seq<u8>,
    batch: Seq<(BlockKey, Seq<u8>)>,
    scores: Seq<Seq<u64>>,
    file_id: u64,
    file: Seq<u8>,
    block_size: u64,
)
    requires
        batch_fits(s, disk, batch, scores),
        ssd_serves(s, disk, file_id, file, block_size),
        blocks_mirror(batch, file_id, file, block_size),
    ensures
        ({
            let n = batch.len() as int;
            ssd_serves(
                batch_recorded(s, disk, batch, scores, n),
                batch_written(s, disk, batch, scores, n).1,
                file_id,
                file,
                block_size,
            )
        }),
{
    let n = batch.len() as int;
    let (t, f) = batch_written(s, disk, batch, scores, n);
    let u = batch_recorded(s, disk, batch, scores, n);
    assert forall|b: u32| #[trigger] u.index.contains_key((file_id, b)) implies {
        let e = u.index[(file_id, b)];
        &&& in_place(u, f, e)
        &&& u.stored(f, e) == block_slice(file, b as int, block_size as int)
        &&& crc32c_of(u.stored(f, e)) == e.crc
    } by {
        let k = (file_id, b);
        let e = u.index[k];
        lemma_indexed_bytes_stay(s, disk, batch, scores, n, k);
        lemma_indexed_after_batch(s, disk, batch, scores, n, k);
        if t.index.contains_key(k) && e == t.index[k] {
            assert(s.index.contains_key((file_id, b)));
            assert(u.stored(f, e) == t.stored(f, e));
        } else {
            let i = choose|i: int|
                0 <= i < n && (#[trigger] batch[i]).0 == k && e == batch_entry(
                    s,
                    disk,
                    batch,
                    scores,
                    i,
                ) && t.holds_room(k, e.region as int);
            lemma_batch_bytes_stay(s, disk, batch, scores, i, n);
            written_batch_is_served(s, disk, batch, scores, i);
            assert(batch[i].0.0 == file_id);
        }
    }
    lemma_indexed_bytes_stay(s, disk, batch, scores, n, (file_id, 0));
    lemma_indexed_after_batch(s, disk, batch, scores, n, (file_id, 0));
}

/// Forgetting a file keeps an SSD shard serving every other, and leaves it serving the
/// forgotten one as it is now, whatever that is.
pub proof fn forgetting_keeps_the_ssd_serving(
    s: SsdState,
    disk: Seq<u8>,
    forgotten: u64,
    file_id: u64,
    file: Seq<u8>,
    block_size: u64,
)
    requires
        forgotten == file_id || ssd_serves(s, disk, file_id, file, block_size),
    ensures
        ssd_serves(s.forgotten(forgotten), disk, file_id, file, block_size),
        ssd_serves(s.emptied(), disk, file_id, file, block_size),
{
    let t = s.forgotten(forgotten);
    lemma_pending_without(s.pending, forgotten);
    assert forall|i: int|
        0 <= i < t.pending.len() && (#[trigger] t.pending[i]).0.0 == file_id implies t.pending[i].1
        == block_slice(file, t.pending[i].0.1 as int, block_size as int) by {
        let j = choose|j: int| 0 <= j < s.pending.len() && #[trigger] s.pending[j] == t.pending[i];
        assert(s.pending[j].0.0 == file_id);
    }
    assert forall|b: u32| #[trigger] t.index.contains_key((file_id, b)) implies {
        let e = t.index[(file_id, b)];
        &&& in_place(t, disk, e)
        &&& t.stored(disk, e) == block_slice(file, b as int, block_size as int)
        &&& crc32c_of(t.stored(disk, e)) == e.crc
    } by {
        assert(s.index.contains_key((file_id, b)));
    }
}

/// Checking a block that was read, whether it passes or not, keeps an SSD shard serving a
/// file.
pub proof fn reading_keeps_the_ssd_serving(
    s: SsdState,
    disk: Seq<u8>,
    key: BlockKey,
    region: int,
    score: u64,
    file_id: u64,
    file: Seq<u8>,
    block_size: u64,
)
    requires
        ssd_serves(s, disk, file_id, file, block_size),
        0 <= region < s.regions.len(),
    ensures
        ssd_serves(
            SsdState {
                regions: s.regions.update(region, RegionState { score, ..s.regions[region] }),
                ..s
            },
            disk,
            file_id,
            file,
            block_size,
        ),
        ssd_serves(
            SsdState { index: s.index.remove(key), ..s },
            disk,
            file_id,
            file,
            block_size,
        ),
{
    let hit = SsdState {
        regions: s.regions.update(region, RegionState { score, ..s.regions[region] }),
        ..s
    };
    let dropped = SsdState { index: s.index.remove(key), ..s };
    assert forall|b: u32| #[trigger] hit.index.contains_key((file_id, b)) implies {
        let e = hit.index[(file_id, b)];
        &&& in_place(hit, disk, e)
        &&& hit.stored(disk, e) == block_slice(file, b as int, block_size as int)
        &&& crc32c_of(hit.stored(disk, e)) == e.crc
    } by {
        assert(s.index.contains_key((file_id, b)));
    }
    assert forall|b: u32| #[trigger] dropped.index.contains_key((file_id, b)) implies {
        let e = dropped.index[(file_id, b)];
        &&& in_place(dropped, disk, e)
        &&& dropped.stored(disk, e) == block_slice(file, b as int, block_size as int)
        &&& crc32c_of(dropped.stored(disk, e)) == e.crc
    } by {
        assert(s.index.contains_key((file_id, b)));
    }
}

/// The SSD shard, with its disk, that a block lives in.
pub open spec fn ssd_home(
    tier: Seq<(SsdState, Seq<u8>)>,
    key: BlockKey,
) -> (SsdState, Seq<u8>) {
    tier[shard_slot(key, tier.len() as int)]
}

/// The blocks that an SSD tier has of those asked for.
pub open spec fn found_on_ssd(
    tier: Seq<(SsdState, Seq<u8>)>,
    file_id: u64,
    blocks: Seq<u32>,
) -> Map<u32, Seq<u8>> {
    Map::new(
        |b: u32| blocks.contains(b) && ssd_home(tier, (file_id, b)).0.index.contains_key(
            (file_id, b),
        ),
        |b: u32|
            {
                let (s, disk) = ssd_home(tier, (file_id, b));
                s.stored(disk, s.index[(file_id, b)])
            },
    )
}

/// What a read takes from an SSD tier whose shards all serve a file are the file's bytes.
pub proof fn ssd_gives_the_files_blocks(
    tier: Seq<(SsdState, Seq<u8>)>,
    file_id: u64,
    blocks: Seq<u32>,
    file: Seq<u8>,
    block_size: u64,
)
    requires
        tier.len() > 0,
        forall|i: int|
            0 <= i < tier.len() ==> ssd_serves(
                (#[trigger] tier[i]).0,
                tier[i].1,
                file_id,
                file,
                block_size,
            ),
    ensures
        hand_mirrors(found_on_ssd(tier, file_id, blocks), file, block_size),
{
    let found = found_on_ssd(tier, file_id, blocks);
    assert forall|b: u32| #[trigger] found.contains_key(b) implies found[b] == block_slice(
        file,
        b as int,
        block_size as int,
    ) by {
        let k = (file_id, b);
        let i = shard_slot(k, tier.len() as int);
        vstd::arithmetic::div_mod::lemma_mod_bound(
            crate::cache::block_cache::key_hash(k) as int,
            tier.len() as int,
        );
        assert(ssd_serves(tier[i].0, tier[i].1, file_id, file, block_size));
        assert(tier[i].0.index.contains_key((file_id, b)));
    }
}

} // verus!
