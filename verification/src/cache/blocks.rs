//! Block arithmetic: which blocks a set of byte ranges touches, how missing
//! blocks are grouped into upstream fetches, how a fetched run is cut into
//! blocks, and how a requested range is put together from blocks.

use std::collections::HashMap;
use std::ops::Range;

use bytes::{Bytes, BytesMut};
use vstd::prelude::*;

use crate::cache::bytes_ops::{
    buffer_extend, buffer_freeze, buffer_with_capacity, bytes_empty, bytes_len, bytes_slice,
    content, written,
};
use crate::cache::config::MAX_BLOCK_SIZE;
use crate::cache::error::CacheError;

verus! {

broadcast use vstd::std_specs::hash::group_hash_axioms;

/// The index of the block that byte `offset` lies in.
pub open spec fn block_of(offset: u64, block_size: u64) -> u32 {
    (offset / block_size) as u32
}

/// Block `b` is one of those that the range `r` touches.
pub open spec fn touches(r: Range<u64>, block_size: u64, b: u32) -> bool {
    &&& r.start < r.end
    &&& block_of(r.start, block_size) <= b <= block_of((r.end - 1) as u64, block_size)
}

/// The numbers increase strictly from left to right.
pub open spec fn increasing(s: Seq<u32>) -> bool {
    forall|i: int, j: int| 0 <= i < j < s.len() ==> s[i] < s[j]
}

/// Adds `b` to a strictly increasing list, keeping it so.
pub(crate) fn insert_increasing(v: &mut Vec<u32>, b: u32)
    requires
        increasing(old(v)@),
    ensures
        increasing(final(v)@),
        forall|x: u32| #[trigger] final(v)@.contains(x) <==> (old(v)@.contains(x) || x == b),
{
    let ghost before = v@;
    let mut i: usize = v.len();
    while i > 0 && v[i - 1] >= b
        invariant
            i <= v@.len(),
            v@ == before,
            increasing(v@),
            forall|j: int| i <= j < v@.len() ==> v@[j] >= b,
        decreases i,
    {
        i = i - 1;
    }
    if i < v.len() && v[i] == b {
        assert(before.contains(b));
        return;
    }
    v.insert(i, b);
    proof {
        assert forall|x: u32| #[trigger] v@.contains(x) <==> (before.contains(x) || x == b) by {
            if before.contains(x) {
                let j = choose|j: int| 0 <= j < before.len() && before[j] == x;
                if j < i {
                    assert(v@[j] == x);
                } else {
                    assert(v@[j + 1] == x);
                }
            }
            if x == b {
                assert(v@[i as int] == x);
            }
            if v@.contains(x) {
                let j = choose|j: int| 0 <= j < v@.len() && v@[j] == x;
                if j < i {
                    assert(before[j] == x);
                } else if j > i {
                    assert(before[j - 1] == x);
                }
            }
        }
    }
}

/// The blocks touched by any of `ranges`, in increasing order, each once.
pub fn needed_blocks(ranges: &[Range<u64>], block_size: u64) -> (needed: Vec<u32>)
    requires
        block_size > 0,
    ensures
        increasing(needed@),
        forall|b: u32|
            needed@.contains(b) <==> exists|i: int|
                0 <= i < ranges@.len() && touches(#[trigger] ranges@[i], block_size, b),
{
    let mut needed: Vec<u32> = Vec::new();
    let mut k: usize = 0;
    while k < ranges.len()
        invariant
            block_size > 0,
            k <= ranges@.len(),
            increasing(needed@),
            forall|b: u32|
                needed@.contains(b) <==> exists|i: int|
                    0 <= i < k && touches(#[trigger] ranges@[i], block_size, b),
        decreases ranges@.len() - k,
    {
        let start: u64 = ranges[k].start;
        let end: u64 = ranges[k].end;
        let ghost before = needed@;
        if start < end {
            let first: u32 = #[verifier::truncate] ((start / block_size) as u32);
            let last: u32 = #[verifier::truncate] (((end - 1) / block_size) as u32);
            assert(first == block_of(start, block_size));
            assert(last == block_of((end - 1) as u64, block_size));
            let mut b: u64 = first as u64;
            while b <= last as u64
                invariant
                    first <= b <= u32::MAX + 1,
                    b <= last + 1 || b == first,
                    increasing(needed@),
                    forall|x: u32|
                        #[trigger] needed@.contains(x) <==> (before.contains(x) || (first <= x < b
                            && x <= last)),
                decreases last + 1 - b,
            {
                insert_increasing(&mut needed, b as u32);
                b = b + 1;
            }
            assert(forall|x: u32|
                #[trigger] needed@.contains(x) <==> (before.contains(x) || first <= x <= last));
        }
        proof {
            assert forall|b: u32|
                needed@.contains(b) <==> exists|i: int|
                    0 <= i < k + 1 && touches(#[trigger] ranges@[i], block_size, b) by {
                assert(needed@.contains(b) <==> before.contains(b) || touches(
                    ranges@[k as int],
                    block_size,
                    b,
                ));
                if before.contains(b) {
                    let i = choose|i: int|
                        0 <= i < k && touches(#[trigger] ranges@[i], block_size, b);
                    assert(touches(ranges@[i], block_size, b));
                }
            }
        }
        k = k + 1;
    }
    needed
}

/// The runs as sequences of block indices.
pub open spec fn run_views(runs: Seq<Vec<u32>>) -> Seq<Seq<u32>> {
    Seq::new(runs.len(), |i: int| runs[i]@)
}

/// The runs put one behind the other.
pub open spec fn joined(runs: Seq<Seq<u32>>) -> Seq<u32>
    decreases runs.len(),
{
    if runs.len() == 0 {
        Seq::empty()
    } else {
        joined(runs.drop_last()) + runs.last()
    }
}

/// The numbers follow each other without a gap.
pub open spec fn consecutive(run: Seq<u32>) -> bool {
    forall|i: int| 0 <= i < run.len() ==> #[trigger] run[i] == run[0] + i
}

/// The most blocks that one run may hold.
pub open spec fn run_cap(max_blocks: u32) -> int {
    if max_blocks == 0 {
        1
    } else {
        max_blocks as int
    }
}

/// `runs` splits `sorted` into runs of consecutive numbers, each as long as it
/// can be: a run ends only at a gap, at the cap, or at the end of the list.
pub open spec fn is_coalesced(sorted: Seq<u32>, max_blocks: u32, runs: Seq<Seq<u32>>) -> bool {
    &&& joined(runs) == sorted
    &&& forall|i: int|
        0 <= i < runs.len() ==> 0 < (#[trigger] runs[i]).len() <= run_cap(max_blocks)
            && consecutive(runs[i])
    &&& forall|i: int|
        #![trigger runs[i]]
        0 < i < runs.len() ==> runs[i][0] != runs[i - 1].last() + 1 || runs[i - 1].len() >= run_cap(
            max_blocks,
        )
}

/// Groups block indices into runs of consecutive integers, splitting any run
/// longer than `max_blocks` so that no upstream fetch exceeds the cap.
pub fn coalesce_runs(sorted: &[u32], max_blocks: u32) -> (runs: Vec<Vec<u32>>)
    requires
        forall|i: int| 0 <= i < sorted@.len() - 1 ==> (#[trigger] sorted@[i]) < u32::MAX,
    ensures
        is_coalesced(sorted@, max_blocks, run_views(runs@)),
{
    let mut runs: Vec<Vec<u32>> = Vec::new();
    let mut cur: Vec<u32> = Vec::new();
    let mut k: usize = 0;
    assert(sorted@.subrange(0, 0) == Seq::<u32>::empty());
    while k < sorted.len()
        invariant
            k <= sorted@.len(),
            forall|i: int| 0 <= i < sorted@.len() - 1 ==> (#[trigger] sorted@[i]) < u32::MAX,
            joined(run_views(runs@)) + cur@ == sorted@.subrange(0, k as int),
            (cur@.len() == 0) == (k == 0),
            k == 0 ==> runs@.len() == 0,
            cur@.len() <= run_cap(max_blocks),
            consecutive(cur@),
            is_coalesced(joined(run_views(runs@)), max_blocks, run_views(runs@)),
            cur@.len() > 0 && runs@.len() > 0 ==> cur@[0] != runs@.last()@.last() + 1
                || runs@.last()@.len() >= run_cap(max_blocks),
        decreases sorted@.len() - k,
    {
        let b: u32 = sorted[k];
        let n: usize = cur.len();
        let extends: bool = if n > 0 {
            let last: u32 = cur[n - 1];
            assert(last == sorted@[k - 1]) by {
                assert(sorted@.subrange(0, k as int).last() == cur@.last());
            }
            assert(n <= max_blocks || n <= 1);
            b == last + 1 && n < max_blocks as usize
        } else {
            false
        };
        let ghost before_runs = runs@;
        let ghost before_cur = cur@;
        if !extends && n > 0 {
            let mut done: Vec<u32> = Vec::new();
            std::mem::swap(&mut done, &mut cur);
            runs.push(done);
            proof {
                assert(run_views(runs@) =~= run_views(before_runs).push(before_cur));
                assert(run_views(runs@).drop_last() =~= run_views(before_runs));
                let rv = run_views(runs@);
                assert forall|i: int| #![trigger rv[i]] 0 < i < rv.len() implies rv[i][0] != rv[i
                    - 1].last() + 1 || rv[i - 1].len() >= run_cap(max_blocks) by {
                    assert(rv[i - 1] == run_views(before_runs)[i - 1]);
                    if i < before_runs.len() {
                        assert(rv[i] == run_views(before_runs)[i]);
                    } else {
                        assert(rv[i] == before_cur);
                        assert(rv[i - 1] == before_runs.last()@);
                    }
                }
                assert forall|i: int| 0 <= i < rv.len() implies 0 < (#[trigger] rv[i]).len()
                    <= run_cap(max_blocks) && consecutive(rv[i]) by {
                    if i < before_runs.len() {
                        assert(rv[i] == run_views(before_runs)[i]);
                    } else {
                        assert(rv[i] == before_cur);
                    }
                }
            }
        }
        let ghost mid = cur@;
        cur.push(b);
        proof {
            assert(sorted@.subrange(0, k + 1) =~= sorted@.subrange(0, k as int).push(b));
            assert(joined(run_views(runs@)) + mid == sorted@.subrange(0, k as int));
            assert((joined(run_views(runs@)) + mid).push(b) =~= joined(run_views(runs@))
                + mid.push(b));
            if extends {
                assert(consecutive(cur@)) by {
                    assert forall|i: int| 0 <= i < cur@.len() implies #[trigger] cur@[i] == cur@[0]
                        + i by {
                        assert(cur@[0] == before_cur[0]);
                        if i < before_cur.len() {
                            assert(cur@[i] == before_cur[i]);
                        } else {
                            assert(before_cur[n - 1] == before_cur[0] + (n - 1));
                        }
                    }
                }
            }
        }
        k = k + 1;
    }
    assert(sorted@.subrange(0, sorted@.len() as int) =~= sorted@);
    if cur.len() > 0 {
        let ghost before_runs = runs@;
        let ghost before_cur = cur@;
        runs.push(cur);
        proof {
            assert(run_views(runs@) =~= run_views(before_runs).push(before_cur));
            assert(run_views(runs@).drop_last() =~= run_views(before_runs));
            let rv = run_views(runs@);
            assert forall|i: int| #![trigger rv[i]] 0 < i < rv.len() implies rv[i][0] != rv[i
                - 1].last() + 1 || rv[i - 1].len() >= run_cap(max_blocks) by {
                assert(rv[i - 1] == run_views(before_runs)[i - 1]);
                if i < before_runs.len() {
                    assert(rv[i] == run_views(before_runs)[i]);
                } else {
                    assert(rv[i] == before_cur);
                    assert(rv[i - 1] == before_runs.last()@);
                }
            }
            assert forall|i: int| 0 <= i < rv.len() implies 0 < (#[trigger] rv[i]).len() <= run_cap(
                max_blocks,
            ) && consecutive(rv[i]) by {
                if i < before_runs.len() {
                    assert(rv[i] == run_views(before_runs)[i]);
                } else {
                    assert(rv[i] == before_cur);
                }
            }
        }
    } else {
        assert(joined(run_views(runs@)) + cur@ =~= joined(run_views(runs@)));
    }
    runs
}

/// The pieces put one behind the other.
pub open spec fn joined_bytes(pieces: Seq<Bytes>) -> Seq<u8>
    decreases pieces.len(),
{
    if pieces.len() == 0 {
        Seq::empty()
    } else {
        joined_bytes(pieces.drop_last()) + content(pieces.last())
    }
}

/// Leaving off pieces leaves a prefix that is no longer.
proof fn lemma_joined_bytes_prefix(pieces: Seq<Bytes>, n: int)
    requires
        0 <= n <= pieces.len(),
    ensures
        joined_bytes(pieces.take(n)).len() <= joined_bytes(pieces).len(),
    decreases pieces.len() - n,
{
    if n == pieces.len() {
        assert(pieces.take(n) =~= pieces);
    } else {
        lemma_joined_bytes_prefix(pieces, n + 1);
        assert(pieces.take(n + 1).drop_last() =~= pieces.take(n));
    }
}

/// Joins the pieces that one fetch returned into one buffer. A single piece is
/// handed on without copying.
pub fn concat_bytes(pieces: Vec<Bytes>) -> (full: Bytes)
    requires
        pieces@.len() > 1 ==> joined_bytes(pieces@).len() <= isize::MAX,
    ensures
        content(full) == joined_bytes(pieces@),
{
    let mut pieces = pieces;
    let n: usize = pieces.len();
    if n == 0 {
        return bytes_empty();
    }
    if n == 1 {
        proof {
            assert(joined_bytes(pieces@.drop_last()) =~= Seq::<u8>::empty());
            assert(joined_bytes(pieces@) =~= content(pieces@.last()));
        }
        return pieces.pop().unwrap();
    }
    let mut total: usize = 0;
    let mut i: usize = 0;
    while i < n
        invariant
            i <= n == pieces@.len(),
            total == joined_bytes(pieces@.take(i as int)).len(),
            joined_bytes(pieces@).len() <= isize::MAX,
        decreases n - i,
    {
        proof {
            assert(pieces@.take(i + 1).drop_last() =~= pieces@.take(i as int));
            lemma_joined_bytes_prefix(pieces@, i + 1);
        }
        total = total + bytes_len(&pieces[i]);
        i = i + 1;
    }
    assert(pieces@.take(n as int) =~= pieces@);
    let mut buf: BytesMut = buffer_with_capacity(total);
    let mut j: usize = 0;
    while j < n
        invariant
            j <= n == pieces@.len(),
            written(buf) == joined_bytes(pieces@.take(j as int)),
            joined_bytes(pieces@).len() <= isize::MAX,
        decreases n - j,
    {
        proof {
            assert(pieces@.take(j + 1).drop_last() =~= pieces@.take(j as int));
            lemma_joined_bytes_prefix(pieces@, j + 1);
        }
        let len: usize = bytes_len(&pieces[j]);
        buffer_extend(&mut buf, &pieces[j], 0, len);
        proof {
            let c = content(pieces@[j as int]);
            assert(c.subrange(0, c.len() as int) =~= c);
        }
        j = j + 1;
    }
    buffer_freeze(buf)
}

/// What block `k` of `full` holds when `full` is cut every `block_size` bytes:
/// a full block, the short last block, or nothing past the end.
pub open spec fn block_slice(full: Seq<u8>, k: int, block_size: int) -> Seq<u8> {
    let lo = k * block_size;
    let hi = (k + 1) * block_size;
    if lo >= full.len() {
        Seq::empty()
    } else if hi >= full.len() {
        full.subrange(lo, full.len() as int)
    } else {
        full.subrange(lo, hi)
    }
}

/// Cuts block `k` out of the bytes that a run of blocks was fetched as.
pub fn cut_block(full: &Bytes, k: u32, block_size: u64) -> (data: Bytes)
    requires
        0 < block_size <= MAX_BLOCK_SIZE,
    ensures
        content(data) == block_slice(content(*full), k as int, block_size as int),
{
    proof {
        lemma_block_bounds(k as int, block_size as int);
    }
    let off: u64 = k as u64 * block_size;
    let len: usize = bytes_len(full);
    if off >= len as u64 {
        return bytes_empty();
    }
    let end: u64 = off + block_size;
    assert(end == (k + 1) * block_size) by (nonlinear_arith)
        requires
            end == k * block_size + block_size,
    ;
    let hi: usize = if end >= len as u64 {
        len
    } else {
        end as usize
    };
    bytes_slice(full, off as usize, hi)
}

/// Block offsets fit far below the limit of a `u64`.
proof fn lemma_block_bounds(k: int, block_size: int)
    requires
        0 <= k <= u32::MAX,
        0 < block_size <= MAX_BLOCK_SIZE,
    ensures
        0 <= k * block_size <= u32::MAX * MAX_BLOCK_SIZE,
        (k + 1) * block_size == k * block_size + block_size,
{
    assert(0 <= k * block_size <= u32::MAX * MAX_BLOCK_SIZE) by (nonlinear_arith)
        requires
            0 <= k <= u32::MAX,
            0 < block_size <= MAX_BLOCK_SIZE,
    ;
    assert((k + 1) * block_size == k * block_size + block_size) by (nonlinear_arith);
}

/// The part of block `b`, holding `data`, that lies within `start..end`.
pub open spec fn clipped(data: Seq<u8>, b: int, start: int, end: int, block_size: int) -> Seq<u8> {
    let block_start = b * block_size;
    let lo = if start > block_start {
        start
    } else {
        block_start
    };
    let hi = if end < block_start + data.len() {
        end
    } else {
        block_start + data.len()
    };
    if hi <= lo {
        Seq::empty()
    } else {
        data.subrange(lo - block_start, hi - block_start)
    }
}

/// The clipped parts of the blocks `first..=last`, one behind the other.
pub open spec fn spliced(
    have: Map<u32, Bytes>,
    first: int,
    last: int,
    start: int,
    end: int,
    block_size: int,
) -> Seq<u8>
    decreases last + 1 - first,
{
    if last < first {
        Seq::empty()
    } else {
        spliced(have, first, last - 1, start, end, block_size) + clipped(
            content(have[last as u32]),
            last,
            start,
            end,
            block_size,
        )
    }
}

/// Every block of `first..=last` is at hand.
pub open spec fn has_all(have: Map<u32, Bytes>, first: u32, last: u32) -> bool {
    forall|b: u32| first <= b <= last ==> #[trigger] have.contains_key(b)
}

/// What assembling the range `r` out of the blocks in `have` gives: nothing for
/// an empty range, a slice of the one block the range lies in, or the clipped
/// blocks one behind the other. It fails on a block that is not at hand, and on
/// a range that starts past the end of its only block.
pub open spec fn assembled(
    r: Range<u64>,
    have: Map<u32, Bytes>,
    block_size: u64,
    out: Result<Bytes, CacheError>,
) -> bool {
    let first = block_of(r.start, block_size);
    let last = block_of((r.end - 1) as u64, block_size);
    if r.start >= r.end {
        out matches Ok(b) && content(b) == Seq::<u8>::empty()
    } else if !has_all(have, first, last) {
        out matches Err(e) && e.is_internal("block missing during assembly"@)
    } else if first == last {
        let data = content(have[first]);
        let lo = r.start - first * block_size;
        let hi = if r.end - first * block_size < data.len() {
            r.end - first * block_size
        } else {
            data.len() as int
        };
        if lo > data.len() {
            out matches Err(e) && e.is_internal("range start beyond block during assembly"@)
        } else {
            out matches Ok(b) && content(b) == data.subrange(lo, hi)
        }
    } else {
        out matches Ok(b) && content(b) == spliced(
            have,
            first as int,
            last as int,
            r.start as int,
            r.end as int,
            block_size as int,
        )
    }
}

proof fn lemma_spliced_prefix(
    have: Map<u32, Bytes>,
    first: int,
    mid: int,
    last: int,
    start: int,
    end: int,
    block_size: int,
)
    requires
        mid <= last,
    ensures
        spliced(have, first, mid, start, end, block_size).len() <= spliced(
            have,
            first,
            last,
            start,
            end,
            block_size,
        ).len(),
    decreases last - mid,
{
    if mid < last {
        lemma_spliced_prefix(have, first, mid, last - 1, start, end, block_size);
    }
}

/// Builds the bytes of one requested range from the blocks at hand.
pub fn assemble_range(
    r: &Range<u64>,
    have: &HashMap<u32, Bytes>,
    block_size: u64,
) -> (out: Result<Bytes, CacheError>)
    requires
        0 < block_size <= MAX_BLOCK_SIZE,
        r.start < r.end && block_of(r.start, block_size) != block_of(
            (r.end - 1) as u64,
            block_size,
        ) ==> r.end - r.start <= isize::MAX && spliced(
            have@,
            block_of(r.start, block_size) as int,
            block_of((r.end - 1) as u64, block_size) as int,
            r.start as int,
            r.end as int,
            block_size as int,
        ).len() <= isize::MAX,
    ensures
        assembled(*r, have@, block_size, out),
{
    if r.start >= r.end {
        return Ok(bytes_empty());
    }
    let first: u32 = #[verifier::truncate] ((r.start / block_size) as u32);
    let last: u32 = #[verifier::truncate] (((r.end - 1) / block_size) as u32);
    assert(first == block_of(r.start, block_size));
    assert(last == block_of((r.end - 1) as u64, block_size));
    proof {
        lemma_block_bounds(first as int, block_size as int);
        lemma_truncated_block_start(r.start, block_size);
    }
    if first == last {
        let block_start: u64 = first as u64 * block_size;
        let lo: u64 = r.start - block_start;
        match have.get(&first) {
            None => {
                assert(!have@.contains_key(first));
                return Err(CacheError::internal("block missing during assembly"));
            },
            Some(block) => {
                assert(has_all(have@, first, last));
                let len: usize = bytes_len(block);
                if lo > len as u64 {
                    return Err(CacheError::internal("range start beyond block during assembly"));
                }
                let hi: usize = if r.end - block_start < len as u64 {
                    (r.end - block_start) as usize
                } else {
                    len
                };
                return Ok(bytes_slice(block, lo as usize, hi));
            },
        }
    }
    let mut buf: BytesMut = buffer_with_capacity((r.end - r.start) as usize);
    let mut b: u64 = first as u64;
    while b <= last as u64
        invariant
            0 < block_size <= MAX_BLOCK_SIZE,
            first <= b <= u32::MAX + 1,
            b <= last + 1 || b == first,
            first == block_of(r.start, block_size),
            last == block_of((r.end - 1) as u64, block_size),
            first != last,
            r.start < r.end,
            forall|x: u32| first <= x < b && x <= last ==> #[trigger] have@.contains_key(x),
            written(buf) == spliced(
                have@,
                first as int,
                b - 1,
                r.start as int,
                r.end as int,
                block_size as int,
            ),
            spliced(
                have@,
                first as int,
                last as int,
                r.start as int,
                r.end as int,
                block_size as int,
            ).len() <= isize::MAX,
        decreases last + 1 - b,
    {
        let index: u32 = b as u32;
        match have.get(&index) {
            None => {
                assert(!have@.contains_key(index));
                return Err(CacheError::internal("block missing during assembly"));
            },
            Some(block) => {
                proof {
                    lemma_block_bounds(b as int, block_size as int);
                    lemma_spliced_prefix(
                        have@,
                        first as int,
                        b as int,
                        last as int,
                        r.start as int,
                        r.end as int,
                        block_size as int,
                    );
                }
                let block_start: u64 = b * block_size;
                let len: usize = bytes_len(block);
                let lo: u64 = if r.start > block_start {
                    r.start
                } else {
                    block_start
                };
                let data_end: u128 = block_start as u128 + len as u128;
                let hi: u128 = if (r.end as u128) < data_end {
                    r.end as u128
                } else {
                    data_end
                };
                if hi > lo as u128 {
                    buffer_extend(
                        &mut buf,
                        block,
                        (lo - block_start) as usize,
                        (hi - block_start as u128) as usize,
                    );
                } else {
                    assert(written(buf) + Seq::<u8>::empty() =~= written(buf));
                }
            },
        }
        b = b + 1;
    }
    proof {
        if last < first {
            assert(spliced(
                have@,
                first as int,
                last as int,
                r.start as int,
                r.end as int,
                block_size as int,
            ) =~= Seq::<u8>::empty());
        }
    }
    Ok(buffer_freeze(buf))
}

/// The block that an offset's index names starts at or before the offset.
proof fn lemma_truncated_block_start(offset: u64, block_size: u64)
    requires
        block_size > 0,
    ensures
        block_of(offset, block_size) * block_size <= offset,
{
    let q = offset / block_size;
    let t = q as u32;
    assert(t <= q) by (bit_vector)
        requires
            t == q as u32,
    ;
    assert(q * block_size <= offset) by (nonlinear_arith)
        requires
            q == offset / block_size,
            block_size > 0,
    ;
    assert(t * block_size <= q * block_size) by (nonlinear_arith)
        requires
            t <= q,
            block_size > 0,
    ;
}

/// The bytes of `file` from `start` up to `end` or the end of the file.
pub open spec fn file_bytes(file: Seq<u8>, start: int, end: int) -> Seq<u8> {
    let lo = if start < file.len() {
        start
    } else {
        file.len() as int
    };
    let hi = if end < file.len() {
        end
    } else {
        file.len() as int
    };
    if hi <= lo {
        Seq::empty()
    } else {
        file.subrange(lo, hi)
    }
}

/// `have` holds, for each block of `first..=last`, what `file` has there.
pub open spec fn mirrors(
    have: Map<u32, Bytes>,
    file: Seq<u8>,
    first: u32,
    last: u32,
    block_size: u64,
) -> bool {
    forall|b: u32|
        first <= b <= last ==> #[trigger] have.contains_key(b) && content(have[b]) == block_slice(
            file,
            b as int,
            block_size as int,
        )
}

/// A run of blocks fetched as one range, cut every `block_size` bytes, gives
/// the same blocks as the file cut every `block_size` bytes.
pub proof fn cut_run_gives_file_blocks(
    file: Seq<u8>,
    full: Seq<u8>,
    start_block: int,
    end_block: int,
    b: int,
    block_size: int,
)
    requires
        0 <= start_block <= b <= end_block,
        block_size > 0,
        full == file_bytes(file, start_block * block_size, (end_block + 1) * block_size),
    ensures
        block_slice(full, b - start_block, block_size) == block_slice(file, b, block_size),
{
    let s = start_block * block_size;
    let e = (end_block + 1) * block_size;
    let k = b - start_block;
    assert(k * block_size == b * block_size - s) by (nonlinear_arith)
        requires
            k == b - start_block,
            s == start_block * block_size,
    ;
    assert((k + 1) * block_size == (b + 1) * block_size - s) by (nonlinear_arith)
        requires
            k == b - start_block,
            s == start_block * block_size,
    ;
    assert((b + 1) * block_size <= e) by (nonlinear_arith)
        requires
            b <= end_block,
            e == (end_block + 1) * block_size,
            block_size > 0,
    ;
    assert(0 <= s <= b * block_size < (b + 1) * block_size) by (nonlinear_arith)
        requires
            0 <= start_block <= b,
            s == start_block * block_size,
            block_size > 0,
    ;
    assert(block_slice(full, k, block_size) =~= block_slice(file, b, block_size));
}

/// Splicing blocks that mirror a file gives the file's own bytes.
proof fn lemma_spliced_is_file_bytes(
    have: Map<u32, Bytes>,
    file: Seq<u8>,
    first: int,
    m: int,
    start: int,
    end: int,
    block_size: int,
)
    requires
        block_size > 0,
        0 <= first <= m <= u32::MAX,
        first * block_size <= start < (first + 1) * block_size,
        m == first || m * block_size < end,
        start < end,
        forall|b: u32|
            first <= b <= m ==> #[trigger] have.contains_key(b) && content(have[b]) == block_slice(
                file,
                b as int,
                block_size,
            ),
    ensures
        spliced(have, first, m, start, end, block_size) == file_bytes(
            file,
            start,
            if end < (m + 1) * block_size {
                end
            } else {
                (m + 1) * block_size
            },
        ),
    decreases m - first,
{
    assert(have.contains_key(m as u32));
    let data = block_slice(file, m, block_size);
    assert(content(have[m as u32]) == data);
    let piece = clipped(data, m, start, end, block_size);
    assert((m + 1) * block_size == m * block_size + block_size) by (nonlinear_arith);
    if m == first {
        assert(spliced(have, first, m - 1, start, end, block_size) =~= Seq::<u8>::empty());
        assert(spliced(have, first, m, start, end, block_size) =~= piece);
        assert(piece =~= file_bytes(
            file,
            start,
            if end < (m + 1) * block_size {
                end
            } else {
                (m + 1) * block_size
            },
        ));
    } else {
        assert((m - 1) * block_size == m * block_size - block_size) by (nonlinear_arith);
        assert((first + 1) * block_size <= m * block_size) by (nonlinear_arith)
            requires
                first + 1 <= m,
                block_size > 0,
        ;
        lemma_spliced_is_file_bytes(have, file, first, m - 1, start, end, block_size);
        let before = file_bytes(file, start, m * block_size);
        assert(spliced(have, first, m - 1, start, end, block_size) == before);
        assert(before + piece =~= file_bytes(
            file,
            start,
            if end < (m + 1) * block_size {
                end
            } else {
                (m + 1) * block_size
            },
        ));
    }
}

/// A range assembled from blocks that mirror a file is byte for byte what the
/// file holds there, cut short at the end of the file. The range starts within
/// the file, and its blocks have indices that a block key can hold.
pub proof fn assembled_range_is_file_bytes(
    file: Seq<u8>,
    r: Range<u64>,
    have: Map<u32, Bytes>,
    block_size: u64,
    out: Result<Bytes, CacheError>,
)
    requires
        0 < block_size <= MAX_BLOCK_SIZE,
        r.start <= file.len(),
        r.start < r.end ==> (r.end - 1) as u64 / block_size <= u32::MAX,
        r.start < r.end ==> mirrors(
            have,
            file,
            block_of(r.start, block_size),
            block_of((r.end - 1) as u64, block_size),
            block_size,
        ),
        assembled(r, have, block_size, out),
    ensures
        out matches Ok(b) && content(b) == file_bytes(file, r.start as int, r.end as int),
{
    if r.start < r.end {
        let bs = block_size as int;
        let start = r.start as int;
        let end = r.end as int;
        let last_byte = (r.end - 1) as u64;
        let first = r.start / block_size;
        let last = last_byte / block_size;
        vstd::arithmetic::div_mod::lemma_fundamental_div_mod(start, bs);
        vstd::arithmetic::div_mod::lemma_fundamental_div_mod(last_byte as int, bs);
        vstd::arithmetic::div_mod::lemma_mod_bound(start, bs);
        vstd::arithmetic::div_mod::lemma_mod_bound(last_byte as int, bs);
        vstd::arithmetic::div_mod::lemma_div_is_ordered(start, last_byte as int, bs);
        assert(block_of(r.start, block_size) == first);
        assert(block_of(last_byte, block_size) == last);
        assert(first * bs == bs * first) by (nonlinear_arith);
        assert(last * bs == bs * last) by (nonlinear_arith);
        assert((first + 1) * bs == first * bs + bs) by (nonlinear_arith);
        assert((last + 1) * bs == last * bs + bs) by (nonlinear_arith);
        assert(has_all(have, first as u32, last as u32));
        if first == last {
            assert(have.contains_key(first as u32));
            let data = content(have[first as u32]);
            assert(data == block_slice(file, first as int, bs));
            let lo = start - first * bs;
            assert(lo <= data.len());
            let hi = if end - first * bs < data.len() {
                end - first * bs
            } else {
                data.len() as int
            };
            assert(data.subrange(lo, hi) =~= file_bytes(file, start, end));
        } else {
            lemma_spliced_is_file_bytes(have, file, first as int, last as int, start, end, bs);
        }
    }
}

/// A range touches a block exactly where one of its bytes lies in it, as long as the blocks
/// of the range have indices that a block key can hold.
pub proof fn a_range_touches_the_blocks_of_its_bytes(r: Range<u64>, block_size: u64, b: u32)
    requires
        block_size > 0,
        r.start < r.end ==> (r.end - 1) as u64 / block_size <= u32::MAX,
    ensures
        touches(r, block_size, b) <==> exists|o: int|
            r.start <= o < r.end && #[trigger] lies_in(o, b as int, block_size as int),
{
    let bs = block_size as int;
    if r.start < r.end {
        let last = (r.end - 1) as u64;
        vstd::arithmetic::div_mod::lemma_fundamental_div_mod(r.start as int, bs);
        vstd::arithmetic::div_mod::lemma_fundamental_div_mod(last as int, bs);
        vstd::arithmetic::div_mod::lemma_mod_bound(r.start as int, bs);
        vstd::arithmetic::div_mod::lemma_mod_bound(last as int, bs);
        vstd::arithmetic::div_mod::lemma_div_is_ordered(r.start as int, last as int, bs);
        let f = (r.start / block_size) as int;
        let l = (last / block_size) as int;
        assert(block_of(r.start, block_size) == f && block_of(last, block_size) == l);
        assert(f * bs <= r.start < (f + 1) * bs) by (nonlinear_arith)
            requires
                r.start == bs * f + (r.start as int % bs),
                0 <= (r.start as int % bs) < bs,
        ;
        assert(l * bs <= last < (l + 1) * bs) by (nonlinear_arith)
            requires
                last == bs * l + (last as int % bs),
                0 <= (last as int % bs) < bs,
        ;
        if touches(r, block_size, b) {
            if b == f {
                assert(lies_in(r.start as int, b as int, bs));
            } else {
                assert((f + 1) * bs <= b * bs) by (nonlinear_arith)
                    requires
                        f + 1 <= b,
                        bs > 0,
                ;
                assert(b * bs <= l * bs) by (nonlinear_arith)
                    requires
                        b <= l,
                        bs > 0,
                ;
                assert(b * bs < (b + 1) * bs) by (nonlinear_arith)
                    requires
                        bs > 0,
                ;
                assert(lies_in(b * bs, b as int, bs));
            }
        }
        if exists|o: int| r.start <= o < r.end && #[trigger] lies_in(o, b as int, bs) {
            let o = choose|o: int| r.start <= o < r.end && #[trigger] lies_in(o, b as int, bs);
            assert(f <= b) by (nonlinear_arith)
                requires
                    f * bs <= r.start <= o < (b + 1) * bs,
                    bs > 0,
            ;
            assert(b <= l) by (nonlinear_arith)
                requires
                    b * bs <= o <= last < (l + 1) * bs,
                    bs > 0,
            ;
        }
    }
}

/// The byte lies in the block.
pub open spec fn lies_in(offset: int, b: int, block_size: int) -> bool {
    b * block_size <= offset < (b + 1) * block_size
}

/// Runs put one behind the other are what they are when flattened, and a run holds as many
/// blocks as the cap says, or one where it says none.
pub proof fn runs_are_joined_in_order(runs: Seq<Seq<u32>>, max_blocks: u32)
    ensures
        joined(runs) == runs.flatten(),
        max_blocks > 0 ==> run_cap(max_blocks) == max_blocks,
        max_blocks == 0 ==> run_cap(max_blocks) == 1,
    decreases runs.len(),
{
    runs.lemma_flatten_and_flatten_alt_are_equivalent();
    if runs.len() > 0 {
        let t = runs.drop_last();
        runs_are_joined_in_order(t, max_blocks);
        t.lemma_flatten_and_flatten_alt_are_equivalent();
    }
}

/// The bytes of pieces are joined in their order.
pub proof fn pieces_are_joined_in_order(pieces: Seq<Bytes>)
    ensures
        joined_bytes(pieces) == pieces.map(|i: int, b: Bytes| content(b)).flatten(),
    decreases pieces.len(),
{
    let f = |i: int, b: Bytes| content(b);
    let c = pieces.map(f);
    c.lemma_flatten_and_flatten_alt_are_equivalent();
    if pieces.len() > 0 {
        let t = pieces.drop_last();
        pieces_are_joined_in_order(t);
        t.map(f).lemma_flatten_and_flatten_alt_are_equivalent();
        assert(c.drop_last() =~= t.map(f));
    } else {
        assert(c =~= Seq::empty());
    }
}

/// A block holds the bytes from its own place in the file on: a block's worth of them, or as
/// many as the file has there.
pub proof fn a_block_holds_the_bytes_of_its_place(full: Seq<u8>, k: int, block_size: int)
    requires
        0 <= k,
        0 < block_size,
    ensures
        ({
            let s = block_slice(full, k, block_size);
            &&& full.len() <= k * block_size ==> s.len() == 0
            &&& k * block_size < full.len() < (k + 1) * block_size ==> s.len() == full.len() - k
                * block_size
            &&& full.len() >= (k + 1) * block_size ==> s.len() == block_size
            &&& forall|i: int| 0 <= i < s.len() ==> #[trigger] s[i] == full[k * block_size + i]
        }),
{
    assert((k + 1) * block_size == k * block_size + block_size) by (nonlinear_arith);
    assert(0 <= k * block_size) by (nonlinear_arith)
        requires
            0 <= k,
            0 < block_size,
    ;
}

/// The bytes of a range of a file are those that it has there, up to its end.
pub proof fn a_range_of_a_file_holds_its_bytes(file: Seq<u8>, start: int, end: int)
    requires
        0 <= start <= end,
    ensures
        ({
            let s = file_bytes(file, start, end);
            &&& end <= file.len() ==> s.len() == end - start
            &&& start <= file.len() < end ==> s.len() == file.len() - start
            &&& file.len() < start ==> s.len() == 0
            &&& forall|i: int| 0 <= i < s.len() ==> #[trigger] s[i] == file[start + i]
        }),
{
}

/// Runs hold all of the blocks in their order. Each is without a gap and holds as many as the
/// cap allows at most, one at least; and it ends only at a gap, at the cap or at the end.
pub proof fn runs_are_as_long_as_they_can_be(
    sorted: Seq<u32>,
    max_blocks: u32,
    runs: Seq<Seq<u32>>,
    i: int,
    j: int,
)
    requires
        is_coalesced(sorted, max_blocks, runs),
        0 <= i < runs.len(),
        0 <= j < runs[i].len(),
    ensures
        runs.flatten() == sorted,
        runs[i][j] == runs[i][0] + j,
        runs[i].len() >= 1,
        runs[i].len() <= max_blocks || (max_blocks == 0 && runs[i].len() == 1),
        i + 1 < runs.len() ==> runs[i + 1][0] != runs[i].last() + 1 || runs[i].len() >= max_blocks,
{
    runs_are_joined_in_order(runs, max_blocks);
    assert(consecutive(runs[i]));
    if i + 1 < runs.len() {
        assert(runs[i + 1].len() > 0);
    }
}

} // verus!
