//! Deletion-vector filter: drops the rows of a file that its deletion vector
//! lists, batch by batch.
//!
//! The rows of a partition are the physical rows of one file in physical order,
//! so a running row offset says which rows a batch holds.

use vstd::prelude::*;

use crate::delta::batch::{
    batch_columns, batch_intact, batch_rows, batch_schema, count_set, filter_batch, kept,
    kept_columns, lemma_kept_append, lemma_kept_len, num_rows, Batch,
};
use crate::text::{concat2, decimal, is_decimal};

verus! {

pub(crate) fn copied(src: &Vec<u64>) -> (v: Vec<u64>)
    ensures
        v@ == src@,
{
    let mut v: Vec<u64> = Vec::new();
    let mut i: usize = 0;
    while i < src.len()
        invariant
            i <= src@.len(),
            v@ == src@.take(i as int),
        decreases src@.len() - i,
    {
        v.push(src[i]);
        assert(src@.take(i + 1) =~= src@.take(i as int).push(src@[i as int]));
        i = i + 1;
    }
    assert(src@.take(src@.len() as int) =~= src@);
    v
}

/// Why rows could not be filtered.
#[derive(Debug)]
pub enum DvError {
    /// The filter was built for another number of partitions.
    PartitionMismatch { entries: usize, partitions: usize },
    /// The deletion vector lists a row before the batch that is next.
    Predates { index: u64, batch_start: u64 },
    /// The batch could not be filtered.
    Filter(String),
}

impl DvError {
    /// The error in words.
    pub fn message(&self) -> (s: String)
        ensures
            match *self {
                DvError::PartitionMismatch { entries, partitions } => exists|
                    a: Seq<char>,
                    b: Seq<char>,
                |
                    #[trigger] is_decimal(entries as int, a) && #[trigger] is_decimal(
                        partitions as int,
                        b,
                    ) && s@ == "DeltaDvFilterExec: got "@ + a + " DV entries for "@ + b
                        + " partitions"@,
                DvError::Predates { index, batch_start } => exists|a: Seq<char>, b: Seq<char>|
                    #[trigger] is_decimal(index as int, a) && #[trigger] is_decimal(
                        batch_start as int,
                        b,
                    ) && s@ == "DV index "@ + a + " predates batch start "@ + b,
                DvError::Filter(m) => s@ == m@,
            },
    {
        match self {
            DvError::PartitionMismatch { entries, partitions } => {
                let a: String = decimal(*entries as u64);
                let b: String = decimal(*partitions as u64);
                assert(is_decimal(*entries as int, a@) && is_decimal(*partitions as int, b@));
                concat2("DeltaDvFilterExec: got ", a.as_str()).concat(" DV entries for ").concat(
                    b.as_str(),
                ).concat(" partitions")
            },
            DvError::Predates { index, batch_start } => {
                let a: String = decimal(*index);
                let b: String = decimal(*batch_start);
                assert(is_decimal(*index as int, a@) && is_decimal(*batch_start as int, b@));
                concat2("DV index ", a.as_str()).concat(" predates batch start ").concat(b.as_str())
            },
            DvError::Filter(m) => m.clone(),
        }
    }
}

/// The deletion vectors of a scan's partitions.
#[derive(Debug)]
pub struct DeltaDvFilterExec {
    deleted_row_indexes_by_partition: Vec<Vec<u64>>,
}

impl View for DeltaDvFilterExec {
    type V = Seq<Vec<u64>>;

    closed spec fn view(&self) -> Seq<Vec<u64>> {
        self.deleted_row_indexes_by_partition@
    }
}

/// The number of deleted rows of the first `n` partitions.
pub open spec fn total_deleted(by_partition: Seq<Vec<u64>>, n: int) -> int
    decreases n,
{
    if n <= 0 {
        0
    } else {
        total_deleted(by_partition, n - 1) + by_partition[n - 1]@.len()
    }
}

/// The number of the first `n` partitions that have deleted rows.
pub open spec fn partitions_with_deletes(by_partition: Seq<Vec<u64>>, n: int) -> int
    decreases n,
{
    if n <= 0 {
        0
    } else {
        partitions_with_deletes(by_partition, n - 1) + (if by_partition[n - 1]@.len() > 0 {
            1int
        } else {
            0
        })
    }
}

proof fn lemma_total_deleted_grows(by_partition: Seq<Vec<u64>>, a: int, b: int)
    requires
        a <= b,
    ensures
        total_deleted(by_partition, a) <= total_deleted(by_partition, b),
    decreases b - a,
{
    if a < b {
        lemma_total_deleted_grows(by_partition, a, b - 1);
    }
}

impl DeltaDvFilterExec {
    /// A filter for `num_partitions` partitions: there is one deletion vector for
    /// each, empty where nothing is deleted.
    pub fn new(
        num_partitions: usize,
        deleted_row_indexes_by_partition: Vec<Vec<u64>>,
    ) -> (r: Result<DeltaDvFilterExec, DvError>)
        ensures
            match r {
                Ok(f) => deleted_row_indexes_by_partition@.len() == num_partitions && f@
                    == deleted_row_indexes_by_partition@,
                Err(e) => deleted_row_indexes_by_partition@.len() != num_partitions && e == (
                DvError::PartitionMismatch {
                    entries: deleted_row_indexes_by_partition@.len() as usize,
                    partitions: num_partitions,
                }),
            },
    {
        if deleted_row_indexes_by_partition.len() != num_partitions {
            return Err(
                DvError::PartitionMismatch {
                    entries: deleted_row_indexes_by_partition.len(),
                    partitions: num_partitions,
                },
            );
        }
        Ok(DeltaDvFilterExec { deleted_row_indexes_by_partition })
    }

    /// The stream of a partition, before its first batch.
    pub fn stream(&self, partition: usize) -> (s: DeltaDvFilterStream)
        ensures
            s@ == (DvState {
                deleted: if partition < self@.len() {
                    self@[partition as int]@
                } else {
                    Seq::empty()
                },
                offset: 0,
                next: 0,
            }),
            s.rows_dropped == 0,
    {
        if partition < self.deleted_row_indexes_by_partition.len() {
            let deleted: Vec<u64> = copied(&self.deleted_row_indexes_by_partition[partition]);
            DeltaDvFilterStream::new(deleted)
        } else {
            let deleted: Vec<u64> = Vec::new();
            assert(deleted@ =~= Seq::empty());
            DeltaDvFilterStream::new(deleted)
        }
    }

    /// What the filter does, in words.
    pub fn describe(&self) -> (s: String)
        requires
            total_deleted(self@, self@.len() as int) <= u64::MAX,
        ensures
            exists|a: Seq<char>, b: Seq<char>|
                #[trigger] is_decimal(partitions_with_deletes(self@, self@.len() as int), a)
                    && #[trigger] is_decimal(total_deleted(self@, self@.len() as int), b) && s@
                    == "DeltaDvFilterExec: "@ + a + " partitions with DVs, "@ + b
                    + " total deleted rows"@,
    {
        let mut total: u64 = 0;
        let mut with: u64 = 0;
        let mut i: usize = 0;
        let n: usize = self.deleted_row_indexes_by_partition.len();
        while i < n
            invariant
                i <= n == self@.len(),
                total == total_deleted(self@, i as int),
                with == partitions_with_deletes(self@, i as int),
                with <= i,
                total_deleted(self@, n as int) <= u64::MAX,
            decreases n - i,
        {
            proof {
                lemma_total_deleted_grows(self@, i + 1, n as int);
            }
            let len: usize = self.deleted_row_indexes_by_partition[i].len();
            total = total + len as u64;
            if len > 0 {
                with = with + 1;
            }
            i = i + 1;
        }
        let a: String = decimal(with);
        let b: String = decimal(total);
        assert(is_decimal(partitions_with_deletes(self@, self@.len() as int), a@));
        assert(is_decimal(total_deleted(self@, self@.len() as int), b@));
        concat2("DeltaDvFilterExec: ", a.as_str()).concat(" partitions with DVs, ").concat(
            b.as_str(),
        ).concat(" total deleted rows")
    }
}

/// Where a stream of one file's batches stands.
pub struct DvState {
    /// The deleted row indexes of the file.
    pub deleted: Seq<u64>,
    /// The row index that the next batch starts at.
    pub offset: int,
    /// The first deleted row index not applied yet.
    pub next: int,
}

/// The first position at or after `from` whose index is not below `bound`, or
/// the number of indexes.
pub open spec fn first_at_least(deleted: Seq<u64>, from: int, bound: int) -> int
    decreases deleted.len() - from,
{
    if from < 0 || from >= deleted.len() {
        deleted.len() as int
    } else if deleted[from] >= bound {
        from
    } else {
        first_at_least(deleted, from + 1, bound)
    }
}

pub(crate) proof fn lemma_first_at_least(deleted: Seq<u64>, from: int, bound: int)
    requires
        0 <= from <= deleted.len(),
    ensures
        from <= first_at_least(deleted, from, bound) <= deleted.len(),
        first_at_least(deleted, from, bound) < deleted.len() ==> deleted[first_at_least(
            deleted,
            from,
            bound,
        )] >= bound,
        forall|j: int|
            from <= j < first_at_least(deleted, from, bound) ==> (#[trigger] deleted[j]) < bound,
    decreases deleted.len() - from,
{
    if from < deleted.len() && deleted[from] < bound {
        lemma_first_at_least(deleted, from + 1, bound);
    }
}

impl DvState {
    /// How far the deleted indexes reach that lie before the end of the next
    /// `rows` rows.
    pub open spec fn reach(self, rows: int) -> int {
        if self.next >= self.deleted.len() {
            self.next
        } else {
            first_at_least(self.deleted, self.next, self.offset + rows)
        }
    }

    /// Row `i` of the next `rows` rows is listed among the indexes not applied
    /// yet.
    pub open spec fn drops(self, rows: int, i: int) -> bool {
        exists|j: int|
            self.next <= j < self.reach(rows) && #[trigger] self.deleted[j] == self.offset + i
    }

    /// One of the indexes to apply lies before the next batch.
    pub open spec fn is_behind(self, rows: int) -> bool {
        exists|j: int|
            self.next <= j < self.reach(rows) && (#[trigger] self.deleted[j]) < self.offset
    }

    /// The first index to apply that lies before the next batch.
    pub open spec fn first_behind(self, rows: int) -> int {
        choose|j: int|
            {
                &&& self.next <= j < self.reach(rows)
                &&& (#[trigger] self.deleted[j]) < self.offset
                &&& forall|k: int|
                    self.next <= k < j ==> (#[trigger] self.deleted[k]) >= self.offset
            }
    }

    /// The next `rows` rows pass untouched: there are none, nothing is deleted in
    /// the file, or nothing among them.
    pub open spec fn passes(self, rows: int) -> bool {
        rows == 0 || self.deleted.len() == 0 || self.reach(rows) == self.next
    }

    /// The flags of the next `rows` rows: set for those that are kept.
    pub open spec fn keep_mask(self, rows: int) -> Seq<bool> {
        Seq::new(rows as nat, |i: int| !self.drops(rows, i))
    }

    /// Where the stream stands after the next `rows` rows.
    pub open spec fn after(self, rows: int) -> DvState {
        DvState {
            next: if self.passes(rows) {
                self.next
            } else {
                self.reach(rows)
            },
            offset: self.offset + rows,
            ..self
        }
    }

    /// The number of the next `rows` rows that are dropped.
    pub open spec fn dropped(self, rows: int) -> int {
        rows - count_set(self.keep_mask(rows))
    }

    /// The deleted indexes are sorted, those applied lie before the next batch, and
    /// the others do not.
    pub open spec fn in_step(self) -> bool {
        &&& 0 <= self.next <= self.deleted.len()
        &&& 0 <= self.offset
        &&& forall|i: int, j: int|
            0 <= i < j < self.deleted.len() ==> self.deleted[i] <= self.deleted[j]
        &&& forall|i: int| 0 <= i < self.next ==> (#[trigger] self.deleted[i]) < self.offset
        &&& forall|i: int|
            self.next <= i < self.deleted.len() ==> (#[trigger] self.deleted[i]) >= self.offset
    }
}

/// The stream that filters the batches of one partition.
pub struct DeltaDvFilterStream {
    /// The deleted row indexes of the partition's file, sorted.
    pub deleted: Vec<u64>,
    /// The row index that the next batch starts at.
    pub current_row_offset: u64,
    /// The first deleted row index not applied yet.
    pub next_delete_idx: usize,
    /// Rows dropped so far.
    pub rows_dropped: u64,
}

impl View for DeltaDvFilterStream {
    type V = DvState;

    open spec fn view(&self) -> DvState {
        DvState {
            deleted: self.deleted@,
            offset: self.current_row_offset as int,
            next: self.next_delete_idx as int,
        }
    }
}

impl DeltaDvFilterStream {
    /// A stream before its first batch.
    pub fn new(deleted: Vec<u64>) -> (s: DeltaDvFilterStream)
        ensures
            s@ == (DvState { deleted: deleted@, offset: 0, next: 0 }),
            s.rows_dropped == 0,
    {
        DeltaDvFilterStream { deleted, current_row_offset: 0, next_delete_idx: 0, rows_dropped: 0 }
    }

    /// Moves on by `rows` rows and says which of them to keep: all (`None`), or
    /// those whose flag is set.
    pub fn advance(&mut self, rows: usize) -> (r: Result<Option<Vec<bool>>, DvError>)
        requires
            old(self).current_row_offset + rows <= u64::MAX,
        ensures
            ({
                let s = old(self)@;
                let n = rows as int;
                match r {
                    Ok(None) => {
                        &&& s.passes(n)
                        &&& final(self)@ == s.after(n)
                        &&& final(self).rows_dropped == old(self).rows_dropped
                    },
                    Ok(Some(keep)) => {
                        &&& !s.passes(n)
                        &&& !s.is_behind(n)
                        &&& keep@ == s.keep_mask(n)
                        &&& final(self)@ == s.after(n)
                        &&& final(self).rows_dropped == old(self).rows_dropped.wrapping_add(
                            (rows - count_set(keep@)) as u64,
                        )
                    },
                    Err(e) => {
                        &&& !s.passes(n)
                        &&& s.is_behind(n)
                        &&& e == (DvError::Predates {
                            index: s.deleted[s.first_behind(n)],
                            batch_start: s.offset as u64,
                        })
                        &&& final(self)@ == (DvState { next: s.first_behind(n), ..s })
                        &&& final(self).rows_dropped == old(self).rows_dropped
                    },
                }
            }),
            old(self)@.in_step() ==> match r {
                Ok(None) => forall|i: int| 0 <= i < rows ==> !#[trigger] is_deleted(*old(self), i),
                Ok(Some(keep)) => keep@.len() == rows && forall|i: int|
                    0 <= i < rows ==> (#[trigger] keep@[i] <==> !is_deleted(*old(self), i)),
                Err(_) => false,
            },
    {
        proof {
            if self@.in_step() {
                a_stream_keeps_exactly_the_rows_not_listed(*self, rows as int);
            }
        }
        let ghost s = self@;
        let ghost n = rows as int;
        if rows == 0 || self.deleted.len() == 0 {
            self.current_row_offset = self.current_row_offset + rows as u64;
            return Ok(None);
        }
        let batch_start: u64 = self.current_row_offset;
        let batch_end: u64 = batch_start + rows as u64;
        if self.next_delete_idx >= self.deleted.len() || self.deleted[self.next_delete_idx]
            >= batch_end {
            self.current_row_offset = batch_end;
            return Ok(None);
        }
        proof {
            lemma_first_at_least(s.deleted, s.next, batch_end as int);
            assert(s.reach(n) > s.next);
        }
        let mut keep: Vec<bool> = Vec::new();
        let mut k: usize = 0;
        while k < rows
            invariant
                k <= rows,
                keep@.len() == k,
                forall|i: int| 0 <= i < k ==> #[trigger] keep@[i],
                count_set(keep@) == k,
            decreases rows - k,
        {
            let ghost before = keep@;
            keep.push(true);
            assert(keep@.drop_last() =~= before);
            k = k + 1;
        }
        let mut dropped: u64 = 0;
        while self.next_delete_idx < self.deleted.len() && self.deleted[self.next_delete_idx]
            < batch_end
            invariant
                s == old(self)@,
                n == rows,
                rows > 0,
                self.deleted@ == s.deleted,
                self.current_row_offset == batch_start == s.offset,
                batch_end == batch_start + rows,
                self.rows_dropped == old(self).rows_dropped,
                s.next <= self.next_delete_idx <= s.reach(n),
                s.next < s.deleted.len(),
                s.reach(n) == first_at_least(s.deleted, s.next, batch_end as int),
                first_at_least(s.deleted, s.next, batch_end as int) == first_at_least(
                    s.deleted,
                    self.next_delete_idx as int,
                    batch_end as int,
                ),
                !s.passes(n),
                keep@.len() == rows,
                count_set(keep@) + dropped == rows,
                forall|j: int|
                    s.next <= j < self.next_delete_idx ==> (#[trigger] s.deleted[j]) >= s.offset,
                forall|i: int|
                    0 <= i < rows ==> (#[trigger] keep@[i] <==> !exists|j: int|
                        s.next <= j < self.next_delete_idx && #[trigger] s.deleted[j] == s.offset
                            + i),
            decreases s.deleted.len() - self.next_delete_idx,
        {
            let ghost at = self.next_delete_idx as int;
            let d: u64 = self.deleted[self.next_delete_idx];
            proof {
                lemma_first_at_least(s.deleted, at, batch_end as int);
                assert(at < s.reach(n));
            }
            if d < batch_start {
                proof {
                    assert(s.deleted[at] < s.offset);
                    let f = s.first_behind(n);
                    assert(s.next <= at < s.reach(n) && s.deleted[at] < s.offset && forall|q: int|
                        s.next <= q < at ==> (#[trigger] s.deleted[q]) >= s.offset);
                    if f < at {
                        assert(s.deleted[f] >= s.offset);
                    } else if at < f {
                        assert(s.deleted[at] >= s.offset);
                    }
                }
                return Err(DvError::Predates { index: d, batch_start });
            }
            let local: usize = (d - batch_start) as usize;
            let ghost before = keep@;
            if keep[local] {
                proof {
                    lemma_count_clear(before, local as int);
                }
                keep.set(local, false);
                dropped = dropped + 1;
            }
            self.next_delete_idx = self.next_delete_idx + 1;
            proof {
                assert forall|i: int| 0 <= i < rows implies (#[trigger] keep@[i] <==> !exists|
                    j: int,
                |
                    s.next <= j < self.next_delete_idx && #[trigger] s.deleted[j] == s.offset
                        + i) by {
                    if i == local {
                        assert(s.deleted[at] == s.offset + i);
                    } else {
                        assert(keep@[i] == before[i]);
                        if exists|j: int|
                            s.next <= j < self.next_delete_idx && #[trigger] s.deleted[j]
                                == s.offset + i {
                            let j = choose|j: int|
                                s.next <= j < self.next_delete_idx && #[trigger] s.deleted[j]
                                    == s.offset + i;
                            assert(j != at);
                        }
                    }
                }
            }
        }
        proof {
            lemma_first_at_least(s.deleted, self.next_delete_idx as int, batch_end as int);
            assert(self.next_delete_idx == s.reach(n));
            assert(keep@ =~= s.keep_mask(n));
        }
        self.current_row_offset = batch_end;
        self.rows_dropped = self.rows_dropped.wrapping_add(dropped);
        Ok(Some(keep))
    }

    /// Drops from a batch the rows that the deletion vector lists. An intact batch fails
    /// only where the stream is past a row that the deletion vector lists.
    pub fn apply(&mut self, batch: Batch) -> (r: Result<Batch, DvError>)
        requires
            old(self).current_row_offset + batch_rows(batch) <= u64::MAX,
        ensures
            ({
                let s = old(self)@;
                let n = batch_rows(batch) as int;
                match r {
                    Ok(out) => {
                        &&& final(self)@ == s.after(n)
                        &&& s.passes(n) ==> out == batch && final(self).rows_dropped == old(
                            self,
                        ).rows_dropped
                        &&& !s.passes(n) ==> {
                            &&& !s.is_behind(n)
                            &&& batch_columns(out) == kept_columns(
                                batch_columns(batch),
                                s.keep_mask(n),
                            )
                            &&& batch_rows(out) == count_set(s.keep_mask(n))
                            &&& batch_schema(out) == batch_schema(batch)
                            &&& final(self).rows_dropped == old(self).rows_dropped.wrapping_add(
                                s.dropped(n) as u64,
                            )
                        }
                    },
                    Err(DvError::Predates { index, batch_start }) => {
                        &&& !s.passes(n)
                        &&& s.is_behind(n)
                        &&& index == s.deleted[s.first_behind(n)]
                        &&& batch_start == s.offset
                        &&& final(self)@ == (DvState { next: s.first_behind(n), ..s })
                        &&& final(self).rows_dropped == old(self).rows_dropped
                    },
                    Err(DvError::Filter(_)) => {
                        &&& !s.passes(n)
                        &&& !s.is_behind(n)
                        &&& !batch_intact(batch)
                        &&& final(self)@ == s.after(n)
                        &&& final(self).rows_dropped == old(self).rows_dropped.wrapping_add(
                            s.dropped(n) as u64,
                        )
                    },
                    Err(_) => false,
                }
            }),
    {
        let rows: usize = num_rows(&batch);
        match self.advance(rows) {
            Err(e) => Err(e),
            Ok(None) => Ok(batch),
            Ok(Some(keep)) => match filter_batch(&batch, keep) {
                Ok(out) => Ok(out),
                Err(m) => Err(DvError::Filter(m)),
            },
        }
    }
}

/// Clearing a flag that is set leaves one flag less set.
proof fn lemma_count_clear(keep: Seq<bool>, i: int)
    requires
        0 <= i < keep.len(),
        keep[i],
    ensures
        count_set(keep.update(i, false)) + 1 == count_set(keep),
    decreases keep.len(),
{
    let u = keep.update(i, false);
    if i == keep.len() - 1 {
        assert(u.drop_last() =~= keep.drop_last());
    } else {
        lemma_count_clear(keep.drop_last(), i);
        assert(u.drop_last() =~= keep.drop_last().update(i, false));
    }
}

/// Of sorted indexes, those below a bound come first.
proof fn lemma_reach_in_step(s: DvState, rows: int)
    requires
        s.in_step(),
        rows >= 0,
    ensures
        s.next <= s.reach(rows) <= s.deleted.len(),
        forall|j: int|
            s.next <= j < s.reach(rows) ==> s.offset <= (#[trigger] s.deleted[j]) < s.offset + rows,
        forall|j: int|
            s.reach(rows) <= j < s.deleted.len() ==> (#[trigger] s.deleted[j]) >= s.offset + rows,
        s.after(rows).next == s.reach(rows),
{
    if s.next < s.deleted.len() {
        lemma_first_at_least(s.deleted, s.next, s.offset + rows);
        let k = s.reach(rows);
        assert forall|j: int| k <= j < s.deleted.len() implies (#[trigger] s.deleted[j]) >= s.offset
            + rows by {
            if k < j {
                assert(s.deleted[k] <= s.deleted[j]);
            }
        }
        if rows == 0 {
            assert(s.deleted[s.next] >= s.offset);
        }
    }
}

/// A stream whose deleted indexes are sorted starts in step. One may be listed twice.
pub proof fn new_stream_is_in_step(deleted: Seq<u64>)
    requires
        forall|i: int, j: int| 0 <= i < j < deleted.len() ==> deleted[i] <= deleted[j],
    ensures
        (DvState { deleted, offset: 0, next: 0 }).in_step(),
{
}

/// A stream in step never fails and stays in step, and it drops exactly the rows
/// that the deletion vector lists.
pub proof fn stream_in_step_drops_exactly_the_deleted_rows(s: DvState, rows: int)
    requires
        s.in_step(),
        rows >= 0,
    ensures
        !s.is_behind(rows),
        s.after(rows).in_step(),
        forall|i: int|
            #![trigger s.drops(rows, i)]
            0 <= i < rows ==> (s.drops(rows, i) <==> exists|j: int|
                0 <= j < s.deleted.len() && #[trigger] s.deleted[j] == s.offset + i),
        s.passes(rows) ==> forall|i: int| 0 <= i < rows ==> !s.drops(rows, i),
{
    lemma_reach_in_step(s, rows);
    let t = s.after(rows);
    assert forall|i: int| 0 <= i < t.next implies (#[trigger] t.deleted[i]) < t.offset by {
        if i < s.next {
            assert(s.deleted[i] < s.offset);
        }
    }
    assert forall|i: int|
        #![trigger s.drops(rows, i)]
        0 <= i < rows implies (s.drops(rows, i) <==> exists|j: int|
        0 <= j < s.deleted.len() && #[trigger] s.deleted[j] == s.offset + i) by {
        if exists|j: int| 0 <= j < s.deleted.len() && #[trigger] s.deleted[j] == s.offset + i {
            let j = choose|j: int|
                0 <= j < s.deleted.len() && #[trigger] s.deleted[j] == s.offset + i;
            if j < s.next {
                assert(s.deleted[j] < s.offset);
            } else if j >= s.reach(rows) {
                assert(s.deleted[j] >= s.offset + rows);
            }
            assert(s.next <= j < s.reach(rows));
        }
    }
}

/// Two batches in a row are treated as the one batch that they make up: the same
/// rows are kept, and the stream ends in the same place.
pub proof fn batches_compose(s: DvState, first: int, second: int)
    requires
        s.in_step(),
        first >= 0,
        second >= 0,
    ensures
        s.keep_mask(first + second) == s.keep_mask(first) + s.after(first).keep_mask(second),
        s.after(first + second) == s.after(first).after(second),
{
    let t = s.after(first);
    let all = first + second;
    stream_in_step_drops_exactly_the_deleted_rows(s, first);
    stream_in_step_drops_exactly_the_deleted_rows(s, all);
    stream_in_step_drops_exactly_the_deleted_rows(t, second);
    lemma_reach_in_step(s, first);
    lemma_reach_in_step(s, all);
    lemma_reach_in_step(t, second);
    let a = s.keep_mask(all);
    let b = s.keep_mask(first) + t.keep_mask(second);
    assert forall|i: int| 0 <= i < all implies a[i] == b[i] by {
        if i < first {
            assert(s.drops(all, i) == s.drops(first, i));
        } else {
            assert(s.drops(all, i) == t.drops(second, i - first)) by {
                assert(t.offset + (i - first) == s.offset + i);
            }
        }
    }
    assert(a =~= b);
    let x = s.reach(all);
    let y = t.reach(second);
    if x < y {
        assert(t.deleted[x] < t.offset + second);
        assert(s.deleted[x] >= s.offset + all);
    } else if y < x {
        if y >= s.next {
            assert(s.deleted[y] < s.offset + all);
        }
        assert(t.deleted[y] >= t.offset + second);
    }
}

/// Filtering a file batch by batch keeps the same rows, in the same order, as
/// filtering it whole.
pub proof fn filtering_batches_filters_the_file<T>(s: DvState, a: Seq<T>, b: Seq<T>)
    requires
        s.in_step(),
    ensures
        kept(a + b, s.keep_mask((a + b).len() as int)) == kept(
            a,
            s.keep_mask(a.len() as int),
        ) + kept(b, s.after(a.len() as int).keep_mask(b.len() as int)),
{
    batches_compose(s, a.len() as int, b.len() as int);
    lemma_kept_append(
        a,
        b,
        s.keep_mask(a.len() as int),
        s.after(a.len() as int).keep_mask(b.len() as int),
    );
}

/// The rows of batches, one batch behind the other.
pub open spec fn all_rows<T>(batches: Seq<Seq<T>>) -> Seq<T>
    decreases batches.len(),
{
    if batches.len() == 0 {
        Seq::empty()
    } else {
        all_rows(batches.drop_last()) + batches.last()
    }
}

/// What filtering batches one by one keeps of their rows.
pub open spec fn filtered<T>(s: DvState, batches: Seq<Seq<T>>) -> Seq<T>
    decreases batches.len(),
{
    if batches.len() == 0 {
        Seq::empty()
    } else {
        let before = batches.drop_last();
        let t = s.after(all_rows(before).len() as int);
        filtered(s, before) + kept(batches.last(), t.keep_mask(batches.last().len() as int))
    }
}

/// Where the stream stands after batches, one by one.
pub open spec fn after_batches<T>(s: DvState, batches: Seq<Seq<T>>) -> DvState
    decreases batches.len(),
{
    if batches.len() == 0 {
        s
    } else {
        after_batches(s, batches.drop_last()).after(batches.last().len() as int)
    }
}

/// However a file is cut into batches, the same rows are kept in the same order, none of
/// the batches fails, and as many rows are dropped as are not kept.
pub proof fn filtering_any_batches_filters_the_file<T>(s: DvState, batches: Seq<Seq<T>>)
    requires
        s.in_step(),
    ensures
        ({
            let rows = all_rows(batches);
            let n = rows.len() as int;
            &&& filtered(s, batches) == kept(rows, s.keep_mask(n))
            &&& after_batches(s, batches).in_step()
            &&& after_batches(s, batches).offset == s.offset + n
            &&& filtered(s, batches).len() == n - s.dropped(n)
            &&& after_batches(s, batches) == s.after(n)
        }),
    decreases batches.len(),
{
    let rows = all_rows(batches);
    let n = rows.len() as int;
    if batches.len() == 0 {
        assert(s.keep_mask(0) =~= Seq::<bool>::empty());
        stream_in_step_drops_exactly_the_deleted_rows(s, 0);
        assert(filtered(s, batches) =~= kept(rows, s.keep_mask(n)));
    } else {
        let before = batches.drop_last();
        let last = batches.last();
        filtering_any_batches_filters_the_file(s, before);
        filtering_batches_filters_the_file(s, all_rows(before), last);
        batches_compose(s, all_rows(before).len() as int, last.len() as int);
        stream_in_step_drops_exactly_the_deleted_rows(s, n);
    }
    lemma_kept_len(rows, s.keep_mask(n));
}

/// A row of the next ones is listed in the deletion vector of a stream, by its position in
/// the file.
pub open spec fn is_deleted(s: DeltaDvFilterStream, i: int) -> bool {
    s.deleted@.contains((s.current_row_offset + i) as u64)
}

/// A stream in step keeps of the next rows exactly those whose positions in the file its
/// deletion vector does not list.
pub proof fn a_stream_keeps_exactly_the_rows_not_listed(s: DeltaDvFilterStream, rows: int)
    requires
        s@.in_step(),
        0 <= rows,
        s.current_row_offset + rows <= u64::MAX,
    ensures
        !s@.is_behind(rows),
        s@.keep_mask(rows).len() == rows,
        forall|i: int| 0 <= i < rows ==> (#[trigger] s@.keep_mask(rows)[i] <==> !is_deleted(s, i)),
        s@.passes(rows) ==> forall|i: int| 0 <= i < rows ==> !#[trigger] is_deleted(s, i),
        s@.after(rows).offset == s.current_row_offset + rows,
        s@.after(rows).deleted == s.deleted@,
{
    let d = s@;
    stream_in_step_drops_exactly_the_deleted_rows(d, rows);
    assert forall|i: int| 0 <= i < rows implies d.drops(rows, i) == #[trigger] is_deleted(s, i) by {
        assert(d.drops(rows, i) <==> exists|j: int|
            0 <= j < d.deleted.len() && #[trigger] d.deleted[j] == d.offset + i);
        if is_deleted(s, i) {
            let j = choose|j: int|
                0 <= j < s.deleted@.len() && s.deleted@[j] == (s.current_row_offset + i) as u64;
            assert(d.deleted[j] == d.offset + i);
        }
    }
}

/// As many rows of a batch are dropped as are not kept.
pub proof fn rows_are_kept_or_dropped(s: DvState, rows: int)
    requires
        0 <= rows,
    ensures
        s.dropped(rows) + count_set(s.keep_mask(rows)) == rows,
        0 <= s.dropped(rows) <= rows,
        s.dropped(rows) == 0 <==> forall|i: int|
            0 <= i < rows ==> !#[trigger] s.drops(rows, i),
{
    lemma_count_at_most(s.keep_mask(rows));
    if s.dropped(rows) == 0 {
        assert forall|i: int| 0 <= i < rows implies !#[trigger] s.drops(rows, i) by {
            assert(s.keep_mask(rows)[i]);
        }
    }
    if forall|i: int| 0 <= i < rows ==> !#[trigger] s.drops(rows, i) {
        assert forall|i: int| 0 <= i < rows implies #[trigger] s.keep_mask(rows)[i] by {
            assert(!s.drops(rows, i));
        }
    }
}

proof fn lemma_count_at_most(keep: Seq<bool>)
    ensures
        count_set(keep) <= keep.len(),
        count_set(keep) == keep.len() <==> forall|i: int| 0 <= i < keep.len() ==> #[trigger] keep[i],
    decreases keep.len(),
{
    if keep.len() > 0 {
        let t = keep.drop_last();
        let n = keep.len() - 1;
        lemma_count_at_most(t);
        if count_set(keep) == keep.len() {
            assert forall|i: int| 0 <= i < keep.len() implies #[trigger] keep[i] by {
                if i < n {
                    assert(t[i]);
                }
            }
        }
        if forall|i: int| 0 <= i < keep.len() ==> #[trigger] keep[i] {
            assert forall|i: int| 0 <= i < t.len() implies #[trigger] t[i] by {
                assert(keep[i]);
            }
            assert(keep[n]);
        }
    }
}

/// The partitions with deleted rows are counted, and all their deleted rows.
pub proof fn deleted_rows_are_counted(by_partition: Seq<Vec<u64>>, n: int)
    requires
        0 <= n <= by_partition.len(),
    ensures
        partitions_with_deletes(by_partition, n) == by_partition.take(n).filter(
            |v: Vec<u64>| v@.len() > 0,
        ).len(),
        total_deleted(by_partition, n) == by_partition.take(n).map(
            |i: int, v: Vec<u64>| v@,
        ).flatten().len(),
    decreases n,
{
    let p = |v: Vec<u64>| v@.len() > 0;
    let f = |i: int, v: Vec<u64>| v@;
    let now = by_partition.take(n);
    reveal(Seq::filter);
    if n > 0 {
        let before = by_partition.take(n - 1);
        deleted_rows_are_counted(by_partition, n - 1);
        assert(now.drop_last() =~= before);
        let rows = now.map(f);
        assert(rows.drop_last() =~= before.map(f));
        rows.lemma_flatten_and_flatten_alt_are_equivalent();
        before.map(f).lemma_flatten_and_flatten_alt_are_equivalent();
        assert(rows.flatten_alt() == rows.drop_last().flatten_alt() + rows.last());
    } else {
        assert(now =~= Seq::empty());
        assert(now.map(f) =~= Seq::empty());
    }
}

proof fn lemma_first_behind(s: DvState, rows: int, j: int)
    requires
        s.next <= j < s.reach(rows),
        s.deleted[j] < s.offset,
    ensures
        s.next <= s.first_behind(rows) <= j,
        s.first_behind(rows) < s.reach(rows),
        s.deleted[s.first_behind(rows)] < s.offset,
        forall|k: int|
            s.next <= k < s.first_behind(rows) ==> (#[trigger] s.deleted[k]) >= s.offset,
    decreases j - s.next,
{
    if exists|k: int| s.next <= k < j && (#[trigger] s.deleted[k]) < s.offset {
        let k = choose|k: int| s.next <= k < j && (#[trigger] s.deleted[k]) < s.offset;
        lemma_first_behind(s, rows, k);
    } else {
        assert(s.deleted[j] < s.offset);
    }
}

/// Of the listed rows that the stream has passed already the first one is told, whichever of
/// them is looked at.
pub proof fn the_first_row_behind_is_told(s: DvState, rows: int, j: int)
    requires
        s.next <= j < s.reach(rows),
        s.deleted[j] < s.offset,
    ensures
        s.is_behind(rows),
        s.next <= s.first_behind(rows) <= j,
        s.deleted[s.first_behind(rows)] < s.offset,
        forall|k: int|
            s.next <= k < s.first_behind(rows) ==> (#[trigger] s.deleted[k]) >= s.offset,
{
    lemma_first_behind(s, rows, j);
}

} // verus!
