//! Columns that a Delta scan adds to the rows it reads: the row's position in
//! its file, whether the file's deletion vector lists it, its row id and the
//! version that committed it.
//!
//! As with the deletion-vector filter, the rows of a partition are the rows of
//! one file in physical order.

use std::sync::Arc;

use arrow::datatypes::Schema;
use vstd::prelude::*;

use crate::delta::batch::{
    append_i32_column, append_i64_column, append_u64_column, batch_columns, batch_fits, batch_rows,
    batch_schema, declare, i32_cells, i64_cells, num_rows, relabelled, schema_fields, share,
    u64_cells, Batch,
};
use crate::delta::dv_filter::{
    batches_compose, copied, first_at_least, lemma_first_at_least,
    stream_in_step_drops_exactly_the_deleted_rows, DvState,
};
use crate::text::{concat2, decimal, is_decimal};

verus! {

/// Name of the row-index column.
pub const ROW_INDEX_COLUMN_NAME: &'static str = "__delta_internal_row_index";

/// Name of the is-row-deleted column.
pub const IS_ROW_DELETED_COLUMN_NAME: &'static str = "__delta_internal_is_row_deleted";

/// Name of the row-id column: the file's base row id plus the row's index.
pub const ROW_ID_COLUMN_NAME: &'static str = "row_id";

/// Name of the row-commit-version column, the same for every row of a file.
pub const ROW_COMMIT_VERSION_COLUMN_NAME: &'static str = "row_commit_version";

/// Type of an output column.
#[derive(Clone, Copy, Debug, PartialEq, Eq, Structural)]
pub enum FieldKind {
    /// A column of the input, handed on.
    Input,
    /// 64-bit unsigned integers.
    UInt64,
    /// 32-bit integers.
    Int32,
    /// 64-bit integers.
    Int64,
}

/// How Arrow writes the type of an added column.
pub open spec fn kind_text(kind: FieldKind) -> Seq<char> {
    match kind {
        FieldKind::Input => Seq::empty(),
        FieldKind::UInt64 => "UInt64"@,
        FieldKind::Int32 => "Int32"@,
        FieldKind::Int64 => "Int64"@,
    }
}

/// Added columns as a schema declares them.
pub open spec fn declared_fields(fields: Seq<(Seq<char>, FieldKind, bool)>) -> Seq<
    (Seq<char>, Seq<char>, bool),
> {
    Seq::new(fields.len(), |i: int| (fields[i].0, kind_text(fields[i].1), fields[i].2))
}

/// An output column.
#[derive(Debug)]
pub struct OutputField {
    pub name: String,
    pub kind: FieldKind,
    pub nullable: bool,
}

/// An output column as a mathematical value.
pub open spec fn field_view(f: OutputField) -> (Seq<char>, FieldKind, bool) {
    (f.name@, f.kind, f.nullable)
}

/// The output columns as mathematical values.
pub open spec fn field_views(v: Seq<OutputField>) -> Seq<(Seq<char>, FieldKind, bool)> {
    Seq::new(v.len(), |i: int| field_view(v[i]))
}

/// Which columns to add.
#[derive(Clone, Copy, Debug, PartialEq, Eq, Structural)]
pub struct Emit {
    pub row_index: bool,
    pub is_row_deleted: bool,
    pub row_id: bool,
    pub row_commit_version: bool,
}

impl Emit {
    /// Some column is added.
    pub open spec fn anything(self) -> bool {
        self.row_index || self.is_row_deleted || self.row_id || self.row_commit_version
    }
}

/// `x` where the condition holds, nothing else.
pub open spec fn only_if<T>(c: bool, x: T) -> Seq<T> {
    if c {
        seq![x]
    } else {
        Seq::empty()
    }
}

/// The columns added, in their fixed order.
pub open spec fn added_fields(emit: Emit, row_index_name: Seq<char>) -> Seq<
    (Seq<char>, FieldKind, bool),
> {
    only_if(emit.row_index, (row_index_name, FieldKind::UInt64, false)) + only_if(
        emit.is_row_deleted,
        (IS_ROW_DELETED_COLUMN_NAME@, FieldKind::Int32, false),
    ) + only_if(emit.row_id, (ROW_ID_COLUMN_NAME@, FieldKind::Int64, true)) + only_if(
        emit.row_commit_version,
        (ROW_COMMIT_VERSION_COLUMN_NAME@, FieldKind::Int64, true),
    )
}

fn push_field(fields: &mut Vec<OutputField>, name: &str, kind: FieldKind, nullable: bool)
    ensures
        field_views(final(fields)@) == field_views(old(fields)@).push((name@, kind, nullable)),
{
    let ghost before = fields@;
    fields.push(OutputField { name: name.to_owned(), kind, nullable });
    assert(field_views(fields@) =~= field_views(before).push((name@, kind, nullable)));
}

/// The output schema: the input's columns, then the added ones in the order row
/// index, is-row-deleted, row id, row commit version.
pub fn build_output_schema(
    input: Vec<OutputField>,
    emit: Emit,
    row_index_column_name: &str,
) -> (out: Vec<OutputField>)
    ensures
        field_views(out@) == field_views(input@) + added_fields(emit, row_index_column_name@),
{
    let mut fields: Vec<OutputField> = input;
    let ghost f0 = field_views(fields@);
    if emit.row_index {
        push_field(&mut fields, row_index_column_name, FieldKind::UInt64, false);
    }
    if emit.is_row_deleted {
        push_field(&mut fields, IS_ROW_DELETED_COLUMN_NAME, FieldKind::Int32, false);
    }
    if emit.row_id {
        push_field(&mut fields, ROW_ID_COLUMN_NAME, FieldKind::Int64, true);
    }
    if emit.row_commit_version {
        push_field(&mut fields, ROW_COMMIT_VERSION_COLUMN_NAME, FieldKind::Int64, true);
    }
    assert(field_views(fields@) =~= f0 + added_fields(emit, row_index_column_name@));
    fields
}

/// Why the columns could not be added.
#[derive(Debug)]
pub enum SyntheticError {
    /// No column was asked for.
    NothingToEmit,
    /// The per-partition lists do not match the number of partitions.
    PartitionMismatch {
        partitions: usize,
        dv: usize,
        base_row_ids: usize,
        default_commit_versions: usize,
    },
    /// A column could not be appended to a batch.
    Append(String),
}

impl SyntheticError {
    /// The error in words.
    pub fn message(&self) -> (s: String)
        ensures
            match *self {
                SyntheticError::NothingToEmit => s@
                    == "DeltaSyntheticColumnsExec constructed with nothing to emit"@,
                SyntheticError::PartitionMismatch {
                    partitions,
                    dv,
                    base_row_ids,
                    default_commit_versions,
                } => exists|a: Seq<char>, b: Seq<char>, c: Seq<char>, d: Seq<char>|
                    #[trigger] is_decimal(partitions as int, a) && #[trigger] is_decimal(
                        dv as int,
                        b,
                    ) && #[trigger] is_decimal(base_row_ids as int, c) && #[trigger] is_decimal(
                        default_commit_versions as int,
                        d,
                    ) && s@
                        == "DeltaSyntheticColumnsExec: per-partition vec lengths don't match input partitions ("@
                        + a + "): dv="@ + b + ", base_row_ids="@ + c
                        + ", default_commit_versions="@ + d,
                SyntheticError::Append(m) => s@
                    == "DeltaSyntheticColumnsExec: failed to append synthetic columns: "@ + m@,
            },
    {
        match self {
            SyntheticError::NothingToEmit => {
                "DeltaSyntheticColumnsExec constructed with nothing to emit".to_owned()
            },
            SyntheticError::PartitionMismatch {
                partitions,
                dv,
                base_row_ids,
                default_commit_versions,
            } => {
                let a: String = decimal(*partitions as u64);
                let b: String = decimal(*dv as u64);
                let c: String = decimal(*base_row_ids as u64);
                let d: String = decimal(*default_commit_versions as u64);
                assert(is_decimal(*partitions as int, a@) && is_decimal(*dv as int, b@));
                assert(is_decimal(*base_row_ids as int, c@));
                assert(is_decimal(*default_commit_versions as int, d@));
                concat2(
                    "DeltaSyntheticColumnsExec: per-partition vec lengths don't match input partitions (",
                    a.as_str(),
                ).concat("): dv=").concat(b.as_str()).concat(", base_row_ids=").concat(
                    c.as_str(),
                ).concat(", default_commit_versions=").concat(d.as_str())
            },
            SyntheticError::Append(m) => concat2(
                "DeltaSyntheticColumnsExec: failed to append synthetic columns: ",
                m.as_str(),
            ),
        }
    }
}

/// The columns that a scan adds, with what they need for each partition.
#[derive(Debug)]
pub struct DeltaSyntheticColumnsExec {
    /// The schema that the input declares.
    pub input_schema: Arc<Schema>,
    /// The deletion vector of each partition's file.
    pub deleted_row_indexes_by_partition: Vec<Vec<u64>>,
    /// The base row id of each partition's file, where row tracking is on.
    pub base_row_ids_by_partition: Vec<Option<i64>>,
    /// The commit version of each partition's file, where row tracking is on.
    pub default_row_commit_versions_by_partition: Vec<Option<i64>>,
    /// Which columns to add.
    pub emit: Emit,
    /// Name of the row-index column.
    pub row_index_column_name: String,
}

impl DeltaSyntheticColumnsExec {
    /// Checks that some column is added and that there is one entry for each of
    /// `num_partitions` partitions.
    pub fn new(
        num_partitions: usize,
        input_schema: Arc<Schema>,
        deleted_row_indexes_by_partition: Vec<Vec<u64>>,
        base_row_ids_by_partition: Vec<Option<i64>>,
        default_row_commit_versions_by_partition: Vec<Option<i64>>,
        emit: Emit,
        row_index_column_name: &str,
    ) -> (r: Result<DeltaSyntheticColumnsExec, SyntheticError>)
        ensures
            ({
                let matching = deleted_row_indexes_by_partition@.len() == num_partitions
                    && base_row_ids_by_partition@.len() == num_partitions
                    && default_row_commit_versions_by_partition@.len() == num_partitions;
                match r {
                    Ok(x) => {
                        &&& emit.anything()
                        &&& matching
                        &&& x.input_schema == input_schema
                        &&& x.deleted_row_indexes_by_partition == deleted_row_indexes_by_partition
                        &&& x.base_row_ids_by_partition == base_row_ids_by_partition
                        &&& x.default_row_commit_versions_by_partition
                            == default_row_commit_versions_by_partition
                        &&& x.emit == emit
                        &&& x.row_index_column_name@ == row_index_column_name@
                    },
                    Err(SyntheticError::NothingToEmit) => !emit.anything(),
                    Err(SyntheticError::PartitionMismatch {
                        partitions,
                        dv,
                        base_row_ids,
                        default_commit_versions,
                    }) => {
                        &&& emit.anything()
                        &&& !matching
                        &&& partitions == num_partitions
                        &&& dv == deleted_row_indexes_by_partition@.len()
                        &&& base_row_ids == base_row_ids_by_partition@.len()
                        &&& default_commit_versions
                            == default_row_commit_versions_by_partition@.len()
                    },
                    Err(SyntheticError::Append(_)) => false,
                }
            }),
            emit.row_index ==> !(r matches Err(SyntheticError::NothingToEmit)),
            emit.is_row_deleted ==> !(r matches Err(SyntheticError::NothingToEmit)),
            emit.row_id ==> !(r matches Err(SyntheticError::NothingToEmit)),
            emit.row_commit_version ==> !(r matches Err(SyntheticError::NothingToEmit)),
    {
        if !emit.row_index && !emit.is_row_deleted && !emit.row_id && !emit.row_commit_version {
            return Err(SyntheticError::NothingToEmit);
        }
        let dv: usize = deleted_row_indexes_by_partition.len();
        let base_row_ids: usize = base_row_ids_by_partition.len();
        let default_commit_versions: usize = default_row_commit_versions_by_partition.len();
        if dv != num_partitions || base_row_ids != num_partitions || default_commit_versions
            != num_partitions {
            return Err(
                SyntheticError::PartitionMismatch {
                    partitions: num_partitions,
                    dv,
                    base_row_ids,
                    default_commit_versions,
                },
            );
        }
        Ok(
            DeltaSyntheticColumnsExec {
                input_schema,
                deleted_row_indexes_by_partition,
                base_row_ids_by_partition,
                default_row_commit_versions_by_partition,
                emit,
                row_index_column_name: row_index_column_name.to_owned(),
            },
        )
    }

    /// The stream of a partition, before its first batch.
    pub fn stream(&self, partition: usize) -> (s: DeltaSyntheticColumnsStream)
        ensures
            s.position() == (DvState {
                deleted: if partition < self.deleted_row_indexes_by_partition@.len() {
                    self.deleted_row_indexes_by_partition@[partition as int]@
                } else {
                    Seq::empty()
                },
                offset: 0,
                next: 0,
            }),
            s.base_row_id == if partition < self.base_row_ids_by_partition@.len() {
                self.base_row_ids_by_partition@[partition as int]
            } else {
                None
            },
            s.default_row_commit_version == if partition
                < self.default_row_commit_versions_by_partition@.len() {
                self.default_row_commit_versions_by_partition@[partition as int]
            } else {
                None
            },
            *s.input_schema == *self.input_schema,
            s.emit == self.emit,
            s.row_index_column_name@ == self.row_index_column_name@,
    {
        let deleted: Vec<u64> = if partition < self.deleted_row_indexes_by_partition.len() {
            copied(&self.deleted_row_indexes_by_partition[partition])
        } else {
            Vec::new()
        };
        let base_row_id: Option<i64> = if partition < self.base_row_ids_by_partition.len() {
            self.base_row_ids_by_partition[partition]
        } else {
            None
        };
        let default_row_commit_version: Option<i64> = if partition
            < self.default_row_commit_versions_by_partition.len() {
            self.default_row_commit_versions_by_partition[partition]
        } else {
            None
        };
        DeltaSyntheticColumnsStream {
            input_schema: share(&self.input_schema),
            deleted,
            current_row_offset: 0,
            next_delete_idx: 0,
            emit: self.emit,
            base_row_id,
            default_row_commit_version,
            row_index_column_name: self.row_index_column_name.clone(),
        }
    }
}

/// The stream that adds columns to the batches of one partition.
pub struct DeltaSyntheticColumnsStream {
    /// The schema that the input declares.
    pub input_schema: Arc<Schema>,
    /// The deleted row indexes of the partition's file, sorted.
    pub deleted: Vec<u64>,
    /// The row index that the next batch starts at.
    pub current_row_offset: u64,
    /// The first deleted row index not passed yet.
    pub next_delete_idx: usize,
    /// Which columns to add.
    pub emit: Emit,
    /// The file's base row id.
    pub base_row_id: Option<i64>,
    /// The file's commit version.
    pub default_row_commit_version: Option<i64>,
    /// Name of the row-index column.
    pub row_index_column_name: String,
}

/// The first deleted index not before the next batch.
pub open spec fn skipped_to(s: DvState) -> int {
    if s.next >= s.deleted.len() {
        s.next
    } else {
        first_at_least(s.deleted, s.next, s.offset)
    }
}

/// The first deleted index not before the end of the next `rows` rows.
pub open spec fn flagged_to(s: DvState, rows: int) -> int {
    if skipped_to(s) >= s.deleted.len() {
        skipped_to(s)
    } else {
        first_at_least(s.deleted, skipped_to(s), s.offset + rows)
    }
}

/// Row `i` of the next `rows` rows is flagged as deleted.
pub open spec fn flags(s: DvState, rows: int, i: int) -> bool {
    exists|j: int|
        skipped_to(s) <= j < flagged_to(s, rows) && #[trigger] s.deleted[j] == s.offset + i
}

/// The row indexes of the next `rows` rows.
pub open spec fn row_indexes(offset: int, rows: int) -> Seq<u64> {
    Seq::new(rows as nat, |i: int| (offset + i) as u64)
}

/// The flags of the next `rows` rows: one for a deleted row, else zero.
pub open spec fn deleted_flags(s: DvState, rows: int) -> Seq<i32> {
    Seq::new(
        rows as nat,
        |i: int|
            if flags(s, rows, i) {
                1i32
            } else {
                0i32
            },
    )
}

/// `a + b`, stopped at the limits of a 64-bit integer.
pub open spec fn saturating(a: int, b: int) -> i64 {
    if a + b > i64::MAX {
        i64::MAX
    } else if a + b < i64::MIN {
        i64::MIN
    } else {
        (a + b) as i64
    }
}

/// The row ids of the next `rows` rows: the base plus the row's index, or null
/// where the file has no base.
pub open spec fn row_ids(base: Option<i64>, offset: int, rows: int) -> Seq<Option<i64>> {
    Seq::new(
        rows as nat,
        |i: int|
            match base {
                Some(b) => Some(saturating(b as int, ((offset + i) as u64 as i64) as int)),
                None => None,
            },
    )
}

/// The commit versions of the next `rows` rows.
pub open spec fn commit_versions(version: Option<i64>, rows: int) -> Seq<Option<i64>> {
    Seq::new(rows as nat, |i: int| version)
}

/// The values of the added columns.
pub struct Synthesized {
    pub row_index: Option<Vec<u64>>,
    pub is_row_deleted: Option<Vec<i32>>,
    pub row_id: Option<Vec<Option<i64>>>,
    pub row_commit_version: Option<Vec<Option<i64>>>,
}

fn repeated(v: Option<i64>, rows: usize) -> (r: Vec<Option<i64>>)
    ensures
        r@ == commit_versions(v, rows as int),
{
    let mut r: Vec<Option<i64>> = Vec::new();
    let mut i: usize = 0;
    while i < rows
        invariant
            i <= rows,
            r@ == commit_versions(v, i as int),
        decreases rows - i,
    {
        r.push(v);
        assert(r@ =~= commit_versions(v, i + 1));
        i = i + 1;
    }
    r
}

fn saturating_add(a: i64, b: i64) -> (r: i64)
    ensures
        r == saturating(a as int, b as int),
{
    let sum: i128 = a as i128 + b as i128;
    if sum > i64::MAX as i128 {
        i64::MAX
    } else if sum < i64::MIN as i128 {
        i64::MIN
    } else {
        sum as i64
    }
}

impl DeltaSyntheticColumnsStream {
    /// Where the stream stands.
    pub open spec fn position(&self) -> DvState {
        DvState {
            deleted: self.deleted@,
            offset: self.current_row_offset as int,
            next: self.next_delete_idx as int,
        }
    }

    /// The columns that the input declares.
    pub open spec fn declared(&self) -> Seq<(Seq<char>, Seq<char>, bool)> {
        schema_fields(*self.input_schema)
    }

    /// The indexes to flag among the next `rows` rows do not lie before them.
    pub open spec fn can_flag(&self, rows: int) -> bool {
        let s = self.position();
        forall|j: int|
            skipped_to(s) <= j < flagged_to(s, rows) ==> (#[trigger] s.deleted[j]) >= s.offset
    }

    fn deleted_column(&mut self, rows: usize) -> (values: Vec<i32>)
        requires
            old(self).current_row_offset + rows <= u64::MAX,
            old(self).can_flag(rows as int),
        ensures
            values@ == deleted_flags(old(self).position(), rows as int),
            *final(self) == (DeltaSyntheticColumnsStream {
                next_delete_idx: flagged_to(old(self).position(), rows as int) as usize,
                ..*old(self)
            }),
    {
        let ghost s = self.position();
        let ghost n = rows as int;
        let batch_start: u64 = self.current_row_offset;
        let batch_end: u64 = batch_start + rows as u64;
        let mut values: Vec<i32> = Vec::new();
        let mut k: usize = 0;
        while k < rows
            invariant
                k <= rows,
                values@.len() == k,
                forall|i: int| 0 <= i < k ==> #[trigger] values@[i] == 0,
            decreases rows - k,
        {
            values.push(0);
            k = k + 1;
        }
        while self.next_delete_idx < self.deleted.len() && self.deleted[self.next_delete_idx]
            < batch_start
            invariant
                s == old(self).position(),
                batch_start == s.offset,
                s.next <= self.next_delete_idx,
                s.next < s.deleted.len() ==> self.next_delete_idx <= s.deleted.len()
                    && first_at_least(s.deleted, s.next, s.offset) == first_at_least(
                    s.deleted,
                    self.next_delete_idx as int,
                    s.offset,
                ),
                s.next >= s.deleted.len() ==> self.next_delete_idx == s.next,
                *self == (DeltaSyntheticColumnsStream {
                    next_delete_idx: self.next_delete_idx,
                    ..*old(self)
                }),
            decreases s.deleted.len() - self.next_delete_idx,
        {
            self.next_delete_idx = self.next_delete_idx + 1;
        }
        let mut idx: usize = self.next_delete_idx;
        proof {
            if s.next < s.deleted.len() {
                lemma_first_at_least(s.deleted, idx as int, s.offset);
            }
            assert(idx == skipped_to(s));
        }
        while idx < self.deleted.len() && self.deleted[idx] < batch_end
            invariant
                s == old(self).position(),
                old(self).can_flag(n),
                n == rows,
                batch_start == s.offset,
                batch_end == s.offset + rows,
                skipped_to(s) <= idx,
                0 <= skipped_to(s),
                skipped_to(s) < s.deleted.len() ==> idx <= s.deleted.len() && flagged_to(s, n)
                    == first_at_least(s.deleted, idx as int, batch_end as int),
                skipped_to(s) >= s.deleted.len() ==> idx == skipped_to(s),
                values@.len() == rows,
                forall|i: int|
                    0 <= i < rows ==> (#[trigger] values@[i] == (if exists|j: int|
                        skipped_to(s) <= j < idx && #[trigger] s.deleted[j] == s.offset + i {
                        1i32
                    } else {
                        0i32
                    })),
                *self == (DeltaSyntheticColumnsStream {
                    next_delete_idx: self.next_delete_idx,
                    ..*old(self)
                }),
            decreases s.deleted.len() - idx,
        {
            let ghost at = idx as int;
            proof {
                lemma_first_at_least(s.deleted, at, batch_end as int);
                assert(at < flagged_to(s, n));
                assert(s.deleted[at] >= s.offset);
            }
            let local: usize = (self.deleted[idx] - batch_start) as usize;
            let ghost before = values@;
            values.set(local, 1);
            idx = idx + 1;
            proof {
                assert forall|i: int| 0 <= i < rows implies (#[trigger] values@[i] == (if exists|
                    j: int,
                |
                    skipped_to(s) <= j < idx && #[trigger] s.deleted[j] == s.offset + i {
                    1i32
                } else {
                    0i32
                })) by {
                    if i == local {
                        assert(s.deleted[at] == s.offset + i);
                    } else {
                        assert(values@[i] == before[i]);
                        if exists|j: int|
                            skipped_to(s) <= j < idx && #[trigger] s.deleted[j] == s.offset + i {
                            let j = choose|j: int|
                                skipped_to(s) <= j < idx && #[trigger] s.deleted[j] == s.offset
                                    + i;
                            assert(j != at);
                        }
                    }
                }
            }
        }
        proof {
            if skipped_to(s) < s.deleted.len() {
                lemma_first_at_least(s.deleted, idx as int, batch_end as int);
            }
            assert(idx == flagged_to(s, n));
            assert(values@ =~= deleted_flags(s, n));
        }
        self.next_delete_idx = idx;
        values
    }

    /// The values of the added columns for the next `rows` rows.
    pub fn synthesize(&mut self, rows: usize) -> (v: Synthesized)
        requires
            old(self).current_row_offset + rows <= u64::MAX,
            old(self).emit.is_row_deleted ==> old(self).can_flag(rows as int),
        ensures
            ({
                let s = old(self).position();
                let n = rows as int;
                let e = old(self).emit;
                &&& match v.row_index {
                    Some(x) => e.row_index && x@ == row_indexes(s.offset, n),
                    None => !e.row_index,
                }
                &&& match v.is_row_deleted {
                    Some(x) => e.is_row_deleted && x@ == deleted_flags(s, n),
                    None => !e.is_row_deleted,
                }
                &&& match v.row_id {
                    Some(x) => e.row_id && x@ == row_ids(old(self).base_row_id, s.offset, n),
                    None => !e.row_id,
                }
                &&& match v.row_commit_version {
                    Some(x) => e.row_commit_version && x@ == commit_versions(
                        old(self).default_row_commit_version,
                        n,
                    ),
                    None => !e.row_commit_version,
                }
                &&& *final(self) == (DeltaSyntheticColumnsStream {
                    current_row_offset: (s.offset + n) as u64,
                    next_delete_idx: if e.is_row_deleted {
                        flagged_to(s, n) as usize
                    } else {
                        old(self).next_delete_idx
                    },
                    ..*old(self)
                })
            }),
    {
        let batch_start: u64 = self.current_row_offset;
        let batch_end: u64 = batch_start + rows as u64;
        let row_index: Option<Vec<u64>> = if self.emit.row_index {
            let mut x: Vec<u64> = Vec::new();
            let mut i: usize = 0;
            while i < rows
                invariant
                    i <= rows,
                    batch_start + rows <= u64::MAX,
                    x@ == row_indexes(batch_start as int, i as int),
                decreases rows - i,
            {
                x.push(batch_start + i as u64);
                assert(x@ =~= row_indexes(batch_start as int, i + 1));
                i = i + 1;
            }
            Some(x)
        } else {
            None
        };
        let is_row_deleted: Option<Vec<i32>> = if self.emit.is_row_deleted {
            Some(self.deleted_column(rows))
        } else {
            None
        };
        let row_id: Option<Vec<Option<i64>>> = if self.emit.row_id {
            match self.base_row_id {
                Some(base) => {
                    let mut x: Vec<Option<i64>> = Vec::new();
                    let mut i: usize = 0;
                    while i < rows
                        invariant
                            i <= rows,
                            batch_start + rows <= u64::MAX,
                            x@ == row_ids(Some(base), batch_start as int, i as int),
                        decreases rows - i,
                    {
                        let idx: u64 = batch_start + i as u64;
                        let signed: i64 = #[verifier::truncate] (idx as i64);
                        x.push(Some(saturating_add(base, signed)));
                        assert(x@ =~= row_ids(Some(base), batch_start as int, i + 1));
                        i = i + 1;
                    }
                    Some(x)
                },
                None => {
                    let x: Vec<Option<i64>> = repeated(None, rows);
                    assert(x@ =~= row_ids(None, batch_start as int, rows as int));
                    Some(x)
                },
            }
        } else {
            None
        };
        let row_commit_version: Option<Vec<Option<i64>>> = if self.emit.row_commit_version {
            Some(repeated(self.default_row_commit_version, rows))
        } else {
            None
        };
        self.current_row_offset = batch_end;
        Synthesized { row_index, is_row_deleted, row_id, row_commit_version }
    }

    /// The columns added to the next `rows` rows, as columns of a batch.
    pub open spec fn added_columns(&self, rows: int) -> Seq<(Seq<char>, Seq<Option<int>>)> {
        let s = self.position();
        only_if(
            self.emit.row_index,
            (self.row_index_column_name@, u64_cells(row_indexes(s.offset, rows))),
        ) + only_if(
            self.emit.is_row_deleted,
            (IS_ROW_DELETED_COLUMN_NAME@, i32_cells(deleted_flags(s, rows))),
        ) + only_if(
            self.emit.row_id,
            (ROW_ID_COLUMN_NAME@, i64_cells(row_ids(self.base_row_id, s.offset, rows))),
        ) + only_if(
            self.emit.row_commit_version,
            (
                ROW_COMMIT_VERSION_COLUMN_NAME@,
                i64_cells(commit_versions(self.default_row_commit_version, rows)),
            ),
        )
    }

    /// Adds the columns to a batch, which comes out as the declared schema with the added
    /// columns behind it. No row is dropped. A batch that is not what the input declares is
    /// an error.
    pub fn augment(&mut self, batch: Batch) -> (r: Result<Batch, SyntheticError>)
        requires
            old(self).current_row_offset + batch_rows(batch) <= u64::MAX,
            old(self).emit.is_row_deleted ==> old(self).can_flag(batch_rows(batch) as int),
        ensures
            match r {
                Ok(out) => {
                    let declared = old(self).declared();
                    &&& batch_fits(batch, *old(self).input_schema)
                    &&& batch_rows(out) == batch_rows(batch)
                    &&& batch_columns(out) == relabelled(batch_columns(batch), declared) + old(
                        self,
                    ).added_columns(batch_rows(batch) as int)
                    &&& schema_fields(batch_schema(out)) == declared + declared_fields(
                        added_fields(old(self).emit, old(self).row_index_column_name@),
                    )
                    &&& batch_fits(out, batch_schema(out))
                },
                Err(e) => e is Append && !batch_fits(batch, *old(self).input_schema),
            },
            *final(self) == (DeltaSyntheticColumnsStream {
                current_row_offset: (old(self).current_row_offset + batch_rows(batch)) as u64,
                next_delete_idx: if old(self).emit.is_row_deleted {
                    flagged_to(old(self).position(), batch_rows(batch) as int) as usize
                } else {
                    old(self).next_delete_idx
                },
                ..*old(self)
            }),
    {
        let rows: usize = num_rows(&batch);
        let ghost declared = self.declared();
        let ghost c0 = relabelled(batch_columns(batch), declared);
        let ghost added = self.added_columns(rows as int);
        let ghost fields = declared_fields(
            added_fields(self.emit, self.row_index_column_name@),
        );
        let v: Synthesized = self.synthesize(rows);
        let mut out: Batch = match declare(batch, &self.input_schema) {
            Ok(b) => b,
            Err(m) => {
                return Err(SyntheticError::Append(m));
            },
        };
        match v.row_index {
            Some(x) => match append_u64_column(out, self.row_index_column_name.as_str(), x) {
                Ok(b) => {
                    out = b;
                },
                Err(m) => {
                    return Err(SyntheticError::Append(m));
                },
            },
            None => {},
        }
        match v.is_row_deleted {
            Some(x) => match append_i32_column(out, IS_ROW_DELETED_COLUMN_NAME, x) {
                Ok(b) => {
                    out = b;
                },
                Err(m) => {
                    return Err(SyntheticError::Append(m));
                },
            },
            None => {},
        }
        match v.row_id {
            Some(x) => match append_i64_column(out, ROW_ID_COLUMN_NAME, x) {
                Ok(b) => {
                    out = b;
                },
                Err(m) => {
                    return Err(SyntheticError::Append(m));
                },
            },
            None => {},
        }
        match v.row_commit_version {
            Some(x) => match append_i64_column(out, ROW_COMMIT_VERSION_COLUMN_NAME, x) {
                Ok(b) => {
                    out = b;
                },
                Err(m) => {
                    return Err(SyntheticError::Append(m));
                },
            },
            None => {},
        }
        proof {
            assert(batch_columns(out) =~= c0 + added);
            assert(schema_fields(batch_schema(out)) =~= declared + fields);
        }
        Ok(out)
    }
}

/// In a stream that is in step with its deletion vector, a row is flagged as
/// deleted exactly when the deletion-vector filter drops it, and the two streams
/// end in the same place.
pub proof fn flagged_rows_are_the_filtered_rows(s: DvState, rows: int)
    requires
        s.in_step(),
        rows >= 0,
    ensures
        skipped_to(s) == s.next,
        flagged_to(s, rows) == s.after(rows).next,
        forall|i: int|
            #![trigger flags(s, rows, i)]
            0 <= i < rows ==> flags(s, rows, i) == s.drops(rows, i),
        forall|j: int|
            skipped_to(s) <= j < flagged_to(s, rows) ==> (#[trigger] s.deleted[j]) >= s.offset,
{
    stream_in_step_drops_exactly_the_deleted_rows(s, rows);
    if s.next < s.deleted.len() {
        assert(s.deleted[s.next] >= s.offset);
        lemma_first_at_least(s.deleted, s.next, s.offset + rows);
    }
}

/// Row indexes go on from batch to batch without a gap.
pub proof fn row_indexes_are_contiguous(offset: int, first: int, second: int)
    requires
        first >= 0,
        second >= 0,
    ensures
        row_indexes(offset, first + second) == row_indexes(offset, first) + row_indexes(
            offset + first,
            second,
        ),
{
    assert(row_indexes(offset, first + second) =~= row_indexes(offset, first) + row_indexes(
        offset + first,
        second,
    ));
}

/// Row ids go on from batch to batch as well.
pub proof fn row_ids_are_contiguous(base: Option<i64>, offset: int, first: int, second: int)
    requires
        first >= 0,
        second >= 0,
    ensures
        row_ids(base, offset, first + second) == row_ids(base, offset, first) + row_ids(
            base,
            offset + first,
            second,
        ),
{
    assert(row_ids(base, offset, first + second) =~= row_ids(base, offset, first) + row_ids(
        base,
        offset + first,
        second,
    ));
}

/// The flags of deleted rows and the commit versions go on from batch to batch as well: in
/// a stream that is in step, the columns come out the same however the rows are cut into
/// batches.
pub proof fn flags_and_versions_are_contiguous(
    s: DvState,
    version: Option<i64>,
    first: int,
    second: int,
)
    requires
        s.in_step(),
        first >= 0,
        second >= 0,
    ensures
        deleted_flags(s, first + second) == deleted_flags(s, first) + deleted_flags(
            s.after(first),
            second,
        ),
        flagged_to(s, first + second) == flagged_to(s.after(first), second),
        commit_versions(version, first + second) == commit_versions(version, first)
            + commit_versions(version, second),
{
    let t = s.after(first);
    let all = first + second;
    flagged_rows_are_the_filtered_rows(s, first);
    flagged_rows_are_the_filtered_rows(s, all);
    batches_compose(s, first, second);
    stream_in_step_drops_exactly_the_deleted_rows(s, first);
    flagged_rows_are_the_filtered_rows(t, second);
    let a = deleted_flags(s, all);
    let b = deleted_flags(s, first) + deleted_flags(t, second);
    assert forall|i: int| 0 <= i < all implies a[i] == b[i] by {
        assert(s.keep_mask(all)[i] == (s.keep_mask(first) + t.keep_mask(second))[i]);
        assert(flags(s, all, i) == s.drops(all, i));
        if i < first {
            assert(flags(s, first, i) == s.drops(first, i));
        } else {
            assert(flags(t, second, i - first) == t.drops(second, i - first));
        }
    }
    assert(a =~= b);
    assert(commit_versions(version, all) =~= commit_versions(version, first) + commit_versions(
        version,
        second,
    ));
}

/// A row has the position that follows those of the rows before it, as far as positions go.
pub proof fn a_row_has_its_position_in_the_file(offset: int, rows: int, i: int)
    requires
        0 <= offset,
        0 <= i < rows,
        offset + rows <= u64::MAX,
    ensures
        row_indexes(offset, rows).len() == rows,
        row_indexes(offset, rows)[i] == offset + i,
{
}

/// A row's id is the base row id of its file plus its position in the file, and the largest
/// one where that is too large. A file without a base row id has none.
pub proof fn a_row_id_is_the_base_plus_the_position(
    base: Option<i64>,
    offset: int,
    rows: int,
    i: int,
)
    requires
        0 <= offset,
        0 <= i < rows,
        offset + i <= i64::MAX,
    ensures
        row_ids(base, offset, rows).len() == rows,
        base is None ==> row_ids(base, offset, rows)[i] is None,
        base matches Some(b) ==> (b + offset + i <= i64::MAX ==> (row_ids(base, offset, rows)[i]
            matches Some(id) && id == b + offset + i)),
        base matches Some(b) ==> (b + offset + i > i64::MAX ==> row_ids(base, offset, rows)[i]
            == Some(i64::MAX)),
{
}

/// Every row of a file has the commit version of the file.
pub proof fn a_row_has_the_commit_version_of_its_file(version: Option<i64>, rows: int, i: int)
    requires
        0 <= i < rows,
    ensures
        commit_versions(version, rows).len() == rows,
        commit_versions(version, rows)[i] == version,
{
}

/// In a stream in step a row is flagged with one where the deletion vector lists its
/// position in the file, and with zero where it does not.
pub proof fn a_row_is_flagged_exactly_where_it_is_listed(s: DvState, rows: int, i: int)
    requires
        s.in_step(),
        0 <= i < rows,
    ensures
        deleted_flags(s, rows).len() == rows,
        (exists|j: int| 0 <= j < s.deleted.len() && #[trigger] s.deleted[j] == s.offset + i)
            ==> deleted_flags(s, rows)[i] == 1,
        (forall|j: int| 0 <= j < s.deleted.len() ==> #[trigger] s.deleted[j] != s.offset + i)
            ==> deleted_flags(s, rows)[i] == 0,
{
    flagged_rows_are_the_filtered_rows(s, rows);
    stream_in_step_drops_exactly_the_deleted_rows(s, rows);
    assert(flags(s, rows, i) == s.drops(rows, i));
}

/// How many columns an answer to a question stands for.
pub open spec fn one_if(c: bool) -> int {
    if c {
        1
    } else {
        0
    }
}

/// The columns that are asked for are added, one for each, in the order of row position,
/// deletion flag, row id and commit version; each has its own name, and its cells are the
/// positions, flags, ids and versions of the rows.
pub proof fn asked_columns_are_added_in_order(st: DeltaSyntheticColumnsStream, rows: int)
    requires
        0 <= rows,
        st.current_row_offset + rows <= u64::MAX,
    ensures
        ({
            let added = st.added_columns(rows);
            let e = st.emit;
            let a = one_if(e.row_index);
            let b = a + one_if(e.is_row_deleted);
            let c = b + one_if(e.row_id);
            let offset = st.current_row_offset as int;
            &&& added.len() == c + one_if(e.row_commit_version)
            &&& e.row_index ==> added[0].0 == st.row_index_column_name@ && added[0].1.len() == rows
                && forall|i: int|
                0 <= i < rows ==> #[trigger] added[0].1[i] == Some(offset + i)
            &&& e.is_row_deleted ==> added[a].0 == IS_ROW_DELETED_COLUMN_NAME@ && added[a].1.len()
                == rows && forall|i: int|
                0 <= i < rows ==> #[trigger] added[a].1[i] == Some(
                    deleted_flags(st.position(), rows)[i] as int,
                )
            &&& e.row_id ==> added[b].0 == ROW_ID_COLUMN_NAME@ && added[b].1.len() == rows
                && forall|i: int|
                0 <= i < rows ==> #[trigger] added[b].1[i] == (match row_ids(
                    st.base_row_id,
                    offset,
                    rows,
                )[i] {
                    Some(id) => Some(id as int),
                    None => None,
                })
            &&& e.row_commit_version ==> added[c].0 == ROW_COMMIT_VERSION_COLUMN_NAME@
                && added[c].1.len() == rows && forall|i: int|
                0 <= i < rows ==> #[trigger] added[c].1[i] == (
                match st.default_row_commit_version {
                    Some(v) => Some(v as int),
                    None => None,
                })
            &&& st.position().deleted == st.deleted@ && st.position().offset == offset
        }),
{
}

/// The declared columns that are added are those that are asked for, in the same order, with
/// their types: positions are unsigned, flags are 32-bit, and both are never missing; ids and
/// versions are 64-bit and may be.
pub proof fn asked_columns_are_declared_in_order(emit: Emit, row_index_name: Seq<char>)
    ensures
        ({
            let f = declared_fields(added_fields(emit, row_index_name));
            let a = one_if(emit.row_index);
            let b = a + one_if(emit.is_row_deleted);
            let c = b + one_if(emit.row_id);
            &&& f.len() == c + one_if(emit.row_commit_version)
            &&& emit.row_index ==> f[0] == (row_index_name, "UInt64"@, false)
            &&& emit.is_row_deleted ==> f[a] == (IS_ROW_DELETED_COLUMN_NAME@, "Int32"@, false)
            &&& emit.row_id ==> f[b] == (ROW_ID_COLUMN_NAME@, "Int64"@, true)
            &&& emit.row_commit_version ==> f[c] == (ROW_COMMIT_VERSION_COLUMN_NAME@, "Int64"@, true)
        }),
{
}

/// There is something to emit exactly where some column is asked for.
pub proof fn any_column_is_something_to_emit(emit: Emit)
    ensures
        emit.row_index ==> emit.anything(),
        emit.is_row_deleted ==> emit.anything(),
        emit.row_id ==> emit.anything(),
        emit.row_commit_version ==> emit.anything(),
        !emit.row_index && !emit.is_row_deleted && !emit.row_id && !emit.row_commit_version
            ==> !emit.anything(),
{
}

} // verus!
