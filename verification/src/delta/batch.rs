//! The calls made on Arrow record batches.

use std::sync::Arc;

use arrow::array::{
    Array, BooleanArray, Int32Array, Int64Array, RecordBatch, RecordBatchOptions, UInt64Array,
};
use arrow::compute::filter_record_batch;
use arrow::datatypes::{DataType, Field, FieldRef, Schema};
use vstd::prelude::*;

verus! {

/// An `arrow::array::RecordBatch`: a table of rows held column by column.
#[verifier::external_body]
pub struct Batch {
    pub inner: RecordBatch,
}

/// `arrow::datatypes::Schema`: the names, types and nullability of columns.
#[verifier::external_type_specification]
#[verifier::external_body]
pub struct ExSchema(Schema);

/// The columns that a schema declares, in order: the name of each, its type as Arrow
/// writes it, and whether it may hold nulls.
pub uninterp spec fn schema_fields(s: Schema) -> Seq<(Seq<char>, Seq<char>, bool)>;

/// The schema of a batch.
pub uninterp spec fn batch_schema(b: Batch) -> Schema;

/// The columns of a batch are those that a schema declares: as many, each as long as the
/// batch and of the declared type to the letter, and without nulls where none may be.
pub uninterp spec fn batch_fits(b: Batch, s: Schema) -> bool;

/// The columns of a batch are those that its own schema declares.
pub open spec fn batch_intact(b: Batch) -> bool {
    batch_fits(b, batch_schema(b))
}

/// The columns under the names that a schema gives them.
pub open spec fn relabelled(
    columns: Seq<(Seq<char>, Seq<Option<int>>)>,
    fields: Seq<(Seq<char>, Seq<char>, bool)>,
) -> Seq<(Seq<char>, Seq<Option<int>>)> {
    Seq::new(columns.len(), |i: int| (fields[i].0, columns[i].1))
}

/// The columns of a batch in order, each with its name and its cells. A null
/// cell is `None`, a cell of an integer column is its value, and a cell of any
/// other column is a number that stands for its value, the same for the same
/// value.
pub uninterp spec fn batch_columns(b: Batch) -> Seq<(Seq<char>, Seq<Option<int>>)>;

/// The number of rows of a batch.
pub uninterp spec fn batch_rows(b: Batch) -> nat;

/// The elements whose flag is set, in order.
pub open spec fn kept<T>(s: Seq<T>, keep: Seq<bool>) -> Seq<T>
    decreases keep.len(),
{
    if keep.len() == 0 {
        Seq::empty()
    } else if keep.last() {
        kept(s, keep.drop_last()).push(s[keep.len() - 1])
    } else {
        kept(s, keep.drop_last())
    }
}

/// The number of flags that are set.
pub open spec fn count_set(keep: Seq<bool>) -> nat
    decreases keep.len(),
{
    if keep.len() == 0 {
        0
    } else {
        count_set(keep.drop_last()) + (if keep.last() {
            1nat
        } else {
            0
        })
    }
}

/// The columns with only the cells whose flag is set.
pub open spec fn kept_columns(
    columns: Seq<(Seq<char>, Seq<Option<int>>)>,
    keep: Seq<bool>,
) -> Seq<(Seq<char>, Seq<Option<int>>)> {
    Seq::new(columns.len(), |i: int| (columns[i].0, kept(columns[i].1, keep)))
}

/// The cells of a column without nulls.
pub open spec fn u64_cells(values: Seq<u64>) -> Seq<Option<int>> {
    Seq::new(values.len(), |i: int| Some(values[i] as int))
}

/// The cells of a column without nulls.
pub open spec fn i32_cells(values: Seq<i32>) -> Seq<Option<int>> {
    Seq::new(values.len(), |i: int| Some(values[i] as int))
}

/// The cells of a column that may hold nulls.
pub open spec fn i64_cells(values: Seq<Option<i64>>) -> Seq<Option<int>> {
    Seq::new(
        values.len(),
        |i: int|
            match values[i] {
                Some(v) => Some(v as int),
                None => None,
            },
    )
}

/// `RecordBatch::num_rows`: the number of rows.
#[verifier::external_body]
pub(crate) fn num_rows(batch: &Batch) -> (n: usize)
    ensures
        n == batch_rows(*batch),
{
    batch.inner.num_rows()
}

/// `Arc::clone`: another handle on the same schema.
#[verifier::external_body]
pub(crate) fn share(schema: &Arc<Schema>) -> (r: Arc<Schema>)
    ensures
        *r == **schema,
{
    Arc::clone(schema)
}

/// `RecordBatch::try_new_with_options` with a batch's columns and rows under a declared
/// schema: the call checks that the columns are those declared.
#[verifier::external_body]
pub(crate) fn declare(batch: Batch, schema: &Arc<Schema>) -> (r: Result<Batch, String>)
    ensures
        match r {
            Ok(out) => {
                &&& batch_fits(batch, **schema)
                &&& batch_rows(out) == batch_rows(batch)
                &&& schema_fields(**schema).len() == batch_columns(batch).len()
                &&& batch_columns(out) == relabelled(
                    batch_columns(batch),
                    schema_fields(**schema),
                )
                &&& batch_schema(out) == **schema
                &&& batch_fits(out, batch_schema(out))
            },
            Err(_) => !batch_fits(batch, **schema),
        },
{
    let options = RecordBatchOptions::new().with_row_count(Some(batch.inner.num_rows()));
    let columns: Vec<Arc<dyn Array>> = batch.inner.columns().to_vec();
    let out = RecordBatch::try_new_with_options(Arc::clone(schema), columns, &options);
    out.map(|inner| Batch { inner }).map_err(|e| e.to_string())
}

/// `arrow::compute::filter_record_batch` with one flag for each row: a batch of
/// the same columns with only the rows whose flag is set. The call fails only where
/// a column, or a part of a nested one, is shorter than the batch.
#[verifier::external_body]
pub(crate) fn filter_batch(batch: &Batch, keep: Vec<bool>) -> (r: Result<Batch, String>)
    requires
        keep@.len() == batch_rows(*batch),
    ensures
        match r {
            Ok(out) => {
                &&& batch_rows(out) == count_set(keep@)
                &&& batch_columns(out) == kept_columns(batch_columns(*batch), keep@)
                &&& batch_schema(out) == batch_schema(*batch)
            },
            Err(_) => !batch_fits(*batch, batch_schema(*batch)),
        },
{
    let out = filter_record_batch(&batch.inner, &BooleanArray::from(keep));
    out.map(|inner| Batch { inner }).map_err(|e| e.to_string())
}

/// `RecordBatch::try_new` with the batch's own columns and one more, of 64-bit
/// unsigned integers without nulls. The call fails where the batch's columns are not
/// those that its own schema declares.
#[verifier::external_body]
pub(crate) fn append_u64_column(batch: Batch, name: &str, values: Vec<u64>) -> (r: Result<
    Batch,
    String,
>)
    requires
        values@.len() == batch_rows(batch),
    ensures
        match r {
            Ok(out) => {
                &&& batch_rows(out) == batch_rows(batch)
                &&& batch_columns(out) == batch_columns(batch).push((name@, u64_cells(values@)))
                &&& schema_fields(batch_schema(out)) == schema_fields(batch_schema(batch)).push(
                    (name@, "UInt64"@, false),
                )
                &&& batch_fits(out, batch_schema(out))
            },
            Err(_) => !batch_fits(batch, batch_schema(batch)),
        },
{
    let mut fields: Vec<FieldRef> = batch.inner.schema().fields().to_vec();
    fields.push(Arc::new(Field::new(name, DataType::UInt64, false)));
    let mut columns: Vec<Arc<dyn Array>> = batch.inner.columns().to_vec();
    columns.push(Arc::new(UInt64Array::from(values)));
    let out = RecordBatch::try_new(Arc::new(Schema::new(fields)), columns);
    out.map(|inner| Batch { inner }).map_err(|e| e.to_string())
}

/// `RecordBatch::try_new` with the batch's own columns and one more, of 32-bit
/// integers without nulls. The call fails where the batch's columns are not those
/// that its own schema declares.
#[verifier::external_body]
pub(crate) fn append_i32_column(batch: Batch, name: &str, values: Vec<i32>) -> (r: Result<
    Batch,
    String,
>)
    requires
        values@.len() == batch_rows(batch),
    ensures
        match r {
            Ok(out) => {
                &&& batch_rows(out) == batch_rows(batch)
                &&& batch_columns(out) == batch_columns(batch).push((name@, i32_cells(values@)))
                &&& schema_fields(batch_schema(out)) == schema_fields(batch_schema(batch)).push(
                    (name@, "Int32"@, false),
                )
                &&& batch_fits(out, batch_schema(out))
            },
            Err(_) => !batch_fits(batch, batch_schema(batch)),
        },
{
    let mut fields: Vec<FieldRef> = batch.inner.schema().fields().to_vec();
    fields.push(Arc::new(Field::new(name, DataType::Int32, false)));
    let mut columns: Vec<Arc<dyn Array>> = batch.inner.columns().to_vec();
    columns.push(Arc::new(Int32Array::from(values)));
    let out = RecordBatch::try_new(Arc::new(Schema::new(fields)), columns);
    out.map(|inner| Batch { inner }).map_err(|e| e.to_string())
}

/// `RecordBatch::try_new` with the batch's own columns and one more, of 64-bit
/// integers that may be null. The call fails where the batch's columns are not those
/// that its own schema declares.
#[verifier::external_body]
pub(crate) fn append_i64_column(
    batch: Batch,
    name: &str,
    values: Vec<Option<i64>>,
) -> (r: Result<Batch, String>)
    requires
        values@.len() == batch_rows(batch),
    ensures
        match r {
            Ok(out) => {
                &&& batch_rows(out) == batch_rows(batch)
                &&& batch_columns(out) == batch_columns(batch).push((name@, i64_cells(values@)))
                &&& schema_fields(batch_schema(out)) == schema_fields(batch_schema(batch)).push(
                    (name@, "Int64"@, true),
                )
                &&& batch_fits(out, batch_schema(out))
            },
            Err(_) => !batch_fits(batch, batch_schema(batch)),
        },
{
    let mut fields: Vec<FieldRef> = batch.inner.schema().fields().to_vec();
    fields.push(Arc::new(Field::new(name, DataType::Int64, true)));
    let mut columns: Vec<Arc<dyn Array>> = batch.inner.columns().to_vec();
    columns.push(Arc::new(Int64Array::from(values)));
    let out = RecordBatch::try_new(Arc::new(Schema::new(fields)), columns);
    out.map(|inner| Batch { inner }).map_err(|e| e.to_string())
}

/// Keeping elements of two parts keeps them of the whole.
pub proof fn lemma_kept_append<T>(a: Seq<T>, b: Seq<T>, ka: Seq<bool>, kb: Seq<bool>)
    requires
        a.len() == ka.len(),
        b.len() == kb.len(),
    ensures
        kept(a + b, ka + kb) == kept(a, ka) + kept(b, kb),
    decreases kb.len(),
{
    if kb.len() == 0 {
        assert(ka + kb =~= ka);
        lemma_kept_prefix(a, b, ka);
        assert(kept(a, ka) + kept(b, kb) =~= kept(a, ka));
    } else {
        let kb1 = kb.drop_last();
        let b1 = b.drop_last();
        assert((ka + kb).drop_last() =~= ka + kb1);
        lemma_kept_append(a, b1, ka, kb1);
        lemma_kept_prefix(a + b1, seq![b.last()], ka + kb1);
        assert(a + b =~= (a + b1) + seq![b.last()]);
        lemma_kept_prefix(b1, seq![b.last()], kb1);
        assert(b =~= b1 + seq![b.last()]);
        assert((a + b)[(ka + kb).len() - 1] == b[kb.len() - 1]);
        assert(kept(a + b, ka + kb) =~= kept(a, ka) + kept(b, kb));
    }
}

/// Only as many elements are looked at as there are flags.
proof fn lemma_kept_prefix<T>(a: Seq<T>, b: Seq<T>, keep: Seq<bool>)
    requires
        keep.len() <= a.len(),
    ensures
        kept(a + b, keep) == kept(a, keep),
    decreases keep.len(),
{
    if keep.len() > 0 {
        lemma_kept_prefix(a, b, keep.drop_last());
    }
}

/// As many elements are kept as flags are set.
pub proof fn lemma_kept_len<T>(s: Seq<T>, keep: Seq<bool>)
    ensures
        kept(s, keep).len() == count_set(keep),
    decreases keep.len(),
{
    if keep.len() > 0 {
        lemma_kept_len(s, keep.drop_last());
    }
}

/// An element whose flag is set is kept, behind as many as flags are set before its own:
/// what is kept stays in order, and nothing else is.
pub proof fn kept_elements_stay_in_order<T>(s: Seq<T>, keep: Seq<bool>, i: int)
    requires
        0 <= i < keep.len() <= s.len(),
        keep[i],
    ensures
        count_set(keep.take(i)) < kept(s, keep).len(),
        kept(s, keep)[count_set(keep.take(i)) as int] == s[i],
    decreases keep.len(),
{
    let before = keep.drop_last();
    lemma_kept_len(s, before);
    if i < keep.len() - 1 {
        kept_elements_stay_in_order(s, before, i);
        assert(before.take(i) =~= keep.take(i));
    } else {
        assert(keep.take(i) =~= before);
    }
}

} // verus!
