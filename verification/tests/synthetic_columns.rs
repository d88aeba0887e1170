//! Columns that are computed from the position of a row in its file.

use std::sync::Arc;

use arrow::array::{Array, Int32Array, Int64Array, RecordBatch, UInt64Array};
use arrow::datatypes::{DataType, Field, Schema};
use comet_delta::delta::batch::Batch;
use comet_delta::delta::synthetic_columns::{
    build_output_schema, DeltaSyntheticColumnsExec, DeltaSyntheticColumnsStream, Emit, FieldKind,
    OutputField, SyntheticError, IS_ROW_DELETED_COLUMN_NAME, ROW_COMMIT_VERSION_COLUMN_NAME,
    ROW_ID_COLUMN_NAME, ROW_INDEX_COLUMN_NAME,
};

fn input_schema() -> Vec<OutputField> {
    vec![OutputField { name: "v".to_string(), kind: FieldKind::Input, nullable: false }]
}

fn emit(row_index: bool, is_row_deleted: bool, row_id: bool, row_commit_version: bool) -> Emit {
    Emit { row_index, is_row_deleted, row_id, row_commit_version }
}

fn declared() -> Arc<Schema> {
    Arc::new(Schema::new(vec![Field::new("v", DataType::Int64, false)]))
}

fn batch(values: &[i64]) -> Batch {
    let column = Arc::new(Int64Array::from(values.to_vec()));
    Batch { inner: RecordBatch::try_new(declared(), vec![column]).unwrap() }
}

fn make_stream(
    emit_row_index: bool,
    emit_is_row_deleted: bool,
    emit_row_id: bool,
    emit_row_commit_version: bool,
    deleted: Vec<u64>,
    base_row_id: Option<i64>,
    default_row_commit_version: Option<i64>,
) -> DeltaSyntheticColumnsStream {
    DeltaSyntheticColumnsExec::new(
        1,
        declared(),
        vec![deleted],
        vec![base_row_id],
        vec![default_row_commit_version],
        emit(emit_row_index, emit_is_row_deleted, emit_row_id, emit_row_commit_version),
        ROW_INDEX_COLUMN_NAME,
    )
    .unwrap()
    .stream(0)
}

fn u64s(b: &Batch, i: usize) -> Vec<u64> {
    b.inner
        .column(i)
        .as_any()
        .downcast_ref::<UInt64Array>()
        .unwrap()
        .iter()
        .map(Option::unwrap)
        .collect()
}

fn i32s(b: &Batch, i: usize) -> Vec<i32> {
    b.inner
        .column(i)
        .as_any()
        .downcast_ref::<Int32Array>()
        .unwrap()
        .iter()
        .map(Option::unwrap)
        .collect()
}

fn i64s(b: &Batch, i: usize) -> Vec<i64> {
    b.inner
        .column(i)
        .as_any()
        .downcast_ref::<Int64Array>()
        .unwrap()
        .iter()
        .map(Option::unwrap)
        .collect()
}

fn nulls(b: &Batch, i: usize) -> usize {
    b.inner.column(i).null_count()
}

#[test]
fn schema_only_row_index() {
    let s = build_output_schema(
        input_schema(),
        emit(true, false, false, false),
        ROW_INDEX_COLUMN_NAME,
    );
    let names: Vec<&str> = s.iter().map(|f| f.name.as_str()).collect();
    assert_eq!(names, vec!["v", ROW_INDEX_COLUMN_NAME]);
}

#[test]
fn schema_all_four_in_order() {
    let s = build_output_schema(
        input_schema(),
        emit(true, true, true, true),
        ROW_INDEX_COLUMN_NAME,
    );
    let names: Vec<&str> = s.iter().map(|f| f.name.as_str()).collect();
    assert_eq!(
        names,
        vec![
            "v",
            ROW_INDEX_COLUMN_NAME,
            IS_ROW_DELETED_COLUMN_NAME,
            ROW_ID_COLUMN_NAME,
            ROW_COMMIT_VERSION_COLUMN_NAME,
        ]
    );
    let nullables: Vec<bool> = s.iter().map(|f| f.nullable).collect();
    assert_eq!(nullables, vec![false, false, false, true, true]);
    let kinds: Vec<FieldKind> = s.iter().map(|f| f.kind).collect();
    assert_eq!(
        kinds,
        vec![
            FieldKind::Input,
            FieldKind::UInt64,
            FieldKind::Int32,
            FieldKind::Int64,
            FieldKind::Int64,
        ]
    );
}

#[test]
fn schema_emit_subset_preserves_order() {
    let s = build_output_schema(
        input_schema(),
        emit(false, true, false, true),
        ROW_INDEX_COLUMN_NAME,
    );
    let names: Vec<&str> = s.iter().map(|f| f.name.as_str()).collect();
    assert_eq!(
        names,
        vec!["v", IS_ROW_DELETED_COLUMN_NAME, ROW_COMMIT_VERSION_COLUMN_NAME]
    );
}

#[test]
fn augment_row_index_single_batch() {
    let mut s = make_stream(true, false, false, false, vec![], None, None);
    let out = s.augment(batch(&[10, 20, 30])).unwrap();
    assert_eq!(u64s(&out, 1), vec![0, 1, 2]);
}

#[test]
fn augment_row_index_multi_batch_monotonic() {
    let mut s = make_stream(true, false, false, false, vec![], None, None);
    let out1 = s.augment(batch(&[1, 2, 3])).unwrap();
    let out2 = s.augment(batch(&[4, 5])).unwrap();
    assert_eq!(u64s(&out1, 1), vec![0, 1, 2]);
    assert_eq!(u64s(&out2, 1), vec![3, 4]);
}

#[test]
fn augment_is_row_deleted_marks_correct_indexes() {
    let mut s = make_stream(false, true, false, false, vec![1, 3], None, None);
    let out = s.augment(batch(&[10, 20, 30, 40, 50])).unwrap();
    assert_eq!(i32s(&out, 1), vec![0, 1, 0, 1, 0]);
}

#[test]
fn augment_is_row_deleted_writes_back_next_delete_idx() {
    let mut s = make_stream(false, true, false, false, vec![0, 1, 2, 7], None, None);
    let _ = s.augment(batch(&[10, 20, 30])).unwrap();
    assert_eq!(s.next_delete_idx, 3);
    let out2 = s.augment(batch(&[40, 50, 60, 70, 80])).unwrap();
    assert_eq!(i32s(&out2, 1), vec![0, 0, 0, 0, 1]);
    assert_eq!(s.next_delete_idx, 4);
}

#[test]
fn augment_row_id_with_base() {
    let mut s = make_stream(false, false, true, false, vec![], Some(1000), None);
    let out = s.augment(batch(&[10, 20, 30])).unwrap();
    assert_eq!(i64s(&out, 1), vec![1000, 1001, 1002]);
    let out2 = s.augment(batch(&[40])).unwrap();
    assert_eq!(i64s(&out2, 1), vec![1003]);
}

#[test]
fn augment_row_id_without_base_emits_nulls() {
    let mut s = make_stream(false, false, true, false, vec![], None, None);
    let out = s.augment(batch(&[10, 20])).unwrap();
    assert_eq!(nulls(&out, 1), 2);
}

#[test]
fn augment_row_commit_version_constant() {
    let mut s = make_stream(false, false, false, true, vec![], None, Some(7));
    let out = s.augment(batch(&[10, 20, 30])).unwrap();
    assert_eq!(i64s(&out, 1), vec![7, 7, 7]);
}

#[test]
fn augment_row_commit_version_without_default_emits_nulls() {
    let mut s = make_stream(false, false, false, true, vec![], None, None);
    let out = s.augment(batch(&[1, 2])).unwrap();
    assert_eq!(nulls(&out, 1), 2);
}

#[test]
fn augment_all_four_columns_combined() {
    let mut s = make_stream(true, true, true, true, vec![1], Some(500), Some(42));
    let out = s.augment(batch(&[10, 20, 30])).unwrap();
    assert_eq!(out.inner.schema().fields().len(), 5);
    assert_eq!(i64s(&out, 0), vec![10, 20, 30]);
    assert_eq!(u64s(&out, 1), vec![0, 1, 2]);
    assert_eq!(i32s(&out, 2), vec![0, 1, 0]);
    assert_eq!(i64s(&out, 3), vec![500, 501, 502]);
    assert_eq!(i64s(&out, 4), vec![42, 42, 42]);
}

#[test]
fn augment_empty_batch_preserves_schema() {
    let mut s = make_stream(true, true, true, true, vec![], Some(0), Some(0));
    let out = s.augment(batch(&[])).unwrap();
    assert_eq!(out.inner.schema().fields().len(), 5);
    assert_eq!(out.inner.num_rows(), 0);
}

#[test]
fn new_validates_partition_count_mismatch() {
    let err = DeltaSyntheticColumnsExec::new(
        1,
        declared(),
        vec![vec![], vec![]],
        vec![None, None],
        vec![None, None],
        emit(true, false, false, false),
        ROW_INDEX_COLUMN_NAME,
    )
    .unwrap_err();
    let m = err.message();
    assert!(m.contains("partition count mismatch") || m.contains("partitions"));
    assert_eq!(
        m,
        "DeltaSyntheticColumnsExec: per-partition vec lengths don't match input partitions (1): \
         dv=2, base_row_ids=2, default_commit_versions=2"
    );
}

#[test]
fn nothing_to_emit_is_an_error() {
    let err = DeltaSyntheticColumnsExec::new(
        1,
        declared(),
        vec![vec![]],
        vec![None],
        vec![None],
        emit(false, false, false, false),
        ROW_INDEX_COLUMN_NAME,
    )
    .unwrap_err();
    assert_eq!(err.message(), "DeltaSyntheticColumnsExec constructed with nothing to emit");
    assert_eq!(
        SyntheticError::Append("why".to_string()).message(),
        "DeltaSyntheticColumnsExec: failed to append synthetic columns: why"
    );
}

#[test]
fn added_columns_have_their_names() {
    let exec = DeltaSyntheticColumnsExec::new(
        1,
        declared(),
        vec![vec![]],
        vec![None],
        vec![None],
        emit(true, true, true, true),
        "_tmp_metadata_row_index",
    )
    .unwrap();
    let out = exec.stream(0).augment(batch(&[1])).unwrap();
    let names: Vec<String> = out
        .inner
        .schema()
        .fields()
        .iter()
        .map(|f| f.name().clone())
        .collect();
    let want = vec![
        "v",
        "_tmp_metadata_row_index",
        "__delta_internal_is_row_deleted",
        "row_id",
        "row_commit_version",
    ];
    assert_eq!(names, want);
}

#[test]
fn batches_come_out_as_declared() {
    let nullable = Arc::new(Schema::new(vec![Field::new("w", DataType::Int64, true)]));
    let exec = DeltaSyntheticColumnsExec::new(
        1,
        nullable,
        vec![vec![]],
        vec![None],
        vec![None],
        emit(true, true, true, true),
        ROW_INDEX_COLUMN_NAME,
    )
    .unwrap();
    let out = exec.stream(0).augment(batch(&[1, 2])).unwrap();
    let schema = out.inner.schema();
    let fields: Vec<(&str, DataType, bool)> = schema
        .fields()
        .iter()
        .map(|f| (f.name().as_str(), f.data_type().clone(), f.is_nullable()))
        .collect();
    assert_eq!(
        fields,
        vec![
            ("w", DataType::Int64, true),
            (ROW_INDEX_COLUMN_NAME, DataType::UInt64, false),
            (IS_ROW_DELETED_COLUMN_NAME, DataType::Int32, false),
            (ROW_ID_COLUMN_NAME, DataType::Int64, true),
            (ROW_COMMIT_VERSION_COLUMN_NAME, DataType::Int64, true),
        ]
    );
}

#[test]
fn a_batch_that_is_not_as_declared_is_an_error() {
    let refuse = |schema: Schema| {
        let exec = DeltaSyntheticColumnsExec::new(
            1,
            Arc::new(schema),
            vec![vec![]],
            vec![None],
            vec![None],
            emit(true, false, false, false),
            ROW_INDEX_COLUMN_NAME,
        )
        .unwrap();
        match exec.stream(0).augment(batch(&[1, 2])) {
            Err(SyntheticError::Append(_)) => {}
            _ => panic!("the batch must be refused"),
        };
    };
    refuse(Schema::new(vec![Field::new("v", DataType::Int32, false)]));
    refuse(Schema::new(Vec::<Field>::new()));
    refuse(Schema::new(vec![
        Field::new("v", DataType::Int64, false),
        Field::new("w", DataType::Int64, false),
    ]));
}

#[test]
fn any_batching_gives_the_same_columns() {
    let rows: Vec<i64> = (0..12).collect();
    let columns = |size: usize| {
        let mut s = make_stream(true, true, true, true, vec![1, 1, 4, 11], Some(100), Some(7));
        let (mut a, mut b, mut c, mut d) = (vec![], vec![], vec![], vec![]);
        for chunk in rows.chunks(size) {
            let out = s.augment(batch(chunk)).unwrap();
            a.extend(u64s(&out, 1));
            b.extend(i32s(&out, 2));
            c.extend(i64s(&out, 3));
            d.extend(i64s(&out, 4));
        }
        (a, b, c, d)
    };
    let whole = columns(12);
    assert_eq!(whole.1, vec![0, 1, 0, 0, 1, 0, 0, 0, 0, 0, 0, 1]);
    for size in 1..12 {
        assert_eq!(columns(size), whole);
    }
}

#[test]
fn row_ids_saturate() {
    let mut s = make_stream(false, false, true, false, vec![], Some(i64::MAX - 1), None);
    let out = s.augment(batch(&[1, 2, 3])).unwrap();
    assert_eq!(i64s(&out, 1), vec![i64::MAX - 1, i64::MAX, i64::MAX]);
}

#[test]
fn stale_indexes_are_skipped() {
    let mut s = make_stream(false, true, false, false, vec![1, 6], None, None);
    s.current_row_offset = 5;
    let out = s.augment(batch(&[1, 2, 3])).unwrap();
    assert_eq!(i32s(&out, 1), vec![0, 1, 0]);
    assert_eq!(s.next_delete_idx, 2);
}

#[test]
fn flagged_rows_are_those_that_the_filter_drops() {
    let deleted: Vec<u64> = vec![0, 2, 3, 7];
    let mut flagging = make_stream(false, true, false, false, deleted.clone(), None, None);
    let mut filter = comet_delta::delta::dv_filter::DeltaDvFilterStream::new(deleted);
    for size in [3usize, 1, 4] {
        let rows: Vec<i64> = (0..size as i64).collect();
        let flags = i32s(&flagging.augment(batch(&rows)).unwrap(), 1);
        let kept = i64s(&filter.apply(batch(&rows)).unwrap(), 0);
        let want: Vec<i64> = rows
            .iter()
            .copied()
            .filter(|r| flags[*r as usize] == 0)
            .collect();
        assert_eq!(kept, want);
    }
}
