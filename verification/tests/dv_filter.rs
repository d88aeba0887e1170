//! Rows that a deletion vector lists are dropped from batches.

use std::sync::Arc;

use arrow::array::{Array, Int64Array, RecordBatch};
use arrow::datatypes::{DataType, Field, Schema};
use comet_delta::delta::batch::Batch;
use comet_delta::delta::dv_filter::{DeltaDvFilterExec, DeltaDvFilterStream, DvError};

fn batch(values: &[i64]) -> Batch {
    let schema = Arc::new(Schema::new(vec![Field::new("v", DataType::Int64, false)]));
    let column = Arc::new(Int64Array::from(values.to_vec()));
    Batch { inner: RecordBatch::try_new(schema, vec![column]).unwrap() }
}

fn stream_with(deleted: Vec<u64>) -> DeltaDvFilterStream {
    DeltaDvFilterStream::new(deleted)
}

fn values(b: &Batch) -> Vec<i64> {
    b.inner
        .column(0)
        .as_any()
        .downcast_ref::<Int64Array>()
        .unwrap()
        .iter()
        .map(Option::unwrap)
        .collect()
}

#[test]
fn apply_empty_batch_passes_through() {
    let mut s = stream_with(vec![1, 3]);
    let out = s.apply(batch(&[])).unwrap();
    assert_eq!(out.inner.num_rows(), 0);
    assert_eq!(s.current_row_offset, 0);
    assert_eq!(s.next_delete_idx, 0);
}

#[test]
fn apply_no_deletes_is_passthrough() {
    let mut s = stream_with(vec![]);
    let b = batch(&[10, 20, 30, 40]);
    let out = s.apply(b).unwrap();
    assert_eq!(out.inner.num_rows(), 4);
    assert_eq!(s.current_row_offset, 4);
    assert_eq!(s.next_delete_idx, 0);
}

#[test]
fn apply_deletes_in_batch() {
    let mut s = stream_with(vec![1, 3]);
    let b = batch(&[10, 20, 30, 40, 50]);
    let out = s.apply(b).unwrap();
    assert_eq!(values(&out), vec![10, 30, 50]);
    assert_eq!(s.current_row_offset, 5);
    assert_eq!(s.next_delete_idx, 2);
}

#[test]
fn apply_delete_at_batch_boundaries() {
    let mut s = stream_with(vec![0, 4]);
    let b = batch(&[10, 20, 30, 40, 50]);
    let out = s.apply(b).unwrap();
    assert_eq!(values(&out), vec![20, 30, 40]);
}

#[test]
fn apply_multi_batch_with_deletes_spanning_boundary() {
    let mut s = stream_with(vec![1, 5, 7]);
    let out1 = s.apply(batch(&[10, 20, 30, 40])).unwrap();
    assert_eq!(values(&out1), vec![10, 30, 40]);
    assert_eq!(s.current_row_offset, 4);
    assert_eq!(s.next_delete_idx, 1);

    let out2 = s.apply(batch(&[50, 60, 70, 80])).unwrap();
    assert_eq!(values(&out2), vec![50, 70]);
    assert_eq!(s.current_row_offset, 8);
    assert_eq!(s.next_delete_idx, 3);
    assert_eq!(s.rows_dropped, 3);
}

#[test]
fn apply_deletes_beyond_batch_pass_through() {
    let mut s = stream_with(vec![100, 200]);
    let b = batch(&[10, 20, 30, 40]);
    let out = s.apply(b).unwrap();
    assert_eq!(out.inner.num_rows(), 4);
    assert_eq!(s.current_row_offset, 4);
    assert_eq!(s.next_delete_idx, 0);
}

#[test]
fn apply_all_rows_deleted() {
    let mut s = stream_with(vec![0, 1, 2]);
    let b = batch(&[10, 20, 30]);
    let out = s.apply(b).unwrap();
    assert_eq!(out.inner.num_rows(), 0);
    assert_eq!(s.current_row_offset, 3);
    assert_eq!(s.next_delete_idx, 3);
}

#[test]
fn apply_delete_index_predating_batch_errors() {
    let mut s = stream_with(vec![3]);
    s.current_row_offset = 5;
    let err = match s.apply(batch(&[100, 200])) {
        Err(e) => e,
        Ok(_) => panic!("an index before the batch must be an error"),
    };
    let msg = err.message();
    assert!(msg.contains("predates batch start"), "unexpected error: {msg}");
    assert_eq!(msg, "DV index 3 predates batch start 5");
}

#[test]
fn new_validates_partition_count() {
    let err = DeltaDvFilterExec::new(1, vec![vec![1u64], vec![2u64]]).unwrap_err();
    assert!(err.message().contains("got 2 DV entries for 1 partitions"));
}

#[test]
fn filter_error_is_handed_on() {
    assert_eq!(DvError::Filter("why".to_string()).message(), "why");
}

#[test]
fn partitions_have_their_own_vectors() {
    let exec = DeltaDvFilterExec::new(2, vec![vec![0u64], vec![]]).unwrap();
    assert_eq!(
        exec.describe(),
        "DeltaDvFilterExec: 1 partitions with DVs, 1 total deleted rows"
    );
    let mut first = exec.stream(0);
    assert_eq!(values(&first.apply(batch(&[1, 2])).unwrap()), vec![2]);
    let mut second = exec.stream(1);
    assert_eq!(values(&second.apply(batch(&[1, 2])).unwrap()), vec![1, 2]);
    let mut none = exec.stream(9);
    assert_eq!(values(&none.apply(batch(&[1, 2])).unwrap()), vec![1, 2]);
}

#[test]
fn any_batching_drops_the_same_rows() {
    let deleted: Vec<u64> = vec![0, 3, 4, 9, 11];
    let rows: Vec<i64> = (0..12).collect();
    let want: Vec<i64> = rows
        .iter()
        .copied()
        .filter(|r| !deleted.contains(&(*r as u64)))
        .collect();
    for size in 1..=12 {
        let mut s = stream_with(deleted.clone());
        let mut got: Vec<i64> = Vec::new();
        for chunk in rows.chunks(size) {
            got.extend(values(&s.apply(batch(chunk)).unwrap()));
        }
        assert_eq!(got, want);
    }
}

#[test]
fn a_row_listed_twice_is_dropped_once() {
    let mut s = stream_with(vec![1, 1, 5, 5, 5, 7]);
    assert_eq!(values(&s.apply(batch(&[10, 20, 30, 40])).unwrap()), vec![10, 30, 40]);
    assert_eq!(s.rows_dropped, 1);
    assert_eq!(s.next_delete_idx, 2);
    assert_eq!(values(&s.apply(batch(&[50, 60, 70, 80])).unwrap()), vec![50, 70]);
    assert_eq!(s.rows_dropped, 3);
    assert_eq!(s.next_delete_idx, 6);
}

#[test]
fn advance_gives_the_rows_to_keep() {
    let mut s = stream_with(vec![2, 5]);
    assert_eq!(s.advance(2).unwrap(), None);
    assert_eq!(s.advance(2).unwrap(), Some(vec![false, true]));
    assert_eq!(s.advance(0).unwrap(), None);
    assert_eq!(s.advance(2).unwrap(), Some(vec![true, false]));
    assert_eq!(s.rows_dropped, 2);
}
