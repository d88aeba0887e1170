//! Which byte ranges of a file are read ahead, and which columns are read at all.

use std::sync::Arc;

use arrow::array::{Float64Array, Int64Array, RecordBatch};
use arrow::datatypes::{DataType, Field, Schema};
use comet_delta::scan::prefetch::{
    chunk_ranges, first_step, footer_range, split_groups, ChunkLayout, PrefetchFile, PrefetchKind,
    PrefetchRun, RangeStep, FOOTER_SIZE_HINT, MAX_FILES_SKIPPED,
};
use comet_delta::scan::row_number::{
    output_positions, real_column_indices, ROW_NUMBER_COLUMN_NAME,
};
use datafusion::datasource::physical_plan::parquet::{ParquetAccessPlan, RowGroupAccessPlanFilter};
use datafusion_datasource::FileRange;
use parquet::arrow::{ArrowWriter, ProjectionMask};
use parquet::file::metadata::{ParquetMetaData, ParquetMetaDataReader};
use parquet::file::properties::WriterProperties;
use parquet::schema::parser::parse_message_type;
use parquet::schema::types::SchemaDescriptor;

fn file(size: u64, range: Option<std::ops::Range<u64>>) -> PrefetchFile {
    PrefetchFile { path: "f".to_string(), size, range }
}

fn ranges(s: RangeStep) -> Vec<std::ops::Range<u64>> {
    match s {
        RangeStep::Ranges(v) => v,
        RangeStep::ReadMetadata => panic!("expected ranges"),
    }
}

fn layout_of(m: &ParquetMetaData) -> ChunkLayout {
    let schema = m.file_metadata().schema_descr();
    ChunkLayout {
        roots: schema.root_schema().get_fields().len(),
        leaf_roots: (0..schema.num_columns()).map(|i| schema.get_column_root_idx(i)).collect(),
        chunks: m
            .row_groups()
            .iter()
            .map(|g| g.columns().iter().map(|c| c.byte_range()).collect())
            .collect(),
    }
}

#[test]
fn csv_reads_the_split() {
    let k = PrefetchKind::Csv;
    assert_eq!(ranges(first_step(&k, &file(100, Some(10..20)))), vec![10..20]);
    assert_eq!(ranges(first_step(&k, &file(100, None))), vec![0..100]);
    assert!(ranges(first_step(&k, &file(0, None))).is_empty());
    assert!(ranges(first_step(&k, &file(100, Some(20..20)))).is_empty());
    let mut backwards = 20..20;
    backwards.end = 10;
    assert!(ranges(first_step(&k, &file(100, Some(backwards)))).is_empty());
}

#[test]
fn encrypted_files_warm_the_footer_alone() {
    let k = PrefetchKind::Parquet { projection: vec![0], encryption: true };
    let big = 10 * FOOTER_SIZE_HINT;
    assert_eq!(ranges(first_step(&k, &file(big, None))), vec![9 * FOOTER_SIZE_HINT..big]);
    assert_eq!(ranges(first_step(&k, &file(7, None))), vec![0..7]);
    assert!(ranges(first_step(&k, &file(0, None))).is_empty());
    assert_eq!(footer_range(7), 0..7);
}

#[test]
fn plain_parquet_needs_its_metadata() {
    let k = PrefetchKind::Parquet { projection: vec![0], encryption: false };
    assert!(matches!(first_step(&k, &file(100, None)), RangeStep::ReadMetadata));
}

#[test]
fn projected_chunks_are_read_in_offset_order() {
    let m = ChunkLayout {
        roots: 3,
        // The second column is nested: it has two leaves.
        leaf_roots: vec![0, 1, 1, 2],
        chunks: vec![
            vec![(100, 10), (110, 20), (130, 0), (4, 50)],
            vec![(200, 10), (210, 20), (230, 5), (300, 7)],
        ],
    };
    assert_eq!(
        chunk_ranges(&m, &vec![1, 2], &vec![0, 1]),
        vec![4..54, 110..130, 210..230, 230..235, 300..307]
    );
    assert_eq!(chunk_ranges(&m, &vec![0], &vec![1]), vec![200..210]);
    // Positions beyond the file's columns, and row groups left out, are not read.
    assert!(chunk_ranges(&m, &vec![3, 9], &vec![0, 1]).is_empty());
    assert!(chunk_ranges(&m, &vec![0, 1, 2], &vec![]).is_empty());
    // A group that is named twice is read once.
    assert_eq!(chunk_ranges(&m, &vec![0], &vec![1, 1]), vec![200..210]);
}

#[test]
fn ranges_that_start_together_stay_in_order() {
    let m = ChunkLayout {
        roots: 3,
        leaf_roots: vec![0, 1, 2],
        chunks: vec![vec![(10, 5), (10, 3), (10, 5)]],
    };
    assert_eq!(
        chunk_ranges(&m, &vec![0, 1, 2], &vec![0]),
        vec![10..15, 10..13, 10..15]
    );
}

#[test]
fn two_of_three_columns_in_two_row_groups() {
    let schema = Arc::new(Schema::new(vec![
        Field::new("a", DataType::Int64, false),
        Field::new("b", DataType::Float64, false),
        Field::new("c", DataType::Int64, false),
    ]));
    let n: usize = 4_000;
    let mut s: u64 = 0x9E37_79B9_7F4A_7C15;
    let mut next = || {
        s = s.wrapping_mul(6364136223846793005).wrapping_add(1);
        s
    };
    let a: Vec<i64> = (0..n).map(|_| next() as i64).collect();
    let b: Vec<f64> = (0..n).map(|_| (next() >> 11) as f64).collect();
    let c: Vec<i64> = (0..n).map(|_| next() as i64).collect();
    let batch = RecordBatch::try_new(
        Arc::clone(&schema),
        vec![
            Arc::new(Int64Array::from(a)),
            Arc::new(Float64Array::from(b)),
            Arc::new(Int64Array::from(c)),
        ],
    )
    .unwrap();
    let props = WriterProperties::builder()
        .set_max_row_group_row_count(Some(2_000))
        .build();
    let mut buf = Vec::new();
    let mut w = ArrowWriter::try_new(&mut buf, Arc::clone(&schema), Some(props)).unwrap();
    w.write(&batch).unwrap();
    w.close().unwrap();
    let bytes = bytes::Bytes::from(buf);
    let metadata = ParquetMetaDataReader::new().parse_and_finish(&bytes).unwrap();
    assert_eq!(metadata.num_row_groups(), 2);
    let layout = layout_of(&metadata);

    let got = chunk_ranges(&layout, &vec![0, 2], &vec![0, 1]);
    assert_eq!(got.len(), 4, "only projected columns' chunks, both row groups");
    let mut want: Vec<std::ops::Range<u64>> = Vec::new();
    for g in metadata.row_groups() {
        for leaf in [0usize, 2] {
            let (start, len) = g.column(leaf).byte_range();
            want.push(start..start + len);
        }
    }
    want.sort_by_key(|r| r.start);
    assert_eq!(got, want);
}

#[test]
fn files_are_taken_in_order_until_cancelled() {
    let mut run = PrefetchRun::new(3);
    assert_eq!(run.next_file(false), Some(0));
    assert_eq!(run.next_file(false), Some(1));
    assert_eq!(run.next_file(true), None);
    assert_eq!(run.next_file(false), None, "a cancelled run stays stopped");

    let mut run = PrefetchRun::new(1);
    assert_eq!(run.next_file(false), Some(0));
    assert_eq!(run.next_file(false), None);

    let mut run = PrefetchRun::new(2);
    assert_eq!(run.next_file(false), Some(0));
    run.note_cancelled();
    assert_eq!(run.next_file(false), None);
}

#[test]
fn too_many_skipped_files_stop_the_run() {
    let mut run = PrefetchRun::new(10);
    for _ in 0..MAX_FILES_SKIPPED - 1 {
        assert!(run.next_file(false).is_some());
        run.note_skipped();
    }
    assert!(run.next_file(false).is_some());
    run.note_skipped();
    assert_eq!(run.next_file(false), None);
    run.note_skipped();
    assert_eq!(run.next_file(false), None);
}

#[test]
fn row_numbers_are_not_read_from_the_file() {
    assert_eq!(ROW_NUMBER_COLUMN_NAME, "__comet_delta_row_number");
    assert_eq!(real_column_indices(None, 4), vec![0, 1, 2]);
    assert_eq!(real_column_indices(Some(vec![2, 0, 3]), 4), vec![2, 0]);
    assert_eq!(real_column_indices(Some(vec![3, 3, 1, 1]), 4), vec![1, 1]);
    assert!(real_column_indices(None, 1).is_empty());
    assert!(real_column_indices(None, 0).is_empty());
}

#[test]
fn splits_share_the_row_groups_out() {
    let first_pages = vec![4, 100, 250, 251];
    assert_eq!(split_groups(&first_pages, &None), vec![0, 1, 2, 3]);
    assert_eq!(split_groups(&first_pages, &Some(0..100)), vec![0]);
    assert_eq!(split_groups(&first_pages, &Some(100..251)), vec![1, 2]);
    assert_eq!(split_groups(&first_pages, &Some(251..400)), vec![3]);
    assert!(split_groups(&first_pages, &Some(5..5)).is_empty());
    assert!(split_groups(&Vec::new(), &None).is_empty());
    // An end beyond the signed range lies before every page.
    assert!(split_groups(&first_pages, &Some(0..u64::MAX)).is_empty());
}

#[test]
fn the_split_rule_is_that_of_the_reader() {
    let schema = Arc::new(Schema::new(vec![Field::new("a", DataType::Int64, false)]));
    let mut bytes: Vec<u8> = Vec::new();
    let props = WriterProperties::builder().set_max_row_group_row_count(Some(10)).build();
    let mut w = ArrowWriter::try_new(&mut bytes, schema.clone(), Some(props)).unwrap();
    let values = Int64Array::from_iter_values(0..35);
    w.write(&RecordBatch::try_new(schema, vec![Arc::new(values)]).unwrap()).unwrap();
    w.close().unwrap();
    let size = bytes.len() as u64;
    let m = ParquetMetaDataReader::new().parse_and_finish(&bytes::Bytes::from(bytes)).unwrap();
    let groups = m.row_groups();
    assert_eq!(groups.len(), 4);
    let first_pages: Vec<i64> = groups
        .iter()
        .map(|g| {
            let c = g.column(0);
            c.dictionary_page_offset().unwrap_or_else(|| c.data_page_offset())
        })
        .collect();
    for start in (0..size).step_by(7) {
        for end in (start..size).step_by(11) {
            let mut reader = RowGroupAccessPlanFilter::new(ParquetAccessPlan::new_all(4));
            reader.prune_by_range(
                groups,
                &FileRange { start: start as i64, end: end as i64 },
            );
            assert_eq!(
                split_groups(&first_pages, &Some(start..end)),
                reader.build().row_group_indexes()
            );
        }
    }
}

#[test]
fn the_projection_rule_is_that_of_the_reader() {
    let message = "message m {
        required int64 a;
        required group b { required int64 x; required group y { required int64 z; } }
        required int64 c;
    }";
    let schema = SchemaDescriptor::new(Arc::new(parse_message_type(message).unwrap()));
    let layout = ChunkLayout {
        roots: schema.root_schema().get_fields().len(),
        leaf_roots: (0..schema.num_columns()).map(|i| schema.get_column_root_idx(i)).collect(),
        chunks: vec![(0..schema.num_columns() as u64).map(|l| (l * 10, 10)).collect()],
    };
    assert_eq!(layout.leaf_roots, vec![0, 1, 1, 2]);
    for projection in [vec![], vec![0], vec![1], vec![2, 0], vec![0, 1, 2], vec![1, 1]] {
        let mask = ProjectionMask::roots(&schema, projection.clone());
        let want: Vec<std::ops::Range<u64>> = (0..schema.num_columns())
            .filter(|l| mask.leaf_included(*l))
            .map(|l| l as u64 * 10..l as u64 * 10 + 10)
            .collect();
        assert_eq!(chunk_ranges(&layout, &projection, &vec![0]), want);
    }
    // A column that the file does not have is not read.
    assert!(chunk_ranges(&layout, &vec![3], &vec![0]).is_empty());
}

#[test]
fn columns_come_out_in_the_order_of_the_projection() {
    // The reader returns columns 0, 2 and 5, then the row numbers.
    assert_eq!(output_positions(&vec![5, 0, 2]), vec![2, 0, 1, 3]);
    assert_eq!(output_positions(&vec![2, 2, 0]), vec![1, 1, 0, 2]);
    assert_eq!(output_positions(&vec![0, 1]), vec![0, 1, 2]);
    assert_eq!(output_positions(&vec![]), vec![0]);
}
