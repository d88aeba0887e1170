//! Tasks of a scan, the files that they read, and how these are read together.

use comet_delta::delta::partition_value::{PartitionType, PartitionValue, TimeUnit};
use comet_delta::delta::request::{read_schema_list, scan_task_list, LogReplay};
use comet_delta::delta::scan_plan::{
    group_files, logical_to_physical, plan_delta_scan, rename_columns, reorder_columns, wrap_mode,
    ColumnMappingFilterRewriter, DeltaScan, DeltaScanCommon, FileScan, ScanPlan, Wrap,
};
use comet_delta::delta::tasks::{
    build_delta_partitioned_files, physical_to_logical, requested_version, scan_task,
    try_build_delta_partitioned_files, DeltaFileEntry, DeltaPartitionValue, DeltaScanTask,
    PartitionField, PlannedFile,
};
use comet_delta::options::OptionsMap;
use datafusion::common::ScalarValue;

fn opts(pairs: &[(&str, &str)]) -> OptionsMap {
    let mut m = OptionsMap::new();
    for (k, v) in pairs {
        m.insert(k.to_string(), v.to_string());
    }
    m
}

fn strings(v: &[&str]) -> Vec<String> {
    v.iter().map(|s| s.to_string()).collect()
}

fn pairs(v: &[(&str, &str)]) -> Vec<(String, String)> {
    v.iter().map(|(a, b)| (a.to_string(), b.to_string())).collect()
}

fn planned(path: &str, values: &[(&str, &str)]) -> PlannedFile {
    PlannedFile {
        entry: DeltaFileEntry {
            path: path.to_string(),
            size: 5000,
            modification_time: 1_700_000_000_000,
            num_records: Some(50),
            partition_values: opts(values),
            has_deletion_vector: true,
        },
        dv: Some(vec![1, 2, 3]),
        base_row_id: Some(10),
        default_row_commit_version: Some(4),
        transform_json: "{}".to_string(),
    }
}

fn task(path: &str, deleted: &[u64]) -> DeltaScanTask {
    DeltaScanTask {
        file_path: path.to_string(),
        file_size: 100,
        record_count: None,
        partition_values: vec![],
        dv: None,
        deleted_row_indexes: deleted.to_vec(),
        base_row_id: Some(7),
        default_row_commit_version: Some(8),
        byte_range_start: Some(1),
        byte_range_end: Some(2),
        modification_time: Some(9),
        transform_json: String::new(),
    }
}

fn value(name: &str, v: Option<&str>) -> DeltaPartitionValue {
    DeltaPartitionValue { name: name.to_string(), value: v.map(str::to_string) }
}

fn field(name: &str, arrow_type: &str) -> PartitionField {
    PartitionField {
        name: name.to_string(),
        data_type: PartitionType { name: arrow_type.to_string(), timestamp: None },
    }
}

fn common() -> DeltaScanCommon {
    DeltaScanCommon {
        required_schema: strings(&["a", "b"]),
        data_schema: strings(&["a", "b"]),
        partition_schema: vec![],
        column_mappings: vec![],
        projection_vector: vec![0, 1],
        session_timezone: "UTC".to_string(),
        emit_row_index: false,
        emit_is_row_deleted: false,
        emit_row_id: false,
        emit_row_commit_version: false,
        metadata_column_names: vec![],
        row_index_column_alias: String::new(),
        final_output_indices: vec![],
    }
}

fn files_of(scan: DeltaScan) -> FileScan {
    match plan_delta_scan(&scan).unwrap().unwrap() {
        ScanPlan::Files(f) => f,
        ScanPlan::Empty => panic!("expected files"),
    }
}

fn scalar(v: &PartitionValue) -> &ScalarValue {
    match v {
        PartitionValue::Scalar(s) => s,
        PartitionValue::Timestamp { .. } => panic!("expected no timestamp"),
    }
}

#[test]
fn negative_versions_are_the_latest() {
    assert_eq!(requested_version(-1), None);
    assert_eq!(requested_version(0), Some(0));
    assert_eq!(requested_version(17), Some(17));
}

#[test]
fn files_become_tasks() {
    let mapping = physical_to_logical(&pairs(&[("country", "col-1"), ("other", "col-2")]));
    let t = scan_task("s3://b/t", &planned("part-0.parquet", &[("col-1", "NL"), ("x", "1")]), &mapping);
    assert_eq!(t.file_path, "s3://b/t/part-0.parquet");
    assert_eq!(t.file_size, 5000);
    assert_eq!(t.record_count, Some(50));
    let mut values: Vec<(String, Option<String>)> = t
        .partition_values
        .into_iter()
        .map(|v| (v.name, v.value))
        .collect();
    values.sort();
    let want = vec![
        ("country".to_string(), Some("NL".to_string())),
        ("x".to_string(), Some("1".to_string())),
    ];
    assert_eq!(values, want);
    assert_eq!(t.dv, Some(vec![1, 2, 3]));
    assert!(t.deleted_row_indexes.is_empty());
    assert_eq!(t.base_row_id, Some(10));
    assert_eq!(t.default_row_commit_version, Some(4));
    assert_eq!((t.byte_range_start, t.byte_range_end), (None, None));
    assert_eq!(t.modification_time, Some(1_700_000_000_000));
    assert_eq!(t.transform_json, "{}");
}

#[test]
fn answers_to_a_driver() {
    let replay = LogReplay {
        version: 3,
        files: vec![planned("a", &[]), planned("file:/abs/b", &[])],
        unsupported_features: strings(&["f"]),
        column_mappings: vec![],
        physical_schema: vec![1],
        logical_schema: vec![2],
    };
    let l = scan_task_list("file:///t/", replay);
    assert_eq!(l.snapshot_version, 3);
    assert_eq!(l.table_root, "file:///t/");
    let paths: Vec<&str> = l.tasks.iter().map(|t| t.file_path.as_str()).collect();
    assert_eq!(paths, vec!["file:///t/a", "file:/abs/b"]);
    assert_eq!(l.unsupported_features, strings(&["f"]));
    assert_eq!((l.physical_schema, l.logical_schema), (vec![1], vec![2]));

    let l = read_schema_list("t", None, None);
    assert_eq!(l.snapshot_version, 0);
    assert!(l.tasks.is_empty() && l.physical_schema.is_empty() && l.logical_schema.is_empty());
    let l = read_schema_list("t", Some(5), Some((vec![1], vec![2])));
    assert_eq!((l.snapshot_version, l.physical_schema, l.logical_schema), (5, vec![1], vec![2]));
}

#[test]
fn tasks_become_files() {
    let mut t = task("s3://bucket/t/a%20b/part-0.parquet", &[]);
    t.partition_values = vec![
        value("k", Some("1")),
        value("k", Some("2")),
        value("k", None),
        value("unused", Some("x")),
    ];
    let fields = vec![field("k", "Int32"), field("missing", "Utf8")];
    let files = build_delta_partitioned_files(&vec![t], &fields, "UTC").unwrap();
    assert_eq!(files.len(), 1);
    assert_eq!(files[0].location, "t/a b/part-0.parquet");
    assert_eq!(files[0].size, 100);
    assert_eq!(files[0].range, Some((1, 2)));
    let values: Vec<&ScalarValue> = files[0].partition_values.iter().map(scalar).collect();
    assert_eq!(values, vec![&ScalarValue::Int32(Some(2)), &ScalarValue::Utf8(None)]);
}

#[test]
fn half_a_range_is_none() {
    let mut t = task("s3://b/f", &[]);
    t.byte_range_end = None;
    let files = build_delta_partitioned_files(&vec![t], &vec![], "UTC").unwrap();
    assert_eq!(files[0].range, None);
    assert!(files[0].partition_values.is_empty());
}

#[test]
fn file_errors_say_why() {
    let err = |t: DeltaScanTask, f: Vec<PartitionField>| {
        match build_delta_partitioned_files(&vec![t], &f, "UTC") {
            Err(e) => e,
            Ok(_) => panic!("expected an error"),
        }
    };
    assert!(err(task("part-0.parquet", &[]), vec![]).starts_with("Invalid Delta file URL: "));
    assert!(err(task("s3://b/a//b", &[]), vec![]).starts_with("from_url_path: "));
    let mut t = task("s3://b/f", &[]);
    t.partition_values = vec![value("k", Some("x"))];
    assert!(err(t, vec![field("k", "Int32")])
        .starts_with("Failed to parse Delta partition value for column 'k': "));
    assert!(err(task("s3://b/f", &[]), vec![field("k", "NoSuchType")])
        .starts_with("Failed to build null partition value for column 'k': "));
}

#[test]
fn overflowing_files_have_no_answer() {
    let ns = PartitionField {
        name: "k".to_string(),
        data_type: PartitionType {
            name: "Timestamp(ns, \"UTC\")".to_string(),
            timestamp: Some((TimeUnit::Nanosecond, Some("UTC".to_string()))),
        },
    };
    let with = |v: &str| {
        let mut t = task("s3://b/f", &[]);
        t.partition_values = vec![value("k", Some(v))];
        t
    };
    let fields = vec![ns];
    assert!(try_build_delta_partitioned_files(&vec![with("9999-01-01T00:00:00Z")], &fields, "UTC")
        .is_none());
    let files =
        try_build_delta_partitioned_files(&vec![with("1970-01-01T00:00:01Z")], &fields, "UTC")
            .unwrap()
            .unwrap();
    assert!(matches!(
        files[0].partition_values[0],
        PartitionValue::Timestamp { value: 1_000_000_000, .. }
    ));
    // What is wrong before decides.
    assert!(matches!(
        try_build_delta_partitioned_files(
            &vec![with("x"), with("9999-01-01T00:00:00Z")],
            &fields,
            "UTC"
        ),
        Some(Err(_))
    ));
}

#[test]
fn files_with_deleted_rows_are_read_alone() {
    let tasks = vec![
        task("s3://b/0", &[]),
        task("s3://b/1", &[5]),
        task("s3://b/2", &[]),
        task("s3://b/3", &[1, 2]),
    ];
    let g = group_files(&tasks, false);
    let members: Vec<&Vec<usize>> = g.iter().map(|g| &g.members).collect();
    assert_eq!(members, vec![&vec![1], &vec![3], &vec![0, 2]]);
    let deleted: Vec<&Vec<u64>> = g.iter().map(|g| &g.deleted_row_indexes).collect();
    assert_eq!(deleted, vec![&vec![5], &vec![1, 2], &vec![]]);
    assert_eq!(g[0].base_row_id, Some(7));
    assert_eq!(g[0].default_row_commit_version, Some(8));
    assert_eq!(g[0].metadata.file_path.as_deref(), Some("s3://b/1"));
    assert_eq!(g[0].metadata.file_size, Some(100));
    assert_eq!(g[0].metadata.byte_range_start, Some(1));
    assert_eq!(g[0].metadata.byte_range_end, Some(2));
    assert_eq!(g[0].metadata.modification_time_millis, Some(9));
    assert_eq!(g[2].base_row_id, None);
    assert_eq!(g[2].metadata.file_path, None);
}

#[test]
fn added_columns_need_a_group_for_each_file() {
    let tasks = vec![task("s3://b/0", &[]), task("s3://b/1", &[5])];
    let g = group_files(&tasks, true);
    let members: Vec<&Vec<usize>> = g.iter().map(|g| &g.members).collect();
    assert_eq!(members, vec![&vec![0], &vec![1]]);
    assert!(group_files(&vec![], true).is_empty());
}

#[test]
fn scans_are_planned() {
    match plan_delta_scan(&DeltaScan { common: None, tasks: vec![] }) {
        Some(Err(e)) => assert_eq!(e, "DeltaScan missing common data"),
        _ => panic!("expected an error"),
    }
    assert!(matches!(
        plan_delta_scan(&DeltaScan { common: Some(common()), tasks: vec![] }),
        Some(Ok(ScanPlan::Empty))
    ));
    let mut c = common();
    c.column_mappings = pairs(&[("a", "col-1"), ("zz", "col-9"), ("a", "col-2")]);
    let f = files_of(DeltaScan {
        common: Some(c),
        tasks: vec![task("s3://bucket/t/0", &[]), task("s3://bucket/t/1", &[3])],
    });
    assert_eq!(f.data_schema, strings(&["col-2", "b"]));
    assert_eq!(f.projection, vec![0, 1]);
    assert_eq!(f.files.len(), 2);
    assert_eq!(f.groups.len(), 2);
    assert_eq!(f.store_url, "s3://bucket/t/0");
    // A file that cannot be made is an error.
    assert!(matches!(
        plan_delta_scan(&DeltaScan { common: Some(common()), tasks: vec![task("no url", &[])] }),
        Some(Err(_))
    ));
}

#[test]
fn metadata_columns_need_a_group_for_each_file() {
    let mut c = common();
    c.metadata_column_names = strings(&["file_path"]);
    let f = files_of(DeltaScan {
        common: Some(c),
        tasks: vec![task("s3://b/0", &[]), task("s3://b/1", &[])],
    });
    assert_eq!(f.groups.len(), 2);
}

#[test]
fn filters_are_rewritten_to_physical_names() {
    let mapping = logical_to_physical(&pairs(&[("a", "col-1"), ("gone", "col-2")]));
    let data = strings(&["x", "col-1", "col-1"]);
    let r = ColumnMappingFilterRewriter { logical_to_physical: &mapping, data_schema: &data };
    assert_eq!(r.rewrite_column("a"), Some(("col-1".to_string(), 1)));
    assert_eq!(r.rewrite_column("gone"), None);
    assert_eq!(r.rewrite_column("x"), None);
}

#[test]
fn columns_are_renamed_by_position() {
    let required = strings(&["a", "b"]);
    assert_eq!(
        rename_columns(&required, &strings(&["col-1", "b"]), true),
        Some(strings(&["a", "b"]))
    );
    assert_eq!(rename_columns(&required, &strings(&["col-1", "b"]), false), None);
    assert_eq!(rename_columns(&required, &strings(&["a", "b"]), true), None);
    assert_eq!(rename_columns(&required, &strings(&["col-1"]), true), None);
    // Columns of one name are all given the last one's.
    assert_eq!(
        rename_columns(&required, &strings(&["c", "c"]), true),
        Some(strings(&["b", "b"]))
    );
}

#[test]
fn what_is_put_on_top() {
    let none = group_files(&vec![task("s3://b/0", &[])], false);
    let some = group_files(&vec![task("s3://b/0", &[1])], false);
    assert!(matches!(wrap_mode(&common(), &none), Wrap::Plain));
    assert!(matches!(wrap_mode(&common(), &some), Wrap::DvFilter));
    let mut c = common();
    c.emit_row_index = true;
    match wrap_mode(&c, &some) {
        Wrap::Synthetics { row_index_name } => {
            assert_eq!(row_index_name, "__delta_internal_row_index")
        }
        other => panic!("expected added columns, got {other:?}"),
    }
    c.row_index_column_alias = "idx".to_string();
    match wrap_mode(&c, &none) {
        Wrap::Synthetics { row_index_name } => assert_eq!(row_index_name, "idx"),
        other => panic!("expected added columns, got {other:?}"),
    }
}

#[test]
fn columns_are_reordered() {
    let columns = strings(&["a", "b", "c"]);
    assert_eq!(reorder_columns(&vec![], &columns), None);
    assert_eq!(
        reorder_columns(&vec![2, 0], &columns),
        Some(vec![(2, "c".to_string()), (0, "a".to_string())])
    );
}
