use comet_delta::delta::paths::{has_uri_scheme, resolve_file_path};

#[test]
fn resolve_file_path_joins_with_slash() {
    assert_eq!(
        resolve_file_path("file:///tmp/t/", "part-0.parquet"),
        "file:///tmp/t/part-0.parquet"
    );
    assert_eq!(
        resolve_file_path("file:///tmp/t", "part-0.parquet"),
        "file:///tmp/t/part-0.parquet"
    );
}

#[test]
fn resolve_file_path_passes_through_absolute() {
    assert_eq!(
        resolve_file_path("file:///tmp/t/", "s3://bucket/data/part-0.parquet"),
        "s3://bucket/data/part-0.parquet"
    );
}

#[test]
fn resolve_file_path_passes_through_single_slash_file_uri() {
    // SHALLOW CLONE stores paths as Hadoop `Path.toUri.toString` which uses
    // single-slash form `file:/abs/...`. Must not be concat'd onto the clone root.
    assert_eq!(
        resolve_file_path(
            "file:/tmp/clonetable/",
            "file:/tmp/parquet_table/part-0.parquet"
        ),
        "file:/tmp/parquet_table/part-0.parquet"
    );
}

#[test]
fn has_uri_scheme_matches_schemes() {
    assert!(has_uri_scheme("file:/abs"));
    assert!(has_uri_scheme("file:///abs"));
    assert!(has_uri_scheme("s3://bucket/k"));
    assert!(has_uri_scheme("hdfs://nn/path"));
    assert!(!has_uri_scheme("part-0.parquet"));
    assert!(!has_uri_scheme("/abs/path"));
    assert!(!has_uri_scheme("1bad:/scheme")); // must start with letter
    assert!(!has_uri_scheme(""));
}

#[test]
fn resolving_an_empty_root_puts_a_slash_in_front() {
    assert_eq!(resolve_file_path("", "a"), "/a");
    assert!(!has_uri_scheme("caf\u{e9}:x"));
    assert!(!has_uri_scheme(":x"));
    assert!(!has_uri_scheme("abc"));
}

#[test]
fn resolving_twice_changes_nothing_more() {
    let once = resolve_file_path("s3://b/t", "p/x.parquet");
    assert_eq!(resolve_file_path("s3://b/t", &once), once);
}
