//! Requests of a driver: what it asks of a table, and what it is answered.

use vstd::prelude::*;

use crate::delta::location::{url_parse, TableUrl, UrlParts};
use crate::delta::storage::{
    config_from_options, delta_storage_config_from_map, DeltaStorageConfig, StorageState,
};
use crate::delta::tasks::{inverse_mapping, is_task_of, scan_tasks, DeltaScanTask, PlannedFile};
use crate::options::OptionsMap;

verus! {

/// The parts of a location, where it is a URL.
pub open spec fn location_parts(url: Seq<char>) -> Option<UrlParts> {
    match url_parse(url) {
        Ok(p) => Some(p),
        Err(_) => None,
    }
}

/// The credentials of a request: none where the session's options are missing,
/// else those that they give for the table's location.
pub fn request_config(table_url: &str, options: Option<&OptionsMap>) -> (c: DeltaStorageConfig)
    ensures
        c@ == match options {
            Some(m) => config_from_options(m@, location_parts(table_url@)),
            None => StorageState::empty(),
        },
{
    match options {
        None => DeltaStorageConfig::default(),
        Some(m) => match TableUrl::parse(table_url) {
            Ok(u) => delta_storage_config_from_map(m, Some(&u)),
            Err(_) => delta_storage_config_from_map(m, None),
        },
    }
}

/// A text that may be missing: an empty one is.
pub fn given_text(s: Option<String>) -> (r: Option<String>)
    ensures
        r == (if s matches Some(t) && t@.len() > 0 {
            s
        } else {
            None
        }),
{
    match s {
        Some(t) => if t.as_str().is_empty() {
            None
        } else {
            Some(t)
        },
        None => None,
    }
}

/// What replaying a table's log gives.
pub struct LogReplay {
    /// The snapshot version that was read.
    pub version: u64,
    /// The files of the snapshot.
    pub files: Vec<PlannedFile>,
    /// Features of the table that the reader lacks.
    pub unsupported_features: Vec<String>,
    /// The columns with a logical and a physical name.
    pub column_mappings: Vec<(String, String)>,
    /// The encoded schema of the files; empty where no columns were asked for.
    pub physical_schema: Vec<u8>,
    /// The encoded schema of the table; empty where no columns were asked for.
    pub logical_schema: Vec<u8>,
}

/// The answer to a driver.
pub struct DeltaScanTaskList {
    pub snapshot_version: u64,
    pub table_root: String,
    pub tasks: Vec<DeltaScanTask>,
    pub unsupported_features: Vec<String>,
    pub physical_schema: Vec<u8>,
    pub logical_schema: Vec<u8>,
}

/// The answer to a request for a table's files.
pub fn scan_task_list(table_root: &str, replay: LogReplay) -> (l: DeltaScanTaskList)
    ensures
        l.snapshot_version == replay.version,
        l.table_root@ == table_root@,
        l.tasks@.len() == replay.files@.len(),
        forall|i: int|
            0 <= i < l.tasks@.len() ==> is_task_of(
                #[trigger] l.tasks@[i],
                table_root@,
                replay.files@[i],
                inverse_mapping(replay.column_mappings@),
            ),
        l.unsupported_features == replay.unsupported_features,
        l.physical_schema == replay.physical_schema,
        l.logical_schema == replay.logical_schema,
{
    let tasks: Vec<DeltaScanTask> = scan_tasks(table_root, &replay.files, &replay.column_mappings);
    DeltaScanTaskList {
        snapshot_version: replay.version,
        table_root: table_root.to_owned(),
        tasks,
        unsupported_features: replay.unsupported_features,
        physical_schema: replay.physical_schema,
        logical_schema: replay.logical_schema,
    }
}

/// The answer to a request for a table's schemas alone: no files, and no schemas
/// where no columns were asked for.
pub fn read_schema_list(
    table_root: &str,
    version: Option<u64>,
    schemas: Option<(Vec<u8>, Vec<u8>)>,
) -> (l: DeltaScanTaskList)
    ensures
        l.snapshot_version == (if version is Some {
            version->0
        } else {
            0
        }),
        l.table_root@ == table_root@,
        l.tasks@.len() == 0,
        l.unsupported_features@.len() == 0,
        match schemas {
            Some((physical, logical)) => l.physical_schema == physical && l.logical_schema
                == logical,
            None => l.physical_schema@.len() == 0 && l.logical_schema@.len() == 0,
        },
{
    let (physical_schema, logical_schema) = match schemas {
        Some((p, l)) => (p, l),
        None => (Vec::new(), Vec::new()),
    };
    DeltaScanTaskList {
        snapshot_version: match version {
            Some(v) => v,
            None => 0,
        },
        table_root: table_root.to_owned(),
        tasks: Vec::new(),
        unsupported_features: Vec::new(),
        physical_schema,
        logical_schema,
    }
}

/// A location that is a URL is taken by its parts, and one that is none as no location at all.
pub proof fn a_location_is_taken_where_it_is_a_url(url: Seq<char>)
    ensures
        url_parse(url) matches Ok(p) ==> location_parts(url) == Some(p),
        url_parse(url) is Err ==> location_parts(url) is None,
{
}

} // verus!
