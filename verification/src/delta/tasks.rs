//! Files of a table as tasks of a scan, and tasks as files to read.

use object_store::path::Path;
use vstd::prelude::*;

use crate::delta::location::{text, url_parse, TableUrl};
use crate::delta::partition_value::{
    missing_of, missing_value, scalar_outcome, try_parse_delta_partition_scalar, PartitionType,
    PartitionValue, PartitionValueState, ScalarOutcome, TimeUnit,
};
use crate::delta::paths::{resolve_file_path, resolved, uri_scheme};
use crate::delta::timezone::{timezone_of, SessionTimezone, TimezoneState};
use crate::options::OptionsMap;
use crate::text::{concat2, concat3, str_eq};

verus! {

/// A file of a table.
pub struct DeltaFileEntry {
    /// The file's path, relative to the table's root.
    pub path: String,
    /// Its size in bytes.
    pub size: i64,
    /// When it was last modified, in milliseconds since 1970.
    pub modification_time: i64,
    /// How many records it has, where that is known.
    pub num_records: Option<u64>,
    /// The partition columns with their values.
    pub partition_values: OptionsMap,
    /// Whether it has a deletion vector.
    pub has_deletion_vector: bool,
}

/// A file of a table, with what a reader of it needs besides.
pub struct PlannedFile {
    pub entry: DeltaFileEntry,
    /// The encoded descriptor of the deletion vector.
    pub dv: Option<Vec<u8>>,
    /// The row id of the first row, where rows are numbered.
    pub base_row_id: Option<i64>,
    /// The commit that wrote the rows, where they are numbered.
    pub default_row_commit_version: Option<i64>,
    /// How the physical columns become the logical ones; empty where they are the
    /// same.
    pub transform_json: String,
}

/// A partition column's value in a task.
pub struct DeltaPartitionValue {
    pub name: String,
    pub value: Option<String>,
}

/// A file to scan, or a range of one.
pub struct DeltaScanTask {
    pub file_path: String,
    pub file_size: u64,
    pub record_count: Option<u64>,
    pub partition_values: Vec<DeltaPartitionValue>,
    pub dv: Option<Vec<u8>>,
    pub deleted_row_indexes: Vec<u64>,
    pub base_row_id: Option<i64>,
    pub default_row_commit_version: Option<i64>,
    pub byte_range_start: Option<u64>,
    pub byte_range_end: Option<u64>,
    pub modification_time: Option<i64>,
    pub transform_json: String,
}

/// The snapshot version that a caller asks for: the latest where the number is
/// negative.
pub fn requested_version(snapshot_version: i64) -> (v: Option<u64>)
    ensures
        snapshot_version < 0 ==> v is None,
        snapshot_version >= 0 ==> v == Some(snapshot_version as u64),
{
    if snapshot_version < 0 {
        None
    } else {
        Some(snapshot_version as u64)
    }
}

/// The logical name of a physical column: its own where it has no other.
pub open spec fn logical_name(m: Map<Seq<char>, Seq<char>>, physical: Seq<char>) -> Seq<char> {
    if m.contains_key(physical) {
        m[physical]
    } else {
        physical
    }
}

/// The mapping from physical names to logical ones, of the pairs of a logical and a
/// physical name so far. A later pair wins.
pub open spec fn inverse_mapping(pairs: Seq<(String, String)>) -> Map<Seq<char>, Seq<char>>
    decreases pairs.len(),
{
    if pairs.len() == 0 {
        Map::empty()
    } else {
        inverse_mapping(pairs.drop_last()).insert(pairs.last().1@, pairs.last().0@)
    }
}

/// The mapping from physical names to logical ones.
pub fn physical_to_logical(pairs: &Vec<(String, String)>) -> (m: OptionsMap)
    ensures
        m@ == inverse_mapping(pairs@),
{
    let mut m: OptionsMap = OptionsMap::new();
    let mut i: usize = 0;
    assert(pairs@.take(0) =~= Seq::<(String, String)>::empty());
    while i < pairs.len()
        invariant
            i <= pairs@.len(),
            m@ == inverse_mapping(pairs@.take(i as int)),
        decreases pairs@.len() - i,
    {
        m.insert(pairs[i].1.clone(), pairs[i].0.clone());
        proof {
            let next = pairs@.take(i + 1);
            assert(next.drop_last() =~= pairs@.take(i as int));
        }
        i = i + 1;
    }
    assert(pairs@.take(pairs@.len() as int) =~= pairs@);
    m
}

/// The task's partition values are those of the file, under logical names.
pub open spec fn values_relabelled(
    file: OptionsMap,
    p2l: Map<Seq<char>, Seq<char>>,
    task: Seq<DeltaPartitionValue>,
) -> bool {
    &&& task.len() == file.names().len()
    &&& forall|k: Seq<char>| #[trigger] file@.contains_key(k) <==> file.names().contains(k)
    &&& forall|i: int|
        0 <= i < task.len() ==> (#[trigger] task[i]).name@ == logical_name(p2l, file.names()[i])
            && text(task[i].value) == Some(file@[file.names()[i]])
}

fn relabel(file: &OptionsMap, p2l: &OptionsMap) -> (task: Vec<DeltaPartitionValue>)
    ensures
        values_relabelled(*file, p2l@, task@),
{
    let n: usize = file.len();
    let mut task: Vec<DeltaPartitionValue> = Vec::new();
    let mut i: usize = 0;
    while i < n
        invariant
            i <= n == file.names().len(),
            forall|k: Seq<char>| #[trigger] file@.contains_key(k) <==> file.names().contains(k),
            task@.len() == i,
            forall|j: int|
                0 <= j < i ==> (#[trigger] task@[j]).name@ == logical_name(
                    p2l@,
                    file.names()[j],
                ) && text(task@[j].value) == Some(file@[file.names()[j]]),
        decreases n - i,
    {
        let name: &str = file.name_at(i);
        proof {
            assert(file.names().contains(file.names()[i as int]));
            assert(file@.contains_key(name@));
        }
        let value: Option<String> = match file.get(name) {
            Some(v) => Some(v.clone()),
            None => None,
        };
        let logical: String = match p2l.get(name) {
            Some(l) => l.clone(),
            None => name.to_owned(),
        };
        task.push(DeltaPartitionValue { name: logical, value });
        i = i + 1;
    }
    task
}

/// Optional bytes.
pub open spec fn bytes_of(o: Option<Vec<u8>>) -> Option<Seq<u8>> {
    match o {
        Some(v) => Some(v@),
        None => None,
    }
}

/// The task reads the whole of a file of the table at a root.
pub open spec fn is_task_of(
    t: DeltaScanTask,
    root: Seq<char>,
    f: PlannedFile,
    p2l: Map<Seq<char>, Seq<char>>,
) -> bool {
    &&& t.file_path@ == resolved(root, f.entry.path@)
    &&& t.file_size == f.entry.size as u64
    &&& t.record_count == f.entry.num_records
    &&& values_relabelled(f.entry.partition_values, p2l, t.partition_values@)
    &&& bytes_of(t.dv) == bytes_of(f.dv)
    &&& t.deleted_row_indexes@.len() == 0
    &&& t.base_row_id == f.base_row_id
    &&& t.default_row_commit_version == f.default_row_commit_version
    &&& t.byte_range_start is None
    &&& t.byte_range_end is None
    &&& t.modification_time == Some(f.entry.modification_time)
    &&& t.transform_json@ == f.transform_json@
}

/// The task that reads the whole of a file of the table at a root.
pub fn scan_task(table_root: &str, f: &PlannedFile, p2l: &OptionsMap) -> (t: DeltaScanTask)
    ensures
        is_task_of(t, table_root@, *f, p2l@),
{
    let dv: Option<Vec<u8>> = match &f.dv {
        Some(v) => Some(v.clone()),
        None => None,
    };
    let file_path: String = resolve_file_path(table_root, f.entry.path.as_str());
    let partition_values: Vec<DeltaPartitionValue> = relabel(&f.entry.partition_values, p2l);
    DeltaScanTask {
        file_path,
        file_size: f.entry.size as u64,
        record_count: f.entry.num_records,
        partition_values,
        dv,
        deleted_row_indexes: Vec::new(),
        base_row_id: f.base_row_id,
        default_row_commit_version: f.default_row_commit_version,
        byte_range_start: None,
        byte_range_end: None,
        modification_time: Some(f.entry.modification_time),
        transform_json: f.transform_json.clone(),
    }
}

/// The tasks that read the files of the table at a root, in the files' order.
pub fn scan_tasks(
    table_root: &str,
    files: &Vec<PlannedFile>,
    column_mappings: &Vec<(String, String)>,
) -> (tasks: Vec<DeltaScanTask>)
    ensures
        tasks@.len() == files@.len(),
        forall|i: int|
            0 <= i < tasks@.len() ==> is_task_of(
                #[trigger] tasks@[i],
                table_root@,
                files@[i],
                inverse_mapping(column_mappings@),
            ),
{
    let p2l: OptionsMap = physical_to_logical(column_mappings);
    let mut tasks: Vec<DeltaScanTask> = Vec::new();
    let mut i: usize = 0;
    while i < files.len()
        invariant
            i <= files@.len(),
            tasks@.len() == i,
            p2l@ == inverse_mapping(column_mappings@),
            forall|j: int|
                0 <= j < i ==> is_task_of(#[trigger] tasks@[j], table_root@, files@[j], p2l@),
        decreases files@.len() - i,
    {
        tasks.push(scan_task(table_root, &files[i], &p2l));
        i = i + 1;
    }
    tasks
}

/// A partition column.
pub struct PartitionField {
    pub name: String,
    pub data_type: PartitionType,
}

/// A file to read, or a range of one, with its partition values.
pub struct PartitionedFile {
    pub location: String,
    pub size: u64,
    pub range: Option<(i64, i64)>,
    pub partition_values: Vec<PartitionValue>,
}

/// A file to read, as mathematical values.
pub struct PartitionedFileState {
    pub location: Seq<char>,
    pub size: u64,
    pub range: Option<(i64, i64)>,
    pub partition_values: Seq<PartitionValueState>,
}

/// Partition values as mathematical values.
pub open spec fn value_views(v: Seq<PartitionValue>) -> Seq<PartitionValueState> {
    Seq::new(v.len(), |i: int| v[i]@)
}

impl View for PartitionedFile {
    type V = PartitionedFileState;

    open spec fn view(&self) -> PartitionedFileState {
        PartitionedFileState {
            location: self.location@,
            size: self.size,
            range: self.range,
            partition_values: value_views(self.partition_values@),
        }
    }
}

/// Files as mathematical values.
pub open spec fn file_views(v: Seq<PartitionedFile>) -> Seq<PartitionedFileState> {
    Seq::new(v.len(), |i: int| v[i]@)
}

/// The path in an object store of a URL's path, or why it has none.
pub uninterp spec fn store_path(url_path: Seq<char>) -> Result<Seq<char>, Seq<char>>;

/// `object_store::path::Path::from_url_path`.
#[verifier::external_body]
fn path_in_store(url_path: &str) -> (r: Result<String, String>)
    ensures
        match r {
            Ok(p) => store_path(url_path@) == Ok::<Seq<char>, Seq<char>>(p@),
            Err(e) => store_path(url_path@) == Err::<Seq<char>, Seq<char>>(e@),
        },
{
    Path::from_url_path(url_path).map(|p| p.to_string()).map_err(|e| e.to_string())
}

/// The value of a partition column in a task: the last one that is not missing.
pub open spec fn value_named(values: Seq<DeltaPartitionValue>, name: Seq<char>) -> Option<Seq<char>>
    decreases values.len(),
{
    if values.len() == 0 {
        None
    } else if values.last().name@ == name && values.last().value is Some {
        text(values.last().value)
    } else {
        value_named(values.drop_last(), name)
    }
}

fn find_value<'a>(values: &'a Vec<DeltaPartitionValue>, name: &str) -> (r: Option<&'a str>)
    ensures
        match r {
            Some(v) => value_named(values@, name@) == Some(v@),
            None => value_named(values@, name@) is None,
        },
{
    let mut i: usize = values.len();
    assert(values@.take(i as int) =~= values@);
    while i > 0
        invariant
            i <= values@.len(),
            value_named(values@, name@) == value_named(values@.take(i as int), name@),
        decreases i,
    {
        assert(values@.take(i as int).drop_last() =~= values@.take(i - 1));
        if str_eq(values[i - 1].name.as_str(), name) {
            match &values[i - 1].value {
                Some(v) => {
                    return Some(v.as_str());
                },
                None => {},
            }
        }
        i = i - 1;
    }
    None
}

/// What making something brings: it, or why there is none, or an instant that is
/// no 64-bit number of nanoseconds.
pub enum Made<T> {
    Done(T),
    Error(Seq<char>),
    Overflow,
}

/// What reading the value of one partition column of a task brings.
pub open spec fn field_outcome(
    values: Seq<DeltaPartitionValue>,
    field: PartitionField,
    tz: TimezoneState,
    session_tz: Seq<char>,
) -> Made<PartitionValueState> {
    match value_named(values, field.name@) {
        Some(s) => match scalar_outcome(s, field.data_type@, tz, session_tz) {
            ScalarOutcome::Value(v) => Made::Done(v),
            ScalarOutcome::Overflow => Made::Overflow,
            ScalarOutcome::Error(e) => Made::Error(
                "Failed to parse Delta partition value for column '"@ + field.name@ + "': "@ + e,
            ),
        },
        None => match missing_of(field.data_type.name@) {
            Ok(v) => Made::Done(PartitionValueState::Scalar(v)),
            Err(e) => Made::Error(
                "Failed to build null partition value for column '"@ + field.name@ + "': "@ + e,
            ),
        },
    }
}

/// What reading the values of all partition columns of a task brings. The first
/// column that has none decides.
pub open spec fn values_outcome(
    values: Seq<DeltaPartitionValue>,
    fields: Seq<PartitionField>,
    tz: TimezoneState,
    session_tz: Seq<char>,
) -> Made<Seq<PartitionValueState>>
    decreases fields.len(),
{
    if fields.len() == 0 {
        Made::Done(Seq::empty())
    } else {
        match values_outcome(values, fields.drop_last(), tz, session_tz) {
            Made::Done(before) => match field_outcome(values, fields.last(), tz, session_tz) {
                Made::Done(v) => Made::Done(before.push(v)),
                Made::Error(e) => Made::Error(e),
                Made::Overflow => Made::Overflow,
            },
            Made::Error(e) => Made::Error(e),
            Made::Overflow => Made::Overflow,
        }
    }
}

/// The range of a task, where it has both ends.
pub open spec fn task_range(t: DeltaScanTask) -> Option<(i64, i64)> {
    match (t.byte_range_start, t.byte_range_end) {
        (Some(start), Some(end)) => Some((start as i64, end as i64)),
        _ => None,
    }
}

/// What making the file of a task brings.
pub open spec fn file_outcome(
    t: DeltaScanTask,
    fields: Seq<PartitionField>,
    tz: TimezoneState,
    session_tz: Seq<char>,
) -> Made<PartitionedFileState> {
    match url_parse(t.file_path@) {
        Err(e) => Made::Error("Invalid Delta file URL: "@ + e),
        Ok(u) => match store_path(u.5) {
            Err(e) => Made::Error("from_url_path: "@ + e),
            Ok(location) => match values_outcome(t.partition_values@, fields, tz, session_tz) {
                Made::Error(e) => Made::Error(e),
                Made::Overflow => Made::Overflow,
                Made::Done(partition_values) => Made::Done(
                    PartitionedFileState {
                        location,
                        size: t.file_size,
                        range: task_range(t),
                        partition_values,
                    },
                ),
            },
        },
    }
}

/// What making the files of tasks brings, in the tasks' order. The first task that
/// has none decides.
pub open spec fn files_outcome(
    tasks: Seq<DeltaScanTask>,
    fields: Seq<PartitionField>,
    tz: TimezoneState,
    session_tz: Seq<char>,
) -> Made<Seq<PartitionedFileState>>
    decreases tasks.len(),
{
    if tasks.len() == 0 {
        Made::Done(Seq::empty())
    } else {
        match files_outcome(tasks.drop_last(), fields, tz, session_tz) {
            Made::Done(before) => match file_outcome(tasks.last(), fields, tz, session_tz) {
                Made::Done(f) => Made::Done(before.push(f)),
                Made::Error(e) => Made::Error(e),
                Made::Overflow => Made::Overflow,
            },
            Made::Error(e) => Made::Error(e),
            Made::Overflow => Made::Overflow,
        }
    }
}

fn field_value(
    values: &Vec<DeltaPartitionValue>,
    field: &PartitionField,
    tz: &SessionTimezone,
    session_tz: &str,
) -> (r: Option<Result<PartitionValue, String>>)
    requires
        tz.offset_in_day(),
    ensures
        match r {
            Some(Ok(v)) => field_outcome(values@, *field, tz@, session_tz@) == Made::Done(v@),
            Some(Err(e)) => field_outcome(values@, *field, tz@, session_tz@) == Made::<
                PartitionValueState,
            >::Error(e@),
            None => field_outcome(values@, *field, tz@, session_tz@) is Overflow,
        },
{
    match find_value(values, field.name.as_str()) {
        Some(s) => match try_parse_delta_partition_scalar(s, &field.data_type, tz, session_tz) {
            None => None,
            Some(Ok(v)) => Some(Ok(v)),
            Some(Err(e)) => Some(
                Err(
                    concat3(
                        "Failed to parse Delta partition value for column '",
                        field.name.as_str(),
                        "': ",
                    ).concat(e.as_str()),
                ),
            ),
        },
        None => match missing_value(field.data_type.name.as_str()) {
            Ok(v) => Some(Ok(PartitionValue::Scalar(v))),
            Err(e) => Some(
                Err(
                    concat3(
                        "Failed to build null partition value for column '",
                        field.name.as_str(),
                        "': ",
                    ).concat(e.as_str()),
                ),
            ),
        },
    }
}

/// A column that has no value decides for all.
proof fn lemma_values_stop(
    values: Seq<DeltaPartitionValue>,
    fields: Seq<PartitionField>,
    tz: TimezoneState,
    session_tz: Seq<char>,
    n: int,
)
    requires
        0 <= n <= fields.len(),
        !(values_outcome(values, fields.take(n), tz, session_tz) is Done),
    ensures
        values_outcome(values, fields, tz, session_tz) == values_outcome(
            values,
            fields.take(n),
            tz,
            session_tz,
        ),
    decreases fields.len() - n,
{
    if n == fields.len() {
        assert(fields.take(n) =~= fields);
    } else {
        assert(fields.take(n + 1).drop_last() =~= fields.take(n));
        lemma_values_stop(values, fields, tz, session_tz, n + 1);
    }
}

fn field_values(
    values: &Vec<DeltaPartitionValue>,
    fields: &Vec<PartitionField>,
    tz: &SessionTimezone,
    session_tz: &str,
) -> (r: Option<Result<Vec<PartitionValue>, String>>)
    requires
        tz.offset_in_day(),
    ensures
        match r {
            Some(Ok(v)) => values_outcome(values@, fields@, tz@, session_tz@) == Made::Done(
                value_views(v@),
            ),
            Some(Err(e)) => values_outcome(values@, fields@, tz@, session_tz@) == Made::<
                Seq<PartitionValueState>,
            >::Error(e@),
            None => values_outcome(values@, fields@, tz@, session_tz@) is Overflow,
        },
{
    let mut out: Vec<PartitionValue> = Vec::new();
    let mut i: usize = 0;
    assert(fields@.take(0) =~= Seq::<PartitionField>::empty());
    assert(value_views(out@) =~= Seq::<PartitionValueState>::empty());
    while i < fields.len()
        invariant
            i <= fields@.len(),
            tz.offset_in_day(),
            values_outcome(values@, fields@.take(i as int), tz@, session_tz@) == Made::Done(
                value_views(out@),
            ),
        decreases fields@.len() - i,
    {
        let ghost before = out@;
        let r: Option<Result<PartitionValue, String>> = field_value(
            values,
            &fields[i],
            tz,
            session_tz,
        );
        proof {
            let next = fields@.take(i + 1);
            assert(next.drop_last() =~= fields@.take(i as int));
            assert(next.last() == fields@[i as int]);
            if !(r matches Some(Ok(_))) {
                lemma_values_stop(values@, fields@, tz@, session_tz@, i + 1);
            }
        }
        match r {
            None => {
                return None;
            },
            Some(Err(e)) => {
                return Some(Err(e));
            },
            Some(Ok(v)) => {
                out.push(v);
                assert(value_views(out@) =~= value_views(before).push(v@));
            },
        }
        i = i + 1;
    }
    assert(fields@.take(fields@.len() as int) =~= fields@);
    Some(Ok(out))
}

/// The file of a task. There is no answer where an instant is no 64-bit number of
/// nanoseconds.
fn task_file(
    t: &DeltaScanTask,
    fields: &Vec<PartitionField>,
    tz: &SessionTimezone,
    session_tz: &str,
) -> (r: Option<Result<PartitionedFile, String>>)
    requires
        tz.offset_in_day(),
    ensures
        match r {
            Some(Ok(f)) => file_outcome(*t, fields@, tz@, session_tz@) == Made::Done(f@),
            Some(Err(e)) => file_outcome(*t, fields@, tz@, session_tz@) == Made::<
                PartitionedFileState,
            >::Error(e@),
            None => file_outcome(*t, fields@, tz@, session_tz@) is Overflow,
        },
{
    let url: TableUrl = match TableUrl::parse(t.file_path.as_str()) {
        Err(e) => {
            return Some(Err(concat2("Invalid Delta file URL: ", e.as_str())));
        },
        Ok(u) => u,
    };
    let location: String = match path_in_store(url.path.as_str()) {
        Err(e) => {
            return Some(Err(concat2("from_url_path: ", e.as_str())));
        },
        Ok(p) => p,
    };
    let range: Option<(i64, i64)> = match (t.byte_range_start, t.byte_range_end) {
        (Some(start), Some(end)) => Some((start as i64, end as i64)),
        _ => None,
    };
    match field_values(&t.partition_values, fields, tz, session_tz) {
        None => None,
        Some(Err(e)) => Some(Err(e)),
        Some(Ok(partition_values)) => Some(
            Ok(PartitionedFile { location, size: t.file_size, range, partition_values }),
        ),
    }
}

/// A task that has no file decides for all.
proof fn lemma_files_stop(
    tasks: Seq<DeltaScanTask>,
    fields: Seq<PartitionField>,
    tz: TimezoneState,
    session_tz: Seq<char>,
    n: int,
)
    requires
        0 <= n <= tasks.len(),
        !(files_outcome(tasks.take(n), fields, tz, session_tz) is Done),
    ensures
        files_outcome(tasks, fields, tz, session_tz) == files_outcome(
            tasks.take(n),
            fields,
            tz,
            session_tz,
        ),
    decreases tasks.len() - n,
{
    if n == tasks.len() {
        assert(tasks.take(n) =~= tasks);
    } else {
        assert(tasks.take(n + 1).drop_last() =~= tasks.take(n));
        lemma_files_stop(tasks, fields, tz, session_tz, n + 1);
    }
}

/// The column counts nanoseconds of instants.
pub open spec fn counts_nanoseconds(f: PartitionField) -> bool {
    f.data_type.timestamp matches Some((TimeUnit::Nanosecond, Some(_)))
}

/// The files of tasks, in the tasks' order, or why there are none.
///
/// A task's path is a URL. Each partition column has the value that the task gives
/// it, read in the column's type by the session's clocks, or its missing value.
pub fn build_delta_partitioned_files(
    tasks: &Vec<DeltaScanTask>,
    partition_schema: &Vec<PartitionField>,
    session_tz: &str,
) -> (r: Result<Vec<PartitionedFile>, String>)
    requires
        !(files_outcome(tasks@, partition_schema@, timezone_of(session_tz@), session_tz@)
            is Overflow),
    ensures
        match r {
            Ok(files) => files_outcome(
                tasks@,
                partition_schema@,
                timezone_of(session_tz@),
                session_tz@,
            ) == Made::Done(file_views(files@)),
            Err(e) => files_outcome(
                tasks@,
                partition_schema@,
                timezone_of(session_tz@),
                session_tz@,
            ) == Made::<Seq<PartitionedFileState>>::Error(e@),
        },
{
    let tz: SessionTimezone = SessionTimezone::parse(session_tz);
    let mut files: Vec<PartitionedFile> = Vec::new();
    let mut i: usize = 0;
    assert(tasks@.take(0) =~= Seq::<DeltaScanTask>::empty());
    assert(file_views(files@) =~= Seq::<PartitionedFileState>::empty());
    while i < tasks.len()
        invariant
            i <= tasks@.len(),
            tz@ == timezone_of(session_tz@),
            tz.offset_in_day(),
            !(files_outcome(tasks@, partition_schema@, tz@, session_tz@) is Overflow),
            files_outcome(tasks@.take(i as int), partition_schema@, tz@, session_tz@)
                == Made::Done(file_views(files@)),
        decreases tasks@.len() - i,
    {
        let ghost before = files@;
        let r: Option<Result<PartitionedFile, String>> = task_file(
            &tasks[i],
            partition_schema,
            &tz,
            session_tz,
        );
        proof {
            let next = tasks@.take(i + 1);
            assert(next.drop_last() =~= tasks@.take(i as int));
            assert(next.last() == tasks@[i as int]);
            if !(r matches Some(Ok(_))) {
                lemma_files_stop(tasks@, partition_schema@, tz@, session_tz@, i + 1);
            }
        }
        match r {
            None => {
                return Err(session_tz.to_owned());
            },
            Some(Err(e)) => {
                return Err(e);
            },
            Some(Ok(f)) => {
                files.push(f);
                assert(file_views(files@) =~= file_views(before).push(f@));
            },
        }
        i = i + 1;
    }
    assert(tasks@.take(tasks@.len() as int) =~= tasks@);
    Ok(files)
}

/// Whether an instant among the partition values is no 64-bit number of
/// nanoseconds, and nothing before it is wrong.
fn has_overflow(
    tasks: &Vec<DeltaScanTask>,
    partition_schema: &Vec<PartitionField>,
    session_tz: &str,
) -> (r: bool)
    ensures
        r == (files_outcome(tasks@, partition_schema@, timezone_of(session_tz@), session_tz@)
            is Overflow),
{
    let tz: SessionTimezone = SessionTimezone::parse(session_tz);
    let mut i: usize = 0;
    assert(tasks@.take(0) =~= Seq::<DeltaScanTask>::empty());
    while i < tasks.len()
        invariant
            i <= tasks@.len(),
            tz@ == timezone_of(session_tz@),
            tz.offset_in_day(),
            files_outcome(tasks@.take(i as int), partition_schema@, tz@, session_tz@) is Done,
        decreases tasks@.len() - i,
    {
        let r: Option<Result<PartitionedFile, String>> = task_file(
            &tasks[i],
            partition_schema,
            &tz,
            session_tz,
        );
        proof {
            let next = tasks@.take(i + 1);
            assert(next.drop_last() =~= tasks@.take(i as int));
            assert(next.last() == tasks@[i as int]);
            if !(r matches Some(Ok(_))) {
                lemma_files_stop(tasks@, partition_schema@, tz@, session_tz@, i + 1);
            }
        }
        match r {
            None => {
                return true;
            },
            Some(Err(_)) => {
                return false;
            },
            Some(Ok(_)) => {},
        }
        i = i + 1;
    }
    assert(tasks@.take(tasks@.len() as int) =~= tasks@);
    false
}

proof fn lemma_no_nanoseconds_no_value_overflow(
    values: Seq<DeltaPartitionValue>,
    fields: Seq<PartitionField>,
    tz: TimezoneState,
    session_tz: Seq<char>,
)
    requires
        forall|i: int| 0 <= i < fields.len() ==> !counts_nanoseconds(#[trigger] fields[i]),
    ensures
        !(values_outcome(values, fields, tz, session_tz) is Overflow),
    decreases fields.len(),
{
    if fields.len() > 0 {
        let t = fields.drop_last();
        assert forall|i: int| 0 <= i < t.len() implies !counts_nanoseconds(#[trigger] t[i]) by {
            assert(!counts_nanoseconds(fields[i]));
        }
        lemma_no_nanoseconds_no_value_overflow(values, t, tz, session_tz);
        assert(!counts_nanoseconds(fields[fields.len() - 1]));
    }
}

proof fn lemma_no_nanoseconds_no_overflow(
    tasks: Seq<DeltaScanTask>,
    fields: Seq<PartitionField>,
    tz: TimezoneState,
    session_tz: Seq<char>,
)
    requires
        forall|i: int| 0 <= i < fields.len() ==> !counts_nanoseconds(#[trigger] fields[i]),
    ensures
        !(files_outcome(tasks, fields, tz, session_tz) is Overflow),
    decreases tasks.len(),
{
    if tasks.len() > 0 {
        lemma_no_nanoseconds_no_overflow(tasks.drop_last(), fields, tz, session_tz);
        lemma_no_nanoseconds_no_value_overflow(
            tasks.last().partition_values@,
            fields,
            tz,
            session_tz,
        );
    }
}

fn any_counts_nanoseconds(fields: &Vec<PartitionField>) -> (r: bool)
    ensures
        r == exists|i: int| 0 <= i < fields@.len() && counts_nanoseconds(#[trigger] fields@[i]),
{
    let mut i: usize = 0;
    while i < fields.len()
        invariant
            i <= fields@.len(),
            forall|j: int| 0 <= j < i ==> !counts_nanoseconds(#[trigger] fields@[j]),
        decreases fields@.len() - i,
    {
        match &fields[i].data_type.timestamp {
            Some((TimeUnit::Nanosecond, Some(_))) => {
                assert(counts_nanoseconds(fields@[i as int]));
                return true;
            },
            _ => {},
        }
        i = i + 1;
    }
    false
}

/// The files of tasks, or why there are none. There is no answer where an instant
/// among the partition values is no 64-bit number of nanoseconds.
pub fn try_build_delta_partitioned_files(
    tasks: &Vec<DeltaScanTask>,
    partition_schema: &Vec<PartitionField>,
    session_tz: &str,
) -> (r: Option<Result<Vec<PartitionedFile>, String>>)
    ensures
        match r {
            Some(Ok(files)) => files_outcome(
                tasks@,
                partition_schema@,
                timezone_of(session_tz@),
                session_tz@,
            ) == Made::Done(file_views(files@)),
            Some(Err(e)) => files_outcome(
                tasks@,
                partition_schema@,
                timezone_of(session_tz@),
                session_tz@,
            ) == Made::<Seq<PartitionedFileState>>::Error(e@),
            None => files_outcome(
                tasks@,
                partition_schema@,
                timezone_of(session_tz@),
                session_tz@,
            ) is Overflow,
        },
{
    if any_counts_nanoseconds(partition_schema) {
        if has_overflow(tasks, partition_schema, session_tz) {
            return None;
        }
    } else {
        proof {
            lemma_no_nanoseconds_no_overflow(
                tasks@,
                partition_schema@,
                timezone_of(session_tz@),
                session_tz@,
            );
        }
    }
    Some(build_delta_partitioned_files(tasks, partition_schema, session_tz))
}

/// Where all files can be made, there is one for each task, in the tasks' order,
/// each made from its own task alone.
pub proof fn one_file_per_task(
    tasks: Seq<DeltaScanTask>,
    fields: Seq<PartitionField>,
    tz: TimezoneState,
    session_tz: Seq<char>,
)
    ensures
        files_outcome(tasks, fields, tz, session_tz) matches Made::Done(files) ==> files.len()
            == tasks.len() && forall|i: int|
            0 <= i < tasks.len() ==> file_outcome(#[trigger] tasks[i], fields, tz, session_tz)
                == Made::Done(files[i]),
    decreases tasks.len(),
{
    if tasks.len() > 0 {
        one_file_per_task(tasks.drop_last(), fields, tz, session_tz);
        if let Made::Done(files) = files_outcome(tasks, fields, tz, session_tz) {
            let n = tasks.len() - 1;
            assert forall|i: int| 0 <= i < tasks.len() implies file_outcome(
                #[trigger] tasks[i],
                fields,
                tz,
                session_tz,
            ) == Made::Done(files[i]) by {
                if i < n {
                    assert(tasks.drop_last()[i] == tasks[i]);
                }
            }
        }
    }
}

/// Where the values of a task's partition columns can be read, there is one for
/// each column, in the columns' order.
pub proof fn one_value_per_column(
    values: Seq<DeltaPartitionValue>,
    fields: Seq<PartitionField>,
    tz: TimezoneState,
    session_tz: Seq<char>,
)
    ensures
        values_outcome(values, fields, tz, session_tz) matches Made::Done(v) ==> v.len()
            == fields.len() && forall|i: int|
            0 <= i < fields.len() ==> field_outcome(values, #[trigger] fields[i], tz, session_tz)
                == Made::Done(v[i]),
    decreases fields.len(),
{
    if fields.len() > 0 {
        one_value_per_column(values, fields.drop_last(), tz, session_tz);
        if let Made::Done(v) = values_outcome(values, fields, tz, session_tz) {
            let n = fields.len() - 1;
            assert forall|i: int| 0 <= i < fields.len() implies field_outcome(
                values,
                #[trigger] fields[i],
                tz,
                session_tz,
            ) == Made::Done(v[i]) by {
                if i < n {
                    assert(fields.drop_last()[i] == fields[i]);
                }
            }
        }
    }
}

/// A pair maps its physical name to its logical one, unless a later pair lists the physical
/// name again: where no name is listed twice, every pair does.
pub proof fn every_pair_maps_its_physical_name(pairs: Seq<(String, String)>, i: int)
    requires
        0 <= i < pairs.len(),
        forall|j: int| i < j < pairs.len() ==> (#[trigger] pairs[j]).1@ != pairs[i].1@,
    ensures
        inverse_mapping(pairs).contains_key(pairs[i].1@),
        inverse_mapping(pairs)[pairs[i].1@] == pairs[i].0@,
    decreases pairs.len(),
{
    let t = pairs.drop_last();
    let n = pairs.len() - 1;
    if i < n {
        assert(pairs[n].1@ != pairs[i].1@);
        assert(t[i] == pairs[i]);
        assert forall|j: int| i < j < t.len() implies (#[trigger] t[j]).1@ != t[i].1@ by {
            assert(t[j] == pairs[j]);
        }
        every_pair_maps_its_physical_name(t, i);
    }
}

/// No name is mapped but the physical names that the pairs list.
pub proof fn only_listed_physical_names_are_mapped(pairs: Seq<(String, String)>, k: Seq<char>)
    ensures
        inverse_mapping(pairs).contains_key(k) <==> exists|i: int|
            0 <= i < pairs.len() && (#[trigger] pairs[i]).1@ == k,
    decreases pairs.len(),
{
    if pairs.len() > 0 {
        let t = pairs.drop_last();
        let n = pairs.len() - 1;
        only_listed_physical_names_are_mapped(t, k);
        if k == pairs[n].1@ {
            assert(inverse_mapping(pairs).contains_key(k));
        } else {
            if inverse_mapping(t).contains_key(k) {
                let i = choose|i: int| 0 <= i < t.len() && (#[trigger] t[i]).1@ == k;
                assert(pairs[i].1@ == k);
            }
            if exists|i: int| 0 <= i < pairs.len() && (#[trigger] pairs[i]).1@ == k {
                let i = choose|i: int| 0 <= i < pairs.len() && (#[trigger] pairs[i]).1@ == k;
                assert(t[i] == pairs[i]);
                assert(t[i].1@ == k);
            }
        }
    }
}

/// The pair is the last that lists its physical name.
pub open spec fn lists_last(pairs: Seq<(String, String)>, i: int) -> bool {
    &&& 0 <= i < pairs.len()
    &&& forall|j: int| i < j < pairs.len() ==> (#[trigger] pairs[j]).1@ != pairs[i].1@
}

/// Some pair lists the physical name.
pub open spec fn is_listed(pairs: Seq<(String, String)>, physical: Seq<char>) -> bool {
    exists|i: int| 0 <= i < pairs.len() && (#[trigger] pairs[i]).1@ == physical
}

/// The name stands for a physical one: it is the logical name of the pair that lists it, or
/// that name itself where no pair does.
pub open spec fn stands_for(
    name: Seq<char>,
    physical: Seq<char>,
    pairs: Seq<(String, String)>,
) -> bool {
    ||| !is_listed(pairs, physical) && name == physical
    ||| exists|i: int|
        lists_last(pairs, i) && (#[trigger] pairs[i]).1@ == physical && name == pairs[i].0@
}

/// The value is one that the file has, and its name stands for the one that it has there.
pub open spec fn comes_from(
    v: DeltaPartitionValue,
    file: Map<Seq<char>, Seq<char>>,
    pairs: Seq<(String, String)>,
) -> bool {
    exists|k: Seq<char>| #[trigger]
        file.contains_key(k) && text(v.value) == Some(file[k]) && stands_for(v.name@, k, pairs)
}

/// A name has a value in a task.
pub open spec fn task_gives(t: DeltaScanTask, name: Seq<char>, value: Seq<char>) -> bool {
    exists|k: int|
        0 <= k < t.partition_values@.len() && (#[trigger] t.partition_values@[k]).name@ == name && (
        t.partition_values@[k].value matches Some(v) && v@ == value)
}

/// Every partition value that a file has stands in its task: under the logical name of the
/// pair that lists its physical name, or under its own name where no pair does. The task
/// has no other.
pub proof fn partition_values_stand_under_logical_names(
    t: DeltaScanTask,
    root: Seq<char>,
    f: PlannedFile,
    pairs: Seq<(String, String)>,
)
    requires
        is_task_of(t, root, f, inverse_mapping(pairs)),
    ensures
        forall|i: int|
            lists_last(pairs, i) && f.entry.partition_values@.contains_key(
                (#[trigger] pairs[i]).1@,
            ) ==> task_gives(t, pairs[i].0@, f.entry.partition_values@[pairs[i].1@]),
        forall|k: Seq<char>| #[trigger]
            f.entry.partition_values@.contains_key(k) && !is_listed(pairs, k) ==> task_gives(
                t,
                k,
                f.entry.partition_values@[k],
            ),
        forall|j: int|
            0 <= j < t.partition_values@.len() ==> comes_from(
                #[trigger] t.partition_values@[j],
                f.entry.partition_values@,
                pairs,
            ),
{
    let file = f.entry.partition_values;
    let p2l = inverse_mapping(pairs);
    assert forall|k: Seq<char>| #[trigger] file@.contains_key(k) implies task_gives(
        t,
        logical_name(p2l, k),
        file@[k],
    ) by {
        assert(file.names().contains(k));
        let j = choose|j: int| 0 <= j < file.names().len() && file.names()[j] == k;
        assert(t.partition_values@[j].name@ == logical_name(p2l, k));
    }
    assert forall|i: int|
        lists_last(pairs, i) && file@.contains_key((#[trigger] pairs[i]).1@) implies task_gives(
        t,
        pairs[i].0@,
        file@[pairs[i].1@],
    ) by {
        every_pair_maps_its_physical_name(pairs, i);
    }
    assert forall|k: Seq<char>| #[trigger]
        file@.contains_key(k) && !is_listed(pairs, k) implies task_gives(t, k, file@[k]) by {
        only_listed_physical_names_are_mapped(pairs, k);
    }
    assert forall|j: int| 0 <= j < t.partition_values@.len() implies comes_from(
        #[trigger] t.partition_values@[j],
        file@,
        pairs,
    ) by {
        let k = file.names()[j];
        assert(file.names().contains(k));
        assert(file@.contains_key(k));
        if is_listed(pairs, k) {
            let i = lemma_last_listing(pairs, k);
            every_pair_maps_its_physical_name(pairs, i);
            assert(pairs[i].1@ == k && t.partition_values@[j].name@ == pairs[i].0@);
        } else {
            only_listed_physical_names_are_mapped(pairs, k);
        }
        assert(stands_for(t.partition_values@[j].name@, k, pairs));
    }
}

proof fn lemma_last_listing(pairs: Seq<(String, String)>, k: Seq<char>) -> (i: int)
    requires
        is_listed(pairs, k),
    ensures
        lists_last(pairs, i),
        pairs[i].1@ == k,
    decreases pairs.len(),
{
    let n = pairs.len() - 1;
    if pairs[n].1@ == k {
        n
    } else {
        let t = pairs.drop_last();
        let w = choose|i: int| 0 <= i < pairs.len() && (#[trigger] pairs[i]).1@ == k;
        assert(t[w].1@ == k);
        let i = lemma_last_listing(t, k);
        assert(t[i] == pairs[i]);
        assert forall|j: int| i < j < pairs.len() implies (#[trigger] pairs[j]).1@
            != pairs[i].1@ by {
            if j < n {
                assert(t[j] == pairs[j]);
            }
        }
        i
    }
}

/// A task has what the log says of its file: the deletion vector, the row id that it starts
/// at, the commit that wrote it, the number of records, the size, when it was modified, and
/// how its columns are transformed. It reads the whole file, and no row of it is known to
/// be deleted yet.
pub proof fn a_task_has_what_the_log_says_of_its_file(
    t: DeltaScanTask,
    root: Seq<char>,
    f: PlannedFile,
    p2l: Map<Seq<char>, Seq<char>>,
)
    requires
        is_task_of(t, root, f, p2l),
    ensures
        f.entry.size >= 0 ==> t.file_size == f.entry.size,
        t.record_count == f.entry.num_records,
        t.modification_time == Some(f.entry.modification_time),
        f.dv is None <==> t.dv is None,
        f.dv matches Some(d) ==> (t.dv matches Some(e) && e@ == d@),
        t.base_row_id == f.base_row_id,
        t.default_row_commit_version == f.default_row_commit_version,
        t.transform_json@ == f.transform_json@,
        t.byte_range_start is None && t.byte_range_end is None,
        t.deleted_row_indexes@.len() == 0,
        t.partition_values@.len() == f.entry.partition_values.names().len(),
{
}

/// The file of a task lies where the table's log says: at its path where that is a URI, and
/// otherwise below the table's root, with one slash between them where the root has none at
/// its end.
pub proof fn a_task_reads_the_file_below_the_root(
    t: DeltaScanTask,
    root: Seq<char>,
    f: PlannedFile,
    p2l: Map<Seq<char>, Seq<char>>,
)
    requires
        is_task_of(t, root, f, p2l),
    ensures
        uri_scheme(f.entry.path@) ==> t.file_path@ == f.entry.path@,
        !uri_scheme(f.entry.path@) ==> root.is_prefix_of(t.file_path@)
            && f.entry.path@.is_suffix_of(t.file_path@),
        !uri_scheme(f.entry.path@) && root.len() > 0 && root.last() == '/' ==> t.file_path@.len()
            == root.len() + f.entry.path@.len(),
        !uri_scheme(f.entry.path@) && !(root.len() > 0 && root.last() == '/')
            ==> t.file_path@.len() == root.len() + 1 + f.entry.path@.len()
            && t.file_path@[root.len() as int] == '/',
{
    reveal_strlit("/");
    let p = f.entry.path@;
    let r = t.file_path@;
    if !uri_scheme(p) {
        assert(r.subrange(0, root.len() as int) =~= root);
        assert(r.subrange(r.len() - p.len(), r.len() as int) =~= p);
        if !(root.len() > 0 && root.last() == '/') {
            assert(r[root.len() as int] == "/"@[0]);
        }
    }
}

/// The value of a partition column is the last one that the task gives it; a column that
/// the task gives no value has none.
pub proof fn the_last_value_of_a_column_counts(
    values: Seq<DeltaPartitionValue>,
    name: Seq<char>,
)
    ensures
        forall|i: int|
            0 <= i < values.len() && (#[trigger] values[i]).name@ == name && values[i].value is Some
                && (forall|j: int|
                i < j < values.len() ==> !((#[trigger] values[j]).name@ == name
                    && values[j].value is Some)) ==> value_named(values, name) == text(
                values[i].value,
            ) && value_named(values, name) is Some,
        value_named(values, name) is None <==> forall|i: int|
            0 <= i < values.len() ==> !((#[trigger] values[i]).name@ == name
                && values[i].value is Some),
    decreases values.len(),
{
    if values.len() > 0 {
        let t = values.drop_last();
        let n = values.len() - 1;
        the_last_value_of_a_column_counts(t, name);
        if values[n].name@ == name && values[n].value is Some {
        } else {
            assert forall|i: int|
                0 <= i < values.len() && (#[trigger] values[i]).name@ == name
                    && values[i].value is Some && (forall|j: int|
                    i < j < values.len() ==> !((#[trigger] values[j]).name@ == name
                        && values[j].value is Some)) implies value_named(values, name) == text(
                values[i].value,
            ) && value_named(values, name) is Some by {
                assert(t[i] == values[i]);
                assert forall|j: int| i < j < t.len() implies !((#[trigger] t[j]).name@ == name
                    && t[j].value is Some) by {
                    assert(t[j] == values[j]);
                }
            }
            if value_named(values, name) is None {
                assert forall|i: int| 0 <= i < values.len() implies !((
                #[trigger] values[i]).name@ == name && values[i].value is Some) by {
                    if i < n {
                        assert(t[i] == values[i]);
                    }
                }
            }
            if forall|i: int|
                0 <= i < values.len() ==> !((#[trigger] values[i]).name@ == name
                    && values[i].value is Some) {
                assert forall|i: int| 0 <= i < t.len() implies !((#[trigger] t[i]).name@ == name
                    && t[i].value is Some) by {
                    assert(t[i] == values[i]);
                }
            }
        }
    }
}

/// The task gives a column a text, and none behind it.
pub open spec fn gives_text(t: DeltaScanTask, name: Seq<char>, s: Seq<char>) -> bool {
    exists|i: int|
        0 <= i < t.partition_values@.len() && (#[trigger] t.partition_values@[i]).name@ == name && (
        t.partition_values@[i].value matches Some(v) && v@ == s) && forall|j: int|
            i < j < t.partition_values@.len() ==> !((#[trigger] t.partition_values@[j]).name@
                == name && t.partition_values@[j].value is Some)
}

/// The task gives a column no text.
pub open spec fn gives_no_text(t: DeltaScanTask, name: Seq<char>) -> bool {
    forall|i: int|
        0 <= i < t.partition_values@.len() ==> !((#[trigger] t.partition_values@[i]).name@ == name
            && t.partition_values@[i].value is Some)
}

/// The file of a task has the task's size, the path of its URL in the store, the task's
/// range where both ends are given, and for each partition column, in the columns' order,
/// one value: what the text that the task gives the column reads as in the column's type
/// and the session, or the type's missing value where the task gives it none.
pub proof fn a_file_is_made_from_its_task(
    t: DeltaScanTask,
    fields: Seq<PartitionField>,
    tz: TimezoneState,
    session_tz: Seq<char>,
    f: PartitionedFile,
)
    requires
        file_outcome(t, fields, tz, session_tz) == Made::Done(f@),
    ensures
        f.size == t.file_size,
        url_parse(t.file_path@) matches Ok(u) && store_path(u.5) == Ok::<Seq<char>, Seq<char>>(
            f.location@,
        ),
        t.byte_range_start is None || t.byte_range_end is None ==> f.range is None,
        t.byte_range_start matches Some(a) ==> (t.byte_range_end matches Some(b) ==> (a <= i64::MAX
            && b <= i64::MAX ==> (f.range matches Some(r) && r.0 == a && r.1 == b))),
        f.partition_values@.len() == fields.len(),
        forall|k: int, s: Seq<char>|
            0 <= k < fields.len() && #[trigger] gives_text(t, (#[trigger] fields[k]).name@, s)
                ==> scalar_outcome(s, fields[k].data_type@, tz, session_tz) == ScalarOutcome::Value(
                f.partition_values@[k]@,
            ),
        forall|k: int|
            0 <= k < fields.len() && gives_no_text(t, (#[trigger] fields[k]).name@) ==> (
            missing_of(fields[k].data_type.name@) matches Ok(v) && f.partition_values@[k]
                == PartitionValue::Scalar(v)),
{
    let values = t.partition_values@;
    one_value_per_column(values, fields, tz, session_tz);
    let views = value_views(f.partition_values@);
    assert(values_outcome(values, fields, tz, session_tz) == Made::Done(views));
    assert(f.partition_values@.len() == views.len());
    assert forall|k: int, s: Seq<char>|
        0 <= k < fields.len() && #[trigger] gives_text(
            t,
            (#[trigger] fields[k]).name@,
            s,
        ) implies scalar_outcome(s, fields[k].data_type@, tz, session_tz) == ScalarOutcome::Value(
        f.partition_values@[k]@,
    ) by {
        the_last_value_of_a_column_counts(values, fields[k].name@);
        assert(value_named(values, fields[k].name@) == Some(s));
        assert(field_outcome(values, fields[k], tz, session_tz) == Made::Done(views[k]));
    }
    assert forall|k: int|
        0 <= k < fields.len() && gives_no_text(t, (#[trigger] fields[k]).name@) implies (
    missing_of(fields[k].data_type.name@) matches Ok(v) && f.partition_values@[k]
        == PartitionValue::Scalar(v)) by {
        the_last_value_of_a_column_counts(values, fields[k].name@);
        assert(field_outcome(values, fields[k], tz, session_tz) == Made::Done(views[k]));
        assert(views[k] == f.partition_values@[k]@);
    }
}

/// Making the file of a task fails where its path is no URL, where the store has no such
/// path, or where the value of some partition column cannot be read; and nowhere else.
pub proof fn a_file_is_refused_for_its_path_or_a_value(
    t: DeltaScanTask,
    fields: Seq<PartitionField>,
    tz: TimezoneState,
    session_tz: Seq<char>,
)
    ensures
        !(file_outcome(t, fields, tz, session_tz) is Done) <==> (url_parse(t.file_path@) is Err || (
        url_parse(t.file_path@) matches Ok(u) && store_path(u.5) is Err) || exists|k: int|
            0 <= k < fields.len() && !(field_outcome(
                t.partition_values@,
                #[trigger] fields[k],
                tz,
                session_tz,
            ) is Done)),
{
    one_value_per_column(t.partition_values@, fields, tz, session_tz);
    if !(values_outcome(t.partition_values@, fields, tz, session_tz) is Done) {
        lemma_some_column_fails(t.partition_values@, fields, tz, session_tz);
    }
}

proof fn lemma_some_column_fails(
    values: Seq<DeltaPartitionValue>,
    fields: Seq<PartitionField>,
    tz: TimezoneState,
    session_tz: Seq<char>,
)
    requires
        !(values_outcome(values, fields, tz, session_tz) is Done),
    ensures
        exists|k: int|
            0 <= k < fields.len() && !(field_outcome(values, #[trigger] fields[k], tz, session_tz)
                is Done),
    decreases fields.len(),
{
    let n = fields.len() - 1;
    let before = fields.drop_last();
    if values_outcome(values, before, tz, session_tz) is Done {
        assert(!(field_outcome(values, fields[n], tz, session_tz) is Done));
    } else {
        lemma_some_column_fails(values, before, tz, session_tz);
        let k = choose|k: int|
            0 <= k < before.len() && !(field_outcome(values, #[trigger] before[k], tz, session_tz)
                is Done);
        assert(before[k] == fields[k]);
        assert(!(field_outcome(values, fields[k], tz, session_tz) is Done));
    }
}

} // verus!
