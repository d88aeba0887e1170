//! The plan of a scan: which files are read together, and what is put on top of
//! the read.

use vstd::prelude::*;

use crate::delta::location::{text, url_parse, TableUrl};
use crate::delta::synthetic_columns::ROW_INDEX_COLUMN_NAME;
use crate::delta::tasks::{
    file_outcome, file_views, files_outcome, one_file_per_task, try_build_delta_partitioned_files, DeltaScanTask,
    Made, PartitionField, PartitionedFile, PartitionedFileState,
};
use crate::delta::timezone::timezone_of;
use crate::options::OptionsMap;
use crate::text::{concat2, str_eq};

verus! {

/// What all tasks of a scan share.
pub struct DeltaScanCommon {
    /// The columns that the scan gives, by their logical names.
    pub required_schema: Vec<String>,
    /// The columns of the files, by their logical names.
    pub data_schema: Vec<String>,
    /// The partition columns.
    pub partition_schema: Vec<PartitionField>,
    /// The columns whose physical name is another: the logical name and the
    /// physical one.
    pub column_mappings: Vec<(String, String)>,
    /// The positions of the columns that are read.
    pub projection_vector: Vec<i64>,
    /// The time zone of the session.
    pub session_timezone: String,
    pub emit_row_index: bool,
    pub emit_is_row_deleted: bool,
    pub emit_row_id: bool,
    pub emit_row_commit_version: bool,
    /// The columns that describe a file.
    pub metadata_column_names: Vec<String>,
    /// The name of the column of row positions; empty where it has its own.
    pub row_index_column_alias: String,
    /// The positions of the columns in the result; empty where they are in order.
    pub final_output_indices: Vec<i64>,
}

/// A scan.
pub struct DeltaScan {
    pub common: Option<DeltaScanCommon>,
    pub tasks: Vec<DeltaScanTask>,
}

/// What describes the file of a task.
#[derive(Clone, Debug)]
pub struct TaskMetadata {
    pub file_path: Option<String>,
    pub file_size: Option<i64>,
    pub byte_range_start: Option<i64>,
    pub byte_range_end: Option<i64>,
    pub modification_time_millis: Option<i64>,
}

/// Files that are read together.
pub struct FileGroup {
    /// The positions of the files.
    pub members: Vec<usize>,
    /// The positions of the deleted rows.
    pub deleted_row_indexes: Vec<u64>,
    pub base_row_id: Option<i64>,
    pub default_row_commit_version: Option<i64>,
    pub metadata: TaskMetadata,
}

impl DeltaScanCommon {
    /// Columns are asked for that depend on the position of a row in its file, or on
    /// the file.
    pub open spec fn wants_synthetics(self) -> bool {
        self.emit_row_index || self.emit_is_row_deleted || self.emit_row_id
            || self.emit_row_commit_version || self.metadata_column_names@.len() > 0
    }

    /// Whether columns are asked for that depend on the position of a row in its
    /// file, or on the file.
    pub fn needs_synthetics(&self) -> (r: bool)
        ensures
            r == self.wants_synthetics(),
            self.emit_row_index ==> r,
            self.emit_is_row_deleted ==> r,
            self.emit_row_id ==> r,
            self.emit_row_commit_version ==> r,
            self.metadata_column_names@.len() > 0 ==> r,
    {
        self.emit_row_index || self.emit_is_row_deleted || self.emit_row_id
            || self.emit_row_commit_version || self.metadata_column_names.len() > 0
    }
}

/// The mapping from logical names to physical ones, of the pairs so far. A later
/// pair wins.
pub open spec fn forward_mapping(pairs: Seq<(String, String)>) -> Map<Seq<char>, Seq<char>>
    decreases pairs.len(),
{
    if pairs.len() == 0 {
        Map::empty()
    } else {
        forward_mapping(pairs.drop_last()).insert(pairs.last().0@, pairs.last().1@)
    }
}

/// The mapping from logical names to physical ones.
pub fn logical_to_physical(pairs: &Vec<(String, String)>) -> (m: OptionsMap)
    ensures
        m@ == forward_mapping(pairs@),
{
    let mut m: OptionsMap = OptionsMap::new();
    let mut i: usize = 0;
    assert(pairs@.take(0) =~= Seq::<(String, String)>::empty());
    while i < pairs.len()
        invariant
            i <= pairs@.len(),
            m@ == forward_mapping(pairs@.take(i as int)),
        decreases pairs@.len() - i,
    {
        m.insert(pairs[i].0.clone(), pairs[i].1.clone());
        proof {
            let next = pairs@.take(i + 1);
            assert(next.drop_last() =~= pairs@.take(i as int));
        }
        i = i + 1;
    }
    assert(pairs@.take(pairs@.len() as int) =~= pairs@);
    m
}

/// The physical name of a logical column: its own where it has no other.
pub open spec fn physical_name(m: Map<Seq<char>, Seq<char>>, logical: Seq<char>) -> Seq<char> {
    if m.contains_key(logical) {
        m[logical]
    } else {
        logical
    }
}

/// The physical names of columns.
pub fn physical_names(m: &OptionsMap, logical: &Vec<String>) -> (names: Vec<String>)
    ensures
        names@.len() == logical@.len(),
        forall|i: int|
            0 <= i < names@.len() ==> (#[trigger] names@[i])@ == physical_name(m@, logical@[i]@),
{
    let mut names: Vec<String> = Vec::new();
    let mut i: usize = 0;
    while i < logical.len()
        invariant
            i <= logical@.len(),
            names@.len() == i,
            forall|j: int|
                0 <= j < i ==> (#[trigger] names@[j])@ == physical_name(m@, logical@[j]@),
        decreases logical@.len() - i,
    {
        let name: String = match m.get(logical[i].as_str()) {
            Some(p) => p.clone(),
            None => logical[i].clone(),
        };
        names.push(name);
        i = i + 1;
    }
    names
}

/// Rewrites the columns of a filter from logical names to physical ones.
pub struct ColumnMappingFilterRewriter<'a> {
    pub logical_to_physical: &'a OptionsMap,
    /// The columns of the files, by their physical names.
    pub data_schema: &'a Vec<String>,
}

/// The name is that of the column at a position, and of none before it.
pub open spec fn first_named(names: Seq<String>, name: Seq<char>, i: int) -> bool {
    &&& 0 <= i < names.len()
    &&& names[i]@ == name
    &&& forall|j: int| 0 <= j < i ==> (#[trigger] names[j])@ != name
}

impl<'a> ColumnMappingFilterRewriter<'a> {
    /// What a column of a filter becomes: the physical name and its position among
    /// the columns of the files. A column without a physical name, or whose physical
    /// name no column has, stays as it is.
    pub fn rewrite_column(&self, name: &str) -> (r: Option<(String, usize)>)
        ensures
            match r {
                Some((physical, i)) => self.logical_to_physical@.contains_key(name@) && physical@
                    == self.logical_to_physical@[name@] && first_named(
                    self.data_schema@,
                    physical@,
                    i as int,
                ),
                None => self.logical_to_physical@.contains_key(name@) ==> forall|j: int|
                    0 <= j < self.data_schema@.len() ==> (#[trigger] self.data_schema@[j])@
                        != self.logical_to_physical@[name@],
            },
    {
        match self.logical_to_physical.get(name) {
            None => None,
            Some(physical) => {
                let mut i: usize = 0;
                while i < self.data_schema.len()
                    invariant
                        i <= self.data_schema@.len(),
                        self.logical_to_physical@.contains_key(name@),
                        physical@ == self.logical_to_physical@[name@],
                        forall|j: int|
                            0 <= j < i ==> (#[trigger] self.data_schema@[j])@ != physical@,
                    decreases self.data_schema@.len() - i,
                {
                    if str_eq(self.data_schema[i].as_str(), physical.as_str()) {
                        return Some((physical.clone(), i));
                    }
                    i = i + 1;
                }
                None
            },
        }
    }
}

/// The task's file is read by itself.
pub open spec fn read_alone(t: DeltaScanTask, per_file: bool) -> bool {
    t.deleted_row_indexes@.len() > 0 || per_file
}

/// The positions of the first tasks whose files are read by themselves.
pub open spec fn alone(tasks: Seq<DeltaScanTask>, per_file: bool, n: int) -> Seq<int>
    decreases n,
{
    if n <= 0 {
        Seq::empty()
    } else if read_alone(tasks[n - 1], per_file) {
        alone(tasks, per_file, n - 1).push(n - 1)
    } else {
        alone(tasks, per_file, n - 1)
    }
}

/// The positions of the first tasks whose files are read together.
pub open spec fn together(tasks: Seq<DeltaScanTask>, per_file: bool, n: int) -> Seq<int>
    decreases n,
{
    if n <= 0 {
        Seq::empty()
    } else if read_alone(tasks[n - 1], per_file) {
        together(tasks, per_file, n - 1)
    } else {
        together(tasks, per_file, n - 1).push(n - 1)
    }
}

/// Optional numbers cast to signed ones.
pub open spec fn cast_range(o: Option<u64>) -> Option<i64> {
    match o {
        Some(v) => Some(v as i64),
        None => None,
    }
}

/// The metadata describes the task's file.
pub open spec fn describes(m: TaskMetadata, t: DeltaScanTask) -> bool {
    &&& text(m.file_path) == Some(t.file_path@)
    &&& m.file_size == Some(t.file_size as i64)
    &&& m.byte_range_start == cast_range(t.byte_range_start)
    &&& m.byte_range_end == cast_range(t.byte_range_end)
    &&& m.modification_time_millis == t.modification_time
}

/// The group is that of one task's file.
pub open spec fn is_own_group(g: FileGroup, t: DeltaScanTask, i: int) -> bool {
    &&& g.members@.len() == 1 && g.members@[0] == i
    &&& g.deleted_row_indexes@ == t.deleted_row_indexes@
    &&& g.base_row_id == t.base_row_id
    &&& g.default_row_commit_version == t.default_row_commit_version
    &&& describes(g.metadata, t)
}

/// The group is that of files without deleted rows.
pub open spec fn is_shared_group(g: FileGroup, members: Seq<int>) -> bool {
    &&& g.members@.len() == members.len()
    &&& forall|k: int| 0 <= k < members.len() ==> #[trigger] g.members@[k] == members[k]
    &&& g.deleted_row_indexes@.len() == 0
    &&& g.base_row_id is None
    &&& g.default_row_commit_version is None
    &&& g.metadata.file_path is None
    &&& g.metadata.file_size is None
    &&& g.metadata.byte_range_start is None
    &&& g.metadata.byte_range_end is None
    &&& g.metadata.modification_time_millis is None
}

/// The groups of tasks: one for each file that is read alone, in the tasks' order,
/// and a last one for all others, where there are any.
pub open spec fn are_groups_of(
    groups: Seq<FileGroup>,
    tasks: Seq<DeltaScanTask>,
    per_file: bool,
) -> bool {
    let own = alone(tasks, per_file, tasks.len() as int);
    let shared = together(tasks, per_file, tasks.len() as int);
    &&& groups.len() == own.len() + (if shared.len() > 0 {
        1int
    } else {
        0
    })
    &&& forall|k: int|
        0 <= k < own.len() ==> is_own_group(#[trigger] groups[k], tasks[own[k]], own[k])
    &&& shared.len() > 0 ==> is_shared_group(groups[own.len() as int], shared)
}

fn cast_opt(o: Option<u64>) -> (r: Option<i64>)
    ensures
        r == cast_range(o),
{
    match o {
        Some(v) => Some(v as i64),
        None => None,
    }
}

/// Groups the files of tasks. A file with deleted rows is read alone, so that the
/// positions of its rows are those of the group; where `per_file` is set, every file
/// is.
pub fn group_files(tasks: &Vec<DeltaScanTask>, per_file: bool) -> (groups: Vec<FileGroup>)
    ensures
        are_groups_of(groups@, tasks@, per_file),
{
    let mut groups: Vec<FileGroup> = Vec::new();
    let mut shared: Vec<usize> = Vec::new();
    let mut i: usize = 0;
    while i < tasks.len()
        invariant
            i <= tasks@.len(),
            groups@.len() == alone(tasks@, per_file, i as int).len(),
            forall|k: int|
                0 <= k < groups@.len() ==> is_own_group(
                    #[trigger] groups@[k],
                    tasks@[alone(tasks@, per_file, i as int)[k]],
                    alone(tasks@, per_file, i as int)[k],
                ),
            shared@.len() == together(tasks@, per_file, i as int).len(),
            forall|k: int|
                0 <= k < shared@.len() ==> #[trigger] shared@[k] == together(
                    tasks@,
                    per_file,
                    i as int,
                )[k],
        decreases tasks@.len() - i,
    {
        let t: &DeltaScanTask = &tasks[i];
        if t.deleted_row_indexes.len() > 0 || per_file {
            let mut members: Vec<usize> = Vec::new();
            members.push(i);
            groups.push(
                FileGroup {
                    members,
                    deleted_row_indexes: t.deleted_row_indexes.clone(),
                    base_row_id: t.base_row_id,
                    default_row_commit_version: t.default_row_commit_version,
                    metadata: TaskMetadata {
                        file_path: Some(t.file_path.clone()),
                        file_size: Some(t.file_size as i64),
                        byte_range_start: cast_opt(t.byte_range_start),
                        byte_range_end: cast_opt(t.byte_range_end),
                        modification_time_millis: t.modification_time,
                    },
                },
            );
            assert(is_own_group(groups@.last(), tasks@[i as int], i as int));
        } else {
            shared.push(i);
        }
        i = i + 1;
    }
    if shared.len() > 0 {
        groups.push(
            FileGroup {
                members: shared,
                deleted_row_indexes: Vec::new(),
                base_row_id: None,
                default_row_commit_version: None,
                metadata: TaskMetadata {
                    file_path: None,
                    file_size: None,
                    byte_range_start: None,
                    byte_range_end: None,
                    modification_time_millis: None,
                },
            },
        );
    }
    groups
}

/// A scan that reads files.
pub struct FileScan {
    /// The columns of the files, by their physical names.
    pub data_schema: Vec<String>,
    /// The mapping from logical names to physical ones.
    pub mapping: OptionsMap,
    /// The positions of the columns that are read.
    pub projection: Vec<usize>,
    /// The files.
    pub files: Vec<PartitionedFile>,
    /// Which files are read together.
    pub groups: Vec<FileGroup>,
    /// The URL that the store is opened for: that of the first file.
    pub store_url: String,
}

/// The plan of a scan.
pub enum ScanPlan {
    /// There is nothing to read.
    Empty,
    /// Files are read.
    Files(FileScan),
}

fn cast_positions(v: &Vec<i64>) -> (r: Vec<usize>)
    ensures
        r@.len() == v@.len(),
        forall|i: int| 0 <= i < v@.len() ==> #[trigger] r@[i] == v@[i] as usize,
{
    let mut r: Vec<usize> = Vec::new();
    let mut i: usize = 0;
    while i < v.len()
        invariant
            i <= v@.len(),
            r@.len() == i,
            forall|j: int| 0 <= j < i ==> #[trigger] r@[j] == v@[j] as usize,
        decreases v@.len() - i,
    {
        r.push(v[i] as usize);
        i = i + 1;
    }
    r
}

/// The scan reads the files of the tasks as the common part says.
pub open spec fn is_file_scan(
    f: FileScan,
    c: DeltaScanCommon,
    tasks: Seq<DeltaScanTask>,
    files: Seq<PartitionedFileState>,
) -> bool {
    &&& f.mapping@ == forward_mapping(c.column_mappings@)
    &&& f.data_schema@.len() == c.data_schema@.len()
    &&& forall|i: int|
        0 <= i < f.data_schema@.len() ==> (#[trigger] f.data_schema@[i])@ == physical_name(
            f.mapping@,
            c.data_schema@[i]@,
        )
    &&& f.projection@.len() == c.projection_vector@.len()
    &&& forall|i: int|
        0 <= i < f.projection@.len() ==> #[trigger] f.projection@[i]
            == c.projection_vector@[i] as usize
    &&& file_views(f.files@) == files
    &&& are_groups_of(f.groups@, tasks, c.wants_synthetics())
    &&& url_parse(tasks[0].file_path@) matches Ok(u) && f.store_url@ == u.0
}

/// What planning a scan brings.
pub open spec fn scan_outcome(c: DeltaScanCommon, tasks: Seq<DeltaScanTask>) -> Made<
    Seq<PartitionedFileState>,
> {
    files_outcome(
        tasks,
        c.partition_schema@,
        timezone_of(c.session_timezone@),
        c.session_timezone@,
    )
}

/// Plans a scan.
///
/// A scan without its common part is an error, and one without tasks reads nothing.
/// There is no answer where an instant among the partition values is no 64-bit
/// number of nanoseconds.
pub fn plan_delta_scan(scan: &DeltaScan) -> (r: Option<Result<ScanPlan, String>>)
    ensures
        match scan.common {
            None => r matches Some(Err(e)) && e@ == "DeltaScan missing common data"@,
            Some(c) => if scan.tasks@.len() == 0 {
                r matches Some(Ok(ScanPlan::Empty))
            } else {
                match scan_outcome(c, scan.tasks@) {
                    Made::Done(files) => r matches Some(Ok(ScanPlan::Files(f))) && is_file_scan(
                        f,
                        c,
                        scan.tasks@,
                        files,
                    ),
                    Made::Error(why) => r matches Some(Err(e)) && e@ == why,
                    Made::Overflow => r is None,
                }
            },
        },
{
    let c: &DeltaScanCommon = match &scan.common {
        None => {
            return Some(Err("DeltaScan missing common data".to_owned()));
        },
        Some(c) => c,
    };
    if scan.tasks.len() == 0 {
        return Some(Ok(ScanPlan::Empty));
    }
    let mapping: OptionsMap = logical_to_physical(&c.column_mappings);
    let data_schema: Vec<String> = physical_names(&mapping, &c.data_schema);
    let projection: Vec<usize> = cast_positions(&c.projection_vector);
    let files: Vec<PartitionedFile> = match try_build_delta_partitioned_files(
        &scan.tasks,
        &c.partition_schema,
        c.session_timezone.as_str(),
    ) {
        None => {
            return None;
        },
        Some(Err(e)) => {
            return Some(Err(e));
        },
        Some(Ok(files)) => files,
    };
    proof {
        one_file_per_task(
            scan.tasks@,
            c.partition_schema@,
            timezone_of(c.session_timezone@),
            c.session_timezone@,
        );
        assert(scan.tasks@[0] == scan.tasks@.first());
    }
    let groups: Vec<FileGroup> = group_files(&scan.tasks, c.needs_synthetics());
    match TableUrl::parse(scan.tasks[0].file_path.as_str()) {
        Err(e) => Some(Err(concat2("DeltaScan invalid file URL: ", e.as_str()))),
        Ok(u) => Some(
            Ok(
                ScanPlan::Files(
                    FileScan { data_schema, mapping, projection, files, groups, store_url: u.href },
                ),
            ),
        ),
    }
}

/// The position of the last column with a name.
pub open spec fn last_named(names: Seq<String>, name: Seq<char>, n: int) -> int
    decreases n,
{
    if n <= 0 {
        -1
    } else if names[n - 1]@ == name {
        n - 1
    } else {
        last_named(names, name, n - 1)
    }
}

/// Some column has another name than is required.
pub open spec fn names_differ(required: Seq<String>, read: Seq<String>) -> bool {
    exists|i: int| 0 <= i < read.len() && (#[trigger] required[i])@ != read[i]@
}

/// The columns of the files have to be renamed: names are mapped, there are as many
/// columns as required, and some name differs.
pub open spec fn needs_rename(required: Seq<String>, read: Seq<String>, mapped: bool) -> bool {
    mapped && required.len() == read.len() && names_differ(required, read)
}

fn any_differs(required: &Vec<String>, read: &Vec<String>) -> (r: bool)
    requires
        required@.len() == read@.len(),
    ensures
        r == names_differ(required@, read@),
{
    let mut i: usize = 0;
    while i < read.len()
        invariant
            i <= read@.len() == required@.len(),
            forall|j: int| 0 <= j < i ==> (#[trigger] required@[j])@ == read@[j]@,
        decreases read@.len() - i,
    {
        if !str_eq(required[i].as_str(), read[i].as_str()) {
            return true;
        }
        i = i + 1;
    }
    false
}

proof fn lemma_last_named(names: Seq<String>, name: Seq<char>, n: int, i: int)
    requires
        0 <= i < n <= names.len(),
        names[i]@ == name,
    ensures
        i <= last_named(names, name, n) < n,
        names[last_named(names, name, n)]@ == name,
    decreases n,
{
    if names[n - 1]@ != name {
        lemma_last_named(names, name, n - 1, i);
    }
}

fn find_last(names: &Vec<String>, i: usize) -> (k: usize)
    requires
        i < names@.len(),
    ensures
        k < names@.len(),
        k == last_named(names@, names@[i as int]@, names@.len() as int),
{
    proof {
        lemma_last_named(names@, names@[i as int]@, names@.len() as int, i as int);
    }
    let mut n: usize = names.len();
    while n > 0
        invariant
            i < names@.len(),
            n <= names@.len(),
            last_named(names@, names@[i as int]@, names@.len() as int) == last_named(
                names@,
                names@[i as int]@,
                n as int,
            ),
            last_named(names@, names@[i as int]@, names@.len() as int) >= 0,
        decreases n,
    {
        if str_eq(names[n - 1].as_str(), names[i].as_str()) {
            return n - 1;
        }
        n = n - 1;
    }
    i
}

/// The names that the columns of the files are given, where they have to be
/// renamed: each the required name of the same position. Columns of one name are all
/// given the last one's.
pub fn rename_columns(required: &Vec<String>, read: &Vec<String>, mapped: bool) -> (r: Option<
    Vec<String>,
>)
    ensures
        match r {
            Some(names) => needs_rename(required@, read@, mapped) && names@.len() == read@.len()
                && forall|i: int|
                0 <= i < names@.len() ==> (#[trigger] names@[i])@ == required@[last_named(
                    read@,
                    read@[i]@,
                    read@.len() as int,
                )]@,
            None => !needs_rename(required@, read@, mapped),
        },
{
    if !mapped || required.len() != read.len() {
        return None;
    }
    if !any_differs(required, read) {
        return None;
    }
    let mut names: Vec<String> = Vec::new();
    let mut i: usize = 0;
    while i < read.len()
        invariant
            i <= read@.len() == required@.len(),
            names@.len() == i,
            forall|j: int|
                0 <= j < i ==> (#[trigger] names@[j])@ == required@[last_named(
                    read@,
                    read@[j]@,
                    read@.len() as int,
                )]@,
        decreases read@.len() - i,
    {
        let k: usize = find_last(read, i);
        names.push(required[k].clone());
        i = i + 1;
    }
    Some(names)
}

/// What is put on top of the read.
#[derive(Debug)]
pub enum Wrap {
    /// Columns are added, and no row is dropped.
    Synthetics { row_index_name: String },
    /// Deleted rows are dropped.
    DvFilter,
    /// Nothing.
    Plain,
}

/// Some group has deleted rows.
pub open spec fn any_deleted(groups: Seq<FileGroup>) -> bool {
    exists|k: int| 0 <= k < groups.len() && (#[trigger] groups[k]).deleted_row_indexes@.len() > 0
}

/// The wrap is what is put on top of the read of the groups.
pub open spec fn is_wrap_of(w: Wrap, c: DeltaScanCommon, groups: Seq<FileGroup>) -> bool {
    match w {
        Wrap::Synthetics { row_index_name } => c.wants_synthetics() && row_index_name@ == (
        if c.row_index_column_alias@.len() == 0 {
            ROW_INDEX_COLUMN_NAME@
        } else {
            c.row_index_column_alias@
        }),
        Wrap::DvFilter => !c.wants_synthetics() && any_deleted(groups),
        Wrap::Plain => !c.wants_synthetics() && !any_deleted(groups),
    }
}

/// What is put on top of the read: added columns where any are asked for, else a
/// filter where some row is deleted.
pub fn wrap_mode(c: &DeltaScanCommon, groups: &Vec<FileGroup>) -> (w: Wrap)
    ensures
        is_wrap_of(w, *c, groups@),
        c.emit_row_index ==> w is Synthetics,
        c.emit_is_row_deleted ==> w is Synthetics,
        c.emit_row_id ==> w is Synthetics,
        c.emit_row_commit_version ==> w is Synthetics,
        c.metadata_column_names@.len() > 0 ==> w is Synthetics,
{
    if c.needs_synthetics() {
        let row_index_name: String = if c.row_index_column_alias.as_str().is_empty() {
            ROW_INDEX_COLUMN_NAME.to_owned()
        } else {
            c.row_index_column_alias.clone()
        };
        return Wrap::Synthetics { row_index_name };
    }
    let mut k: usize = 0;
    while k < groups.len()
        invariant
            k <= groups@.len(),
            !c.wants_synthetics(),
            forall|j: int| 0 <= j < k ==> (#[trigger] groups@[j]).deleted_row_indexes@.len() == 0,
        decreases groups@.len() - k,
    {
        if groups[k].deleted_row_indexes.len() > 0 {
            return Wrap::DvFilter;
        }
        k = k + 1;
    }
    Wrap::Plain
}

/// The columns of the result, with their positions in what was read and added, where
/// they are not in order already.
pub fn reorder_columns(indices: &Vec<i64>, columns: &Vec<String>) -> (r: Option<
    Vec<(usize, String)>,
>)
    requires
        forall|i: int|
            0 <= i < indices@.len() ==> 0 <= #[trigger] indices@[i] < columns@.len(),
    ensures
        match r {
            None => indices@.len() == 0,
            Some(v) => indices@.len() > 0 && v@.len() == indices@.len() && forall|i: int|
                0 <= i < v@.len() ==> (#[trigger] v@[i]).0 == indices@[i] && v@[i].1@
                    == columns@[indices@[i] as int]@,
        },
{
    if indices.len() == 0 {
        return None;
    }
    let n: usize = columns.len();
    let mut v: Vec<(usize, String)> = Vec::new();
    let mut i: usize = 0;
    while i < indices.len()
        invariant
            i <= indices@.len(),
            n == columns@.len(),
            v@.len() == i,
            forall|j: int|
                0 <= j < indices@.len() ==> 0 <= #[trigger] indices@[j] < columns@.len(),
            forall|j: int|
                0 <= j < i ==> (#[trigger] v@[j]).0 == indices@[j] && v@[j].1@
                    == columns@[indices@[j] as int]@,
        decreases indices@.len() - i,
    {
        assert(0 <= indices@[i as int] < n <= usize::MAX);
        let k: usize = indices[i] as usize;
        v.push((k, columns[k].clone()));
        i = i + 1;
    }
    Some(v)
}

/// Every file is read exactly once: alone or together with others.
pub proof fn files_are_read_once(tasks: Seq<DeltaScanTask>, per_file: bool, n: int)
    requires
        0 <= n <= tasks.len(),
    ensures
        alone(tasks, per_file, n).len() + together(tasks, per_file, n).len() == n,
        forall|i: int|
            0 <= i < n ==> (#[trigger] alone(tasks, per_file, n).contains(i) <==> read_alone(
                tasks[i],
                per_file,
            )),
        forall|i: int|
            0 <= i < n ==> (#[trigger] together(tasks, per_file, n).contains(i) <==> !read_alone(
                tasks[i],
                per_file,
            )),
        alone(tasks, per_file, n).no_duplicates(),
        together(tasks, per_file, n).no_duplicates(),
        forall|k: int|
            0 <= k < alone(tasks, per_file, n).len() ==> 0 <= #[trigger] alone(
                tasks,
                per_file,
                n,
            )[k] < n,
        forall|k: int|
            0 <= k < together(tasks, per_file, n).len() ==> 0 <= #[trigger] together(
                tasks,
                per_file,
                n,
            )[k] < n,
    decreases n,
{
    if n > 0 {
        files_are_read_once(tasks, per_file, n - 1);
        let a0 = alone(tasks, per_file, n - 1);
        let t0 = together(tasks, per_file, n - 1);
        let a = alone(tasks, per_file, n);
        let t = together(tasks, per_file, n);
        assert(!a0.contains(n - 1)) by {
            if a0.contains(n - 1) {
                let k = choose|k: int| 0 <= k < a0.len() && a0[k] == n - 1;
                assert(a0[k] < n - 1);
            }
        }
        assert(!t0.contains(n - 1)) by {
            if t0.contains(n - 1) {
                let k = choose|k: int| 0 <= k < t0.len() && t0[k] == n - 1;
                assert(t0[k] < n - 1);
            }
        }
        if read_alone(tasks[n - 1], per_file) {
            lemma_push_contains(a0, n - 1);
        } else {
            lemma_push_contains(t0, n - 1);
        }
    }
}

proof fn lemma_push_contains(s: Seq<int>, x: int)
    requires
        s.no_duplicates(),
        !s.contains(x),
    ensures
        s.push(x).no_duplicates(),
        forall|y: int| #[trigger] s.push(x).contains(y) <==> s.contains(y) || y == x,
{
    let p = s.push(x);
    assert forall|y: int| #[trigger] p.contains(y) <==> s.contains(y) || y == x by {
        if s.contains(y) {
            let k = choose|k: int| 0 <= k < s.len() && s[k] == y;
            assert(p[k] == y);
        }
        if y == x {
            assert(p[s.len() as int] == x);
        }
        if p.contains(y) {
            let k = choose|k: int| 0 <= k < p.len() && p[k] == y;
            if k < s.len() {
                assert(s[k] == y);
            }
        }
    }
    assert forall|i: int, j: int| 0 <= i < p.len() && 0 <= j < p.len() && i != j implies p[i]
        != p[j] by {
        if i < s.len() && j < s.len() {
            assert(s[i] != s[j]);
        } else if i < s.len() {
            assert(s.contains(s[i]));
        } else {
            assert(s.contains(s[j]));
        }
    }
}

/// A group with deleted rows, or in a scan that adds columns, has one file: the
/// positions of the group's rows are those of the file's.
pub proof fn positions_are_those_of_one_file(
    groups: Seq<FileGroup>,
    tasks: Seq<DeltaScanTask>,
    per_file: bool,
    k: int,
)
    requires
        are_groups_of(groups, tasks, per_file),
        0 <= k < groups.len(),
        groups[k].deleted_row_indexes@.len() > 0 || per_file,
    ensures
        groups[k].members@.len() == 1,
        groups[k].members@[0] < tasks.len(),
        groups[k].deleted_row_indexes@ == tasks[groups[k].members@[0] as int].deleted_row_indexes@,
        groups[k].base_row_id == tasks[groups[k].members@[0] as int].base_row_id,
{
    let n = tasks.len() as int;
    files_are_read_once(tasks, per_file, n);
    let own = alone(tasks, per_file, n);
    let shared = together(tasks, per_file, n);
    if k == own.len() {
        assert(is_shared_group(groups[k], shared));
        assert(per_file);
        let i = shared[0];
        assert(shared.contains(i));
        assert(!read_alone(tasks[i], per_file));
    } else {
        assert(is_own_group(groups[k], tasks[own[k]], own[k]));
    }
}

/// No deleted row is lost: the deleted rows of every task are those of the group
/// that its file is read in.
pub proof fn deleted_rows_reach_a_group(
    groups: Seq<FileGroup>,
    tasks: Seq<DeltaScanTask>,
    per_file: bool,
    i: int,
)
    requires
        are_groups_of(groups, tasks, per_file),
        0 <= i < tasks.len(),
        tasks[i].deleted_row_indexes@.len() > 0,
    ensures
        exists|k: int|
            0 <= k < groups.len() && (#[trigger] groups[k]).members@ == seq![i as usize]
                && groups[k].deleted_row_indexes@ == tasks[i].deleted_row_indexes@,
        any_deleted(groups),
{
    let n = tasks.len() as int;
    files_are_read_once(tasks, per_file, n);
    let own = alone(tasks, per_file, n);
    assert(own.contains(i));
    let k = choose|k: int| 0 <= k < own.len() && own[k] == i;
    assert(is_own_group(groups[k], tasks[own[k]], own[k]));
    assert(groups[k].members@ =~= seq![i as usize]);
}

/// Columns with different names are each given the required name of their position.
pub proof fn renaming_is_by_position(required: Seq<String>, read: Seq<String>, i: int)
    requires
        required.len() == read.len(),
        0 <= i < read.len(),
        forall|j: int, k: int|
            0 <= j < k < read.len() ==> (#[trigger] read[j])@ != (#[trigger] read[k])@,
    ensures
        required[last_named(read, read[i]@, read.len() as int)]@ == required[i]@,
{
    let k = last_named(read, read[i]@, read.len() as int);
    lemma_last_named(read, read[i]@, read.len() as int, i);
    if i < k {
        assert(read[i]@ != read[k]@);
    }
}

/// There is one group for each task, in the tasks' order: it has the task's file alone, and
/// the deleted rows, the base row id, the commit version and the description of that task.
pub open spec fn one_group_for_each(groups: Seq<FileGroup>, tasks: Seq<DeltaScanTask>) -> bool {
    &&& groups.len() == tasks.len()
    &&& forall|i: int|
        0 <= i < tasks.len() ==> ({
            let g = #[trigger] groups[i];
            let t = tasks[i];
            &&& g.members@ == seq![i as usize]
            &&& g.deleted_row_indexes@ == t.deleted_row_indexes@
            &&& g.base_row_id == t.base_row_id
            &&& g.default_row_commit_version == t.default_row_commit_version
            &&& tells_of(g.metadata, t)
        })
}

/// A number that fits is told as it is.
pub open spec fn tells_number(told: Option<i64>, n: Option<u64>) -> bool {
    match n {
        Some(v) => v <= i64::MAX ==> (told matches Some(x) && x == v),
        None => told is None,
    }
}

/// The metadata tells of a task's file its path, its size, where the range that is read
/// starts and ends, and when it was last modified.
pub open spec fn tells_of(m: TaskMetadata, t: DeltaScanTask) -> bool {
    &&& m.file_path matches Some(p) && p@ == t.file_path@
    &&& tells_number(m.file_size, Some(t.file_size))
    &&& tells_number(m.byte_range_start, t.byte_range_start)
    &&& tells_number(m.byte_range_end, t.byte_range_end)
    &&& m.modification_time_millis == t.modification_time
}

proof fn lemma_all_alone(tasks: Seq<DeltaScanTask>, n: int)
    requires
        0 <= n <= tasks.len(),
    ensures
        alone(tasks, true, n).len() == n,
        together(tasks, true, n).len() == 0,
        forall|i: int| 0 <= i < n ==> #[trigger] alone(tasks, true, n)[i] == i,
    decreases n,
{
    if n > 0 {
        lemma_all_alone(tasks, n - 1);
    }
}

proof fn lemma_one_group_for_each(groups: Seq<FileGroup>, tasks: Seq<DeltaScanTask>)
    requires
        are_groups_of(groups, tasks, true),
    ensures
        one_group_for_each(groups, tasks),
{
    lemma_all_alone(tasks, tasks.len() as int);
    let own = alone(tasks, true, tasks.len() as int);
    assert forall|i: int| 0 <= i < tasks.len() implies ({
        let g = #[trigger] groups[i];
        let t = tasks[i];
        &&& g.members@ == seq![i as usize]
        &&& g.deleted_row_indexes@ == t.deleted_row_indexes@
        &&& g.base_row_id == t.base_row_id
        &&& g.default_row_commit_version == t.default_row_commit_version
        &&& tells_of(g.metadata, t)
    }) by {
        assert(is_own_group(groups[i], tasks[own[i]], own[i]));
        assert(groups[i].members@ =~= seq![i as usize]);
    }
}

/// Each of the columns that depend on a file or on a row's position in it is reason enough
/// to read every file by itself and to add columns: row positions, deletion flags, row ids,
/// commit versions, and columns that describe a file. The group of a file has what its own
/// task says. Where none is asked for, no column is added.
pub proof fn each_added_column_is_made_file_by_file(
    f: FileScan,
    c: DeltaScanCommon,
    tasks: Seq<DeltaScanTask>,
    files: Seq<PartitionedFileState>,
    w: Wrap,
)
    requires
        is_file_scan(f, c, tasks, files),
        is_wrap_of(w, c, f.groups@),
    ensures
        c.emit_row_index ==> one_group_for_each(f.groups@, tasks) && w is Synthetics,
        c.emit_is_row_deleted ==> one_group_for_each(f.groups@, tasks) && w is Synthetics,
        c.emit_row_id ==> one_group_for_each(f.groups@, tasks) && w is Synthetics,
        c.emit_row_commit_version ==> one_group_for_each(f.groups@, tasks) && w is Synthetics,
        c.metadata_column_names@.len() > 0 ==> one_group_for_each(f.groups@, tasks)
            && w is Synthetics,
        w is Synthetics ==> c.emit_row_index || c.emit_is_row_deleted || c.emit_row_id
            || c.emit_row_commit_version || c.metadata_column_names@.len() > 0,
        w matches Wrap::Synthetics { row_index_name } ==> (c.row_index_column_alias@.len() > 0
            ==> row_index_name@ == c.row_index_column_alias@) && (
        c.row_index_column_alias@.len() == 0 ==> row_index_name@ == ROW_INDEX_COLUMN_NAME@),
{
    if c.wants_synthetics() {
        lemma_one_group_for_each(f.groups@, tasks);
    }
}

/// Where no column is added, deleted rows are dropped exactly where some task has any; the
/// file of such a task is read by itself with its own deleted rows, and all other files are
/// read together in the tasks' order, behind them.
pub proof fn files_without_deleted_rows_are_read_together(
    f: FileScan,
    c: DeltaScanCommon,
    tasks: Seq<DeltaScanTask>,
    files: Seq<PartitionedFileState>,
    w: Wrap,
)
    requires
        is_file_scan(f, c, tasks, files),
        is_wrap_of(w, c, f.groups@),
        !c.emit_row_index,
        !c.emit_is_row_deleted,
        !c.emit_row_id,
        !c.emit_row_commit_version,
        c.metadata_column_names@.len() == 0,
    ensures
        w is DvFilter <==> exists|i: int|
            0 <= i < tasks.len() && (#[trigger] tasks[i]).deleted_row_indexes@.len() > 0,
        w is Plain <==> forall|i: int|
            0 <= i < tasks.len() ==> (#[trigger] tasks[i]).deleted_row_indexes@.len() == 0,
        forall|i: int|
            0 <= i < tasks.len() && (#[trigger] tasks[i]).deleted_row_indexes@.len() > 0
                ==> exists|k: int|
                0 <= k < f.groups@.len() && (#[trigger] f.groups@[k]).members@ == seq![i as usize]
                    && f.groups@[k].deleted_row_indexes@ == tasks[i].deleted_row_indexes@,
        forall|i: int|
            0 <= i < tasks.len() && (#[trigger] tasks[i]).deleted_row_indexes@.len() == 0
                ==> f.groups@.len() > 0 && f.groups@.last().deleted_row_indexes@.len() == 0
                && exists|k: int|
                0 <= k < f.groups@.last().members@.len() && #[trigger] f.groups@.last().members@[k]
                    == i,
        f.groups@.len() > 0 && f.groups@.last().deleted_row_indexes@.len() == 0 ==> forall|
            j: int,
            k: int,
        |
            0 <= j < k < f.groups@.last().members@.len() ==> #[trigger] f.groups@.last().members@[j]
                < #[trigger] f.groups@.last().members@[k],
{
    let n = tasks.len() as int;
    let groups = f.groups@;
    files_are_read_once(tasks, false, n);
    let own = alone(tasks, false, n);
    let shared = together(tasks, false, n);
    lemma_together_in_order(tasks, false, n);
    assert forall|i: int| 0 <= i < n && (#[trigger] tasks[i]).deleted_row_indexes@.len() > 0 implies exists|
        k: int,
    |
        0 <= k < groups.len() && (#[trigger] groups[k]).members@ == seq![i as usize]
            && groups[k].deleted_row_indexes@ == tasks[i].deleted_row_indexes@ by {
        deleted_rows_reach_a_group(groups, tasks, false, i);
    }
    assert forall|i: int| 0 <= i < n && (#[trigger] tasks[i]).deleted_row_indexes@.len()
        == 0 implies groups.len() > 0 && groups.last().deleted_row_indexes@.len() == 0 && exists|
        k: int,
    |
        0 <= k < groups.last().members@.len() && #[trigger] groups.last().members@[k] == i by {
        assert(shared.contains(i));
        let k = choose|k: int| 0 <= k < shared.len() && shared[k] == i;
        assert(is_shared_group(groups.last(), shared));
        assert(groups.last().members@[k] == shared[k]);
    }
    if any_deleted(groups) {
        let k = choose|k: int|
            0 <= k < groups.len() && (#[trigger] groups[k]).deleted_row_indexes@.len() > 0;
        positions_are_those_of_one_file(groups, tasks, false, k);
        assert(tasks[groups[k].members@[0] as int].deleted_row_indexes@.len() > 0);
    }
    if exists|i: int| 0 <= i < n && (#[trigger] tasks[i]).deleted_row_indexes@.len() > 0 {
        let i = choose|i: int|
            0 <= i < n && (#[trigger] tasks[i]).deleted_row_indexes@.len() > 0;
        deleted_rows_reach_a_group(groups, tasks, false, i);
    }
    if groups.len() > 0 && groups.last().deleted_row_indexes@.len() == 0 {
        if shared.len() == 0 {
            let k = groups.len() - 1;
            assert(own.contains(own[k]));
            assert(is_own_group(groups[k], tasks[own[k]], own[k]));
            assert(read_alone(tasks[own[k]], false));
        } else {
            assert(is_shared_group(groups.last(), shared));
        }
    }
}

proof fn lemma_together_in_order(tasks: Seq<DeltaScanTask>, per_file: bool, n: int)
    requires
        0 <= n <= tasks.len(),
    ensures
        forall|j: int, k: int|
            0 <= j < k < together(tasks, per_file, n).len() ==> #[trigger] together(
                tasks,
                per_file,
                n,
            )[j] < #[trigger] together(tasks, per_file, n)[k],
        forall|k: int|
            0 <= k < together(tasks, per_file, n).len() ==> 0 <= #[trigger] together(
                tasks,
                per_file,
                n,
            )[k] < n,
    decreases n,
{
    if n > 0 {
        lemma_together_in_order(tasks, per_file, n - 1);
        let before = together(tasks, per_file, n - 1);
        let now = together(tasks, per_file, n);
        if read_alone(tasks[n - 1], per_file) {
            assert(now == before);
        } else {
            assert(now == before.push(n - 1));
            assert forall|k: int| 0 <= k < before.len() implies now[k] == #[trigger] before[k] by {}
        }
    }
}

/// A pair maps its logical name to its physical one, unless a later pair lists the logical
/// name again: where no name is listed twice, every pair does.
pub proof fn every_pair_maps_its_logical_name(pairs: Seq<(String, String)>, i: int)
    requires
        0 <= i < pairs.len(),
        forall|j: int| i < j < pairs.len() ==> (#[trigger] pairs[j]).0@ != pairs[i].0@,
    ensures
        forward_mapping(pairs).contains_key(pairs[i].0@),
        forward_mapping(pairs)[pairs[i].0@] == pairs[i].1@,
    decreases pairs.len(),
{
    let t = pairs.drop_last();
    let n = pairs.len() - 1;
    if i < n {
        assert(pairs[n].0@ != pairs[i].0@);
        assert(t[i] == pairs[i]);
        assert forall|j: int| i < j < t.len() implies (#[trigger] t[j]).0@ != t[i].0@ by {
            assert(t[j] == pairs[j]);
        }
        every_pair_maps_its_logical_name(t, i);
    }
}

/// No name is mapped but the logical names that the pairs list.
pub proof fn only_listed_logical_names_are_mapped(pairs: Seq<(String, String)>, k: Seq<char>)
    ensures
        forward_mapping(pairs).contains_key(k) <==> exists|i: int|
            0 <= i < pairs.len() && (#[trigger] pairs[i]).0@ == k,
    decreases pairs.len(),
{
    if pairs.len() > 0 {
        let t = pairs.drop_last();
        let n = pairs.len() - 1;
        only_listed_logical_names_are_mapped(t, k);
        if k == pairs[n].0@ {
            assert(forward_mapping(pairs).contains_key(k));
        } else {
            if forward_mapping(t).contains_key(k) {
                let i = choose|i: int| 0 <= i < t.len() && (#[trigger] t[i]).0@ == k;
                assert(pairs[i].0@ == k);
            }
            if exists|i: int| 0 <= i < pairs.len() && (#[trigger] pairs[i]).0@ == k {
                let i = choose|i: int| 0 <= i < pairs.len() && (#[trigger] pairs[i]).0@ == k;
                assert(t[i] == pairs[i]);
                assert(t[i].0@ == k);
            }
        }
    }
}

/// The columns of the files are read under their physical names, in the order of the
/// logical ones: a column that a pair lists under that of the last such pair, any other
/// under its own. The positions that are read are those that were asked for, the files are
/// those of the tasks, and the store is that of the first file.
pub proof fn files_are_read_by_physical_names(
    f: FileScan,
    c: DeltaScanCommon,
    tasks: Seq<DeltaScanTask>,
    files: Seq<PartitionedFileState>,
)
    requires
        is_file_scan(f, c, tasks, files),
    ensures
        f.data_schema@.len() == c.data_schema@.len(),
        forall|i: int, k: int|
            0 <= i < c.data_schema@.len() && 0 <= k < c.column_mappings@.len()
                && c.column_mappings@[k].0@ == c.data_schema@[i]@ && (forall|j: int|
                k < j < c.column_mappings@.len() ==> (#[trigger] c.column_mappings@[j]).0@
                    != c.data_schema@[i]@) ==> (#[trigger] f.data_schema@[i])@ == (
            #[trigger] c.column_mappings@[k]).1@,
        forall|i: int|
            0 <= i < c.data_schema@.len() && (forall|j: int|
                0 <= j < c.column_mappings@.len() ==> (#[trigger] c.column_mappings@[j]).0@
                    != c.data_schema@[i]@) ==> (#[trigger] f.data_schema@[i])@
                == c.data_schema@[i]@,
        f.projection@.len() == c.projection_vector@.len(),
        forall|i: int|
            0 <= i < f.projection@.len() && 0 <= c.projection_vector@[i] <= usize::MAX
                ==> #[trigger] f.projection@[i] == c.projection_vector@[i],
        f.files@.len() == files.len(),
        url_parse(tasks[0].file_path@) matches Ok(u) && f.store_url@ == u.0,
{
    let pairs = c.column_mappings@;
    assert(f.files@.len() == file_views(f.files@).len());
    assert forall|i: int, k: int|
        0 <= i < c.data_schema@.len() && 0 <= k < pairs.len() && pairs[k].0@ == c.data_schema@[i]@
            && (forall|j: int|
            k < j < pairs.len() ==> (#[trigger] pairs[j]).0@
                != c.data_schema@[i]@) implies (#[trigger] f.data_schema@[i])@ == (
    #[trigger] pairs[k]).1@ by {
        every_pair_maps_its_logical_name(pairs, k);
    }
    assert forall|i: int|
        0 <= i < c.data_schema@.len() && (forall|j: int|
            0 <= j < pairs.len() ==> (#[trigger] pairs[j]).0@
                != c.data_schema@[i]@) implies (#[trigger] f.data_schema@[i])@
        == c.data_schema@[i]@ by {
        only_listed_logical_names_are_mapped(pairs, c.data_schema@[i]@);
    }
}

/// The files of a plan are those of the tasks, one for each and in their order, each made
/// from its own task by the session's time zone.
pub proof fn a_plan_reads_the_files_of_its_tasks(
    f: FileScan,
    c: DeltaScanCommon,
    tasks: Seq<DeltaScanTask>,
    files: Seq<PartitionedFileState>,
)
    requires
        is_file_scan(f, c, tasks, files),
        scan_outcome(c, tasks) == Made::Done(files),
    ensures
        f.files@.len() == tasks.len(),
        forall|i: int|
            0 <= i < tasks.len() ==> file_outcome(
                tasks[i],
                c.partition_schema@,
                timezone_of(c.session_timezone@),
                c.session_timezone@,
            ) == Made::Done((#[trigger] f.files@[i])@),
{
    let tz = timezone_of(c.session_timezone@);
    one_file_per_task(tasks, c.partition_schema@, tz, c.session_timezone@);
    assert forall|i: int| 0 <= i < tasks.len() implies file_outcome(
        tasks[i],
        c.partition_schema@,
        tz,
        c.session_timezone@,
    ) == Made::Done((#[trigger] f.files@[i])@) by {
        assert(file_views(f.files@)[i] == f.files@[i]@);
    }
}

/// Columns that are renamed are as many as are required, and where no two have one name each
/// is given the required name of its position.
pub proof fn columns_are_renamed_to_the_required_names(
    required: Seq<String>,
    read: Seq<String>,
    mapped: bool,
    names: Seq<String>,
)
    requires
        needs_rename(required, read, mapped),
        names.len() == read.len(),
        forall|i: int|
            0 <= i < names.len() ==> (#[trigger] names[i])@ == required[last_named(
                read,
                read[i]@,
                read.len() as int,
            )]@,
        forall|j: int, k: int|
            0 <= j < k < read.len() ==> (#[trigger] read[j])@ != (#[trigger] read[k])@,
    ensures
        mapped,
        names.len() == required.len(),
        forall|i: int| 0 <= i < names.len() ==> (#[trigger] names[i])@ == required[i]@,
        exists|i: int| 0 <= i < read.len() && (#[trigger] required[i])@ != read[i]@,
{
    assert forall|i: int| 0 <= i < names.len() implies (#[trigger] names[i])@ == required[i]@ by {
        renaming_is_by_position(required, read, i);
    }
}

/// Columns are renamed exactly where names are mapped, there are as many as are required,
/// and some name is another.
pub proof fn columns_are_renamed_only_where_a_name_differs(
    required: Seq<String>,
    read: Seq<String>,
    mapped: bool,
)
    ensures
        !mapped ==> !needs_rename(required, read, mapped),
        required.len() != read.len() ==> !needs_rename(required, read, mapped),
        (forall|i: int| 0 <= i < read.len() ==> (#[trigger] required[i])@ == read[i]@)
            ==> !needs_rename(required, read, mapped),
        mapped && required.len() == read.len() && (exists|i: int|
            0 <= i < read.len() && (#[trigger] required[i])@ != read[i]@) ==> needs_rename(
            required,
            read,
            mapped,
        ),
{
}

/// A column of a filter is found at the first position that has its physical name, and at
/// one position only.
pub proof fn a_filter_names_the_first_column_of_its_name(
    names: Seq<String>,
    name: Seq<char>,
    i: int,
    j: int,
)
    requires
        first_named(names, name, i),
        0 <= j < names.len(),
        names[j]@ == name,
    ensures
        0 <= i <= j,
        names[i]@ == name,
{
}

} // verus!
