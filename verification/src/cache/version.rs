//! Identity and version of a cached file.

use vstd::prelude::*;

verus! {

/// A file as the cache knows it: a store namespace and a path within it.
#[derive(Clone, Debug, PartialEq, Eq, Hash)]
pub struct FileKey {
    pub namespace: u64,
    pub path: String,
}

/// The version of a file that a fetch observed.
#[derive(Clone, Debug, PartialEq, Eq)]
pub struct FileVersion {
    /// Size of the object in bytes.
    pub size: u64,
    /// Entity tag, where the store has one.
    pub e_tag: Option<String>,
    /// Time of the last change, in microseconds since the epoch.
    pub last_modified: Option<i64>,
}

impl FileKey {
    /// The two keys name the same file.
    pub open spec fn same(self, other: FileKey) -> bool {
        self.namespace == other.namespace && self.path@ == other.path@
    }

    /// The file `path` of `namespace`.
    pub fn new(namespace: u64, path: &str) -> (k: FileKey)
        ensures
            k.namespace == namespace,
            k.path@ == path@,
    {
        FileKey { namespace, path: path.to_owned() }
    }

    /// Whether the two keys name the same file.
    pub fn same_as(&self, other: &FileKey) -> (r: bool)
        ensures
            r == self.same(*other),
    {
        self.namespace == other.namespace && self.path == other.path
    }

    /// An independent copy of the key.
    pub fn duplicate(&self) -> (k: FileKey)
        ensures
            k == *self,
    {
        FileKey { namespace: self.namespace, path: self.path.clone() }
    }
}

impl Default for FileVersion {
    fn default() -> (v: FileVersion)
        ensures
            v.size == 0,
            v.e_tag is None,
            v.last_modified is None,
    {
        FileVersion { size: 0, e_tag: None, last_modified: None }
    }
}

/// The two texts are both absent or equal.
pub open spec fn same_text(a: Option<String>, b: Option<String>) -> bool {
    match (a, b) {
        (Some(x), Some(y)) => x@ == y@,
        (None, None) => true,
        _ => false,
    }
}

impl FileVersion {
    /// The two versions agree in size, entity tag and time of last change.
    pub open spec fn agrees(self, other: FileVersion) -> bool {
        &&& self.size == other.size
        &&& same_text(self.e_tag, other.e_tag)
        &&& self.last_modified == other.last_modified
    }

    /// Whether the two versions agree.
    pub fn matches(&self, other: &FileVersion) -> (r: bool)
        ensures
            r == self.agrees(*other),
    {
        let tags: bool = match (&self.e_tag, &other.e_tag) {
            (Some(x), Some(y)) => *x == *y,
            (None, None) => true,
            _ => false,
        };
        let times: bool = match (self.last_modified, other.last_modified) {
            (Some(x), Some(y)) => x == y,
            (None, None) => true,
            _ => false,
        };
        self.size == other.size && tags && times
    }

    /// An independent copy of the version.
    pub fn duplicate(&self) -> (v: FileVersion)
        ensures
            v == *self,
    {
        FileVersion {
            size: self.size,
            e_tag: match &self.e_tag {
                Some(t) => Some(t.clone()),
                None => None,
            },
            last_modified: self.last_modified,
        }
    }
}

/// Agreement of versions is an equivalence, so a file is reported changed
/// exactly when its version differs from the one captured before.
pub proof fn version_agreement_is_an_equivalence(a: FileVersion, b: FileVersion, c: FileVersion)
    ensures
        a.agrees(a),
        a.agrees(b) == b.agrees(a),
        a.agrees(b) && b.agrees(c) ==> a.agrees(c),
{
}

/// A change of the size, of the entity tag or of the time of last change is each enough for a
/// version to be another, and versions without such a change agree.
pub proof fn any_change_makes_another_version(a: FileVersion, b: FileVersion)
    ensures
        a.size != b.size ==> !a.agrees(b),
        a.last_modified != b.last_modified ==> !a.agrees(b),
        a.e_tag is Some != b.e_tag is Some ==> !a.agrees(b),
        a.e_tag matches Some(x) ==> (b.e_tag matches Some(y) ==> (x@ != y@ ==> !a.agrees(b))),
        a.size == b.size && a.last_modified == b.last_modified && (a.e_tag matches Some(x)
            && (b.e_tag matches Some(y) && x@ == y@)) ==> a.agrees(b),
        a.size == b.size && a.last_modified == b.last_modified && a.e_tag is None
            && b.e_tag is None ==> a.agrees(b),
{
}

/// Keys name the same file exactly where they have the same namespace and path.
pub proof fn a_file_has_a_namespace_and_a_path(a: FileKey, b: FileKey)
    ensures
        a.namespace != b.namespace ==> !a.same(b),
        a.path@ != b.path@ ==> !a.same(b),
        a.namespace == b.namespace && a.path@ == b.path@ ==> a.same(b),
{
}

} // verus!
