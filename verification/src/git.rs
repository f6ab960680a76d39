//! Changed-file records produced by the version-control diff collaborator.
//! The diff itself is computed outside the library; only the data model
//! and its formatting codes live here.

use vstd::prelude::*;

verus! {

/// How a file changed between the base reference and the working tree.
#[derive(Clone, Copy, Debug, PartialEq, Eq, Structural)]
pub enum ChangeType {
    Added,
    Modified,
    Deleted,
    Renamed,
}

impl ChangeType {
    /// The single-letter code used when a change is shown.
    pub open spec fn code_spec(self) -> Seq<char> {
        match self {
            ChangeType::Added => "A"@,
            ChangeType::Modified => "M"@,
            ChangeType::Deleted => "D"@,
            ChangeType::Renamed => "R"@,
        }
    }

    pub fn code(&self) -> (r: &'static str)
        ensures
            r@ == self.code_spec(),
    {
        match self {
            ChangeType::Added => "A",
            ChangeType::Modified => "M",
            ChangeType::Deleted => "D",
            ChangeType::Renamed => "R",
        }
    }
}

/// One file of the diff: its absolute path and how it changed.
#[derive(Clone, Debug)]
pub struct ChangedFile {
    pub path: String,
    pub change_type: ChangeType,
}

impl ChangedFile {
    pub fn new(path: String, change_type: ChangeType) -> (r: ChangedFile)
        ensures
            r.path == path,
            r.change_type == change_type,
    {
        ChangedFile { path, change_type }
    }
}

} // verus!
