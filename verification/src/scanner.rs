//! Scanner configuration: which directory names and file-name suffixes
//! are skipped when source files are enumerated. The directory walk
//! itself is I/O and happens outside the library; the skip decisions are
//! made here.

use vstd::prelude::*;
use crate::strutil::{is_suffix, str_eq, str_ends_with};

verus! {

/// The skip configuration applied recursively while scanning.
pub struct Scanner {
    pub skip_directories: Vec<&'static str>,
    pub skip_file_suffixes: Vec<&'static str>,
}

impl Scanner {
    /// The default configuration: test, mock and generated-content
    /// directories and file suffixes are left out of the scan.
    pub fn new() -> (r: Scanner)
        ensures
            r.skip_directories@.len() == 6,
            r.skip_directories@[0]@ == "mocks"@,
            r.skip_directories@[1]@ == "__mocks__"@,
            r.skip_directories@[2]@ == "mocks_stubs"@,
            r.skip_directories@[3]@ == "tests"@,
            r.skip_directories@[4]@ == "environments"@,
            r.skip_directories@[5]@ == "i18n"@,
            r.skip_file_suffixes@.len() == 6,
            r.skip_file_suffixes@[0]@ == ".spec.ts"@,
            r.skip_file_suffixes@[1]@ == ".d.ts"@,
            r.skip_file_suffixes@[2]@ == ".stories.ts"@,
            r.skip_file_suffixes@[3]@ == "-stub.ts"@,
            r.skip_file_suffixes@[4]@ == "mocks.ts"@,
            r.skip_file_suffixes@[5]@ == "mock.ts"@,
    {
        let mut skip_directories: Vec<&'static str> = Vec::new();
        skip_directories.push("mocks");
        skip_directories.push("__mocks__");
        skip_directories.push("mocks_stubs");
        skip_directories.push("tests");
        skip_directories.push("environments");
        skip_directories.push("i18n");
        let mut skip_file_suffixes: Vec<&'static str> = Vec::new();
        skip_file_suffixes.push(".spec.ts");
        skip_file_suffixes.push(".d.ts");
        skip_file_suffixes.push(".stories.ts");
        skip_file_suffixes.push("-stub.ts");
        skip_file_suffixes.push("mocks.ts");
        skip_file_suffixes.push("mock.ts");
        Scanner { skip_directories, skip_file_suffixes }
    }

    /// A directory is skipped exactly when its name is one of the
    /// configured directory names.
    pub fn should_skip_directory(&self, dir_name: &str) -> (r: bool)
        ensures
            r == exists|i: int|
                0 <= i < self.skip_directories@.len() && (#[trigger] self.skip_directories@[i])@
                    == dir_name@,
    {
        let mut i: usize = 0;
        while i < self.skip_directories.len()
            invariant
                i <= self.skip_directories@.len(),
                forall|j: int|
                    0 <= j < i ==> (#[trigger] self.skip_directories@[j])@ != dir_name@,
            decreases self.skip_directories@.len() - i,
        {
            if str_eq(self.skip_directories[i], dir_name) {
                return true;
            }
            i += 1;
        }
        false
    }

    /// A file is skipped exactly when its name ends in one of the
    /// configured suffixes.
    pub fn should_skip_file(&self, file_name: &str) -> (r: bool)
        ensures
            r == exists|i: int|
                0 <= i < self.skip_file_suffixes@.len() && is_suffix(
                    (#[trigger] self.skip_file_suffixes@[i])@,
                    file_name@,
                ),
    {
        let mut i: usize = 0;
        while i < self.skip_file_suffixes.len()
            invariant
                i <= self.skip_file_suffixes@.len(),
                forall|j: int|
                    0 <= j < i ==> !is_suffix((#[trigger] self.skip_file_suffixes@[j])@, file_name@),
            decreases self.skip_file_suffixes@.len() - i,
        {
            if str_ends_with(file_name, self.skip_file_suffixes[i]) {
                return true;
            }
            i += 1;
        }
        false
    }
}

} // verus!
