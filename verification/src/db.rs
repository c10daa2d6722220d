//! The handle to a database on disk. The storage engine itself is an
//! external collaborator: creating the directory and everything beyond it
//! happens outside the library, which only carries the path.

use vstd::prelude::*;

verus! {

/// A handle to a database rooted at a directory on disk.
pub struct DB {
    path: String,
}

impl DB {
    /// The directory this database lives in.
    pub closed spec fn spec_path(&self) -> Seq<char> {
        self.path@
    }

    /// Wraps the directory a database was created in.
    pub fn from_path(path: String) -> (r: DB)
        ensures
            r.spec_path() == path@,
    {
        DB { path }
    }

    /// The directory this database lives in.
    pub fn path(&self) -> (r: &String)
        ensures
            r@ == self.spec_path(),
    {
        &self.path
    }
}

} // verus!
