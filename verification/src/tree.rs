//! A snapshot of a directory hierarchy, as plain values.
//!
//! Whoever reads the file system fills these types in; the walk reads
//! nothing but them. The types are their own model: contracts speak of
//! their fields, and of their strings by the strings' views.

use vstd::prelude::*;

verus! {

/// Why reading a directory or a file's metadata failed.
#[derive(Clone, Copy, Debug, PartialEq, Eq, Structural)]
pub enum IoErrorKind {
    NotFound,
    PermissionDenied,
    NotADirectory,
    Other,
}

/// One directory: the path under which it is shown, and what listing it gave.
pub struct Dir {
    /// The directory's path as it is displayed in front of its children's names.
    pub path: String,
    /// The children that could be read, in the order in which they were read,
    /// or the reason why the directory could not be listed.
    pub listing: Result<Vec<Entry>, IoErrorKind>,
}

/// A child of a directory.
pub struct Entry {
    /// The entry's name, without any path in front of it.
    pub name: String,
    pub node: Node,
}

/// What an entry is.
pub enum Node {
    /// Anything that is not a directory, with what reading its size gave.
    /// The size is looked at only where sizes are shown and the file is.
    File { size: Result<u64, IoErrorKind> },
    /// A directory, with its own listing. The listing is looked at only
    /// where the directory is shown.
    Directory(Dir),
}

impl Entry {
    /// Whether the entry is a directory.
    pub open spec fn is_dir(&self) -> bool {
        self.node is Directory
    }
}

} // verus!
