use vstd::prelude::*;

use super::metadata::{FileMetadata, FileRecord};
use crate::utils::file_lister::{ascends_strictly, is_record_set};

verus! {

/// The mathematical value of a [`Snapshot`].
pub struct SnapshotView {
    pub root: Seq<char>,
    pub timestamp: i64,
    pub git_commit_hash: Option<Seq<char>>,
    pub files: Seq<FileRecord>,
}

/// Represents a single snapshot of a directory at a point of time
///
/// A snapshot is well formed when its files are sorted by path and no path
/// occurs twice. The two ways to make one, from a scanned tree and from a
/// commit, establish this for files that come under distinct paths.
#[derive(Debug)]
pub struct Snapshot {
    /// Root directory being observed, canonical and absolute
    pub root: String,
    /// When the snapshot was taken, in seconds since the Unix epoch
    pub timestamp: i64,
    /// The Git commit hash this snapshot corresponds to (if applicable)
    pub git_commit_hash: Option<String>,
    /// Files discovered in the snapshot
    pub files: Vec<FileMetadata>,
}

impl View for Snapshot {
    type V = SnapshotView;

    open spec fn view(&self) -> SnapshotView {
        SnapshotView {
            root: self.root@,
            timestamp: self.timestamp,
            git_commit_hash: self.git_commit_hash.deep_view(),
            files: self.files.deep_view(),
        }
    }
}

impl SnapshotView {
    /// Whether the files form a record set: sorted by path, no path twice.
    pub open spec fn is_well_formed(self) -> bool {
        ascends_strictly(self.files)
    }
}

impl Snapshot {
    /// Decides whether the files of the snapshot form a record set.
    pub fn is_well_formed(&self) -> (yes: bool)
        ensures
            yes == self@.is_well_formed(),
    {
        is_record_set(self.files.as_slice())
    }
}

} // verus!
