use vstd::prelude::*;

use crate::models::Snapshot;
use crate::utils::file_lister::{
    has_unique_paths, list_files_with_metadata, records_of, sorted_by_path, WalkEntry,
};
use crate::utils::ranking::is_sorted_copy;

verus! {

/// How the state of a directory is recorded.
#[derive(Clone, Copy, Debug, PartialEq, Eq, Structural)]
pub enum SnapshotPlan {
    /// The directory lies in a git repository: its commit history is
    /// imported, up to the current head
    ImportHistory,
    /// The directory is scanned as it is
    ScanTree,
}

/// Chooses how the state of a directory is recorded, given whether a git
/// repository was found at or above it.
pub fn take_snapshot(is_git_repository: bool) -> (plan: SnapshotPlan)
    ensures
        is_git_repository ==> plan == SnapshotPlan::ImportHistory,
        !is_git_repository ==> plan == SnapshotPlan::ScanTree,
{
    if is_git_repository {
        SnapshotPlan::ImportHistory
    } else {
        SnapshotPlan::ScanTree
    }
}

/// Makes the snapshot of a scanned directory tree: the records of its
/// regular files sorted by path, under the canonical root, taken at
/// `captured_at` and from no commit.
pub fn take_snapshot_from_fs(root: &str, captured_at: i64, entries: &[WalkEntry]) -> (snapshot:
    Snapshot)
    ensures
        snapshot@.root == root@,
        snapshot@.timestamp == captured_at,
        snapshot@.git_commit_hash is None,
        is_sorted_copy(records_of(entries.deep_view()), snapshot@.files),
        sorted_by_path(snapshot@.files),
        has_unique_paths(records_of(entries.deep_view())) ==> snapshot@.is_well_formed(),
{
    Snapshot {
        root: root.to_owned(),
        timestamp: captured_at,
        git_commit_hash: None,
        files: list_files_with_metadata(entries),
    }
}

} // verus!
