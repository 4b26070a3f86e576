use vstd::prelude::*;

use crate::engine::diff::{diff_of, diff_snapshots, paths_of};
use crate::models::{Diff, DiffView, FileMetadata, FileRecord};

verus! {

/// What a scan changed, given the files of the newest stored snapshot of its
/// root. Without a stored snapshot there is nothing to compare with: every
/// path of the scan counts as added.
pub open spec fn diff_against(previous: Option<Seq<FileRecord>>, files: Seq<FileRecord>) -> DiffView {
    match previous {
        Some(stored) => diff_of(stored, files),
        None => (DiffView { added: paths_of(files), removed: Seq::empty(), modified: Seq::empty() }),
    }
}

/// The paths of `files`, in order.
fn all_paths(files: &[FileMetadata]) -> (paths: Vec<String>)
    ensures
        paths.deep_view() == paths_of(files.deep_view()),
{
    let mut paths: Vec<String> = Vec::new();
    let mut i: usize = 0;
    while i < files.len()
        invariant
            i <= files.len(),
            paths.deep_view() == paths_of(files.deep_view()).take(i as int),
        decreases files.len() - i,
    {
        let ghost earlier = paths.deep_view();
        paths.push(files[i].path.clone());
        assert(paths.deep_view() =~= earlier.push(files[i as int].path@));
        i += 1;
    }
    assert(paths_of(files.deep_view()).take(i as int) =~= paths_of(files.deep_view()));
    paths
}

/// Compares the files of a fresh scan with the files of the newest stored
/// snapshot of the same root, `None` where the root has no snapshot yet.
pub fn compute_diff(previous: Option<&Vec<FileMetadata>>, files: &[FileMetadata]) -> (diff: Diff)
    ensures
        diff@ == diff_against(previous.deep_view(), files.deep_view()),
        previous is None ==> diff@.added == paths_of(files.deep_view()) && diff@.removed.len() == 0
            && diff@.modified.len() == 0,
{
    match previous {
        Some(stored) => diff_snapshots(stored.as_slice(), files),
        None => {
            let diff = Diff { added: all_paths(files), removed: Vec::new(), modified: Vec::new() };
            assert(diff@.removed =~= Seq::empty());
            assert(diff@.modified =~= Seq::empty());
            diff
        },
    }
}

} // verus!
