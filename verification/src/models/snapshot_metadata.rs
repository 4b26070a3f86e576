use vstd::prelude::*;

verus! {

/// The mathematical value of a [`SnapshotMetadata`].
pub struct SnapshotSummary {
    pub id: i64,
    pub root: Seq<char>,
    pub timestamp: i64,
    pub file_count: i64,
    pub total_size: i64,
}

/// Represents the metadata of a snapshot, without the file list
#[derive(Debug)]
pub struct SnapshotMetadata {
    pub id: i64,
    pub root: String,
    /// When the snapshot was taken, in seconds since the Unix epoch
    pub timestamp: i64,
    pub file_count: i64,
    pub total_size: i64,
}

impl View for SnapshotMetadata {
    type V = SnapshotSummary;

    open spec fn view(&self) -> SnapshotSummary {
        SnapshotSummary {
            id: self.id,
            root: self.root@,
            timestamp: self.timestamp,
            file_count: self.file_count,
            total_size: self.total_size,
        }
    }
}

impl DeepView for SnapshotMetadata {
    type V = SnapshotSummary;

    open spec fn deep_view(&self) -> SnapshotSummary {
        self@
    }
}

impl Clone for SnapshotMetadata {
    fn clone(&self) -> (copy: Self)
        ensures
            copy@ == self@,
    {
        SnapshotMetadata {
            id: self.id,
            root: self.root.clone(),
            timestamp: self.timestamp,
            file_count: self.file_count,
            total_size: self.total_size,
        }
    }
}

} // verus!
