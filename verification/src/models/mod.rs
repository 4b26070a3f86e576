//! The data model: file records, snapshots, diffs and tables.

pub mod diff;
pub mod metadata;
pub mod snapshot;
pub mod snapshot_metadata;
pub mod table;

pub use diff::{Diff, DiffView};
pub use metadata::{FileMetadata, FileRecord};
pub use snapshot::{Snapshot, SnapshotView};
pub use snapshot_metadata::{SnapshotMetadata, SnapshotSummary};
pub use table::{Table, TableView};
