//! The rules of the snapshot store, stated over rows that the caller has
//! read from, or is about to write to, its two tables.

pub mod compute_diff;
pub mod insert_snapshot;
pub mod query;

pub use compute_diff::{compute_diff, diff_against};
pub use insert_snapshot::{
    file_row, file_rows, get_files_for_snapshot, store_snapshot, FileRow, FileRowView, StorePlan,
};
pub use query::{
    get_latest_snapshot_id, get_penultimate_snapshot_id, has_history, has_snapshot, is_imported,
    is_latest_id, is_penultimate_id, list_snapshots_for_root, snapshot_exists, SnapshotRow,
    SnapshotRowView,
};
