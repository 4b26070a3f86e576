use chronicle::database::insert_snapshot::{file_row, file_rows, get_files_for_snapshot, FileRow};
use chronicle::database::{
    get_latest_snapshot_id, get_penultimate_snapshot_id, list_snapshots_for_root,
    snapshot_exists, store_snapshot, SnapshotRow,
};
use chronicle::models::{FileMetadata, Snapshot, SnapshotMetadata};
use chronicle::utils::file_lister::is_record_set;

fn row(id: i64, root: &str, timestamp: i64, commit: Option<&str>) -> SnapshotRow {
    SnapshotRow {
        id,
        root: root.to_string(),
        timestamp,
        git_commit_hash: commit.map(|c| c.to_string()),
    }
}

fn summary(id: i64, root: &str, timestamp: i64) -> SnapshotMetadata {
    SnapshotMetadata { id, root: root.to_string(), timestamp, file_count: id * 2, total_size: id * 100 }
}

fn file(path: &str, bytes: u64, hash: Option<&str>) -> FileMetadata {
    FileMetadata {
        path: path.to_string(),
        bytes,
        modified_at: Some(1_700_000_000),
        created_at: Some(-5),
        accessed_at: None,
        content_hash: hash.map(|h| h.to_string()),
    }
}

#[test]
fn the_latest_snapshot_is_the_one_captured_last() {
    let rows = vec![
        row(1, "/a", 30, None),
        row(2, "/a", 10, None),
        row(3, "/b", 99, None),
        row(4, "/a", 20, None),
    ];
    assert_eq!(get_latest_snapshot_id(&rows, "/a"), Some(1));
    assert_eq!(get_penultimate_snapshot_id(&rows, "/a"), Some(4));
    assert_eq!(get_latest_snapshot_id(&rows, "/b"), Some(3));
    assert_eq!(get_penultimate_snapshot_id(&rows, "/b"), None);
    assert_eq!(get_latest_snapshot_id(&rows, "/c"), None);
    assert_eq!(get_penultimate_snapshot_id(&rows, "/c"), None);
    assert_eq!(get_latest_snapshot_id(&[], "/a"), None);
}

#[test]
fn ties_in_time_are_broken_by_the_highest_id() {
    let rows = vec![row(7, "/a", 50, None), row(9, "/a", 50, None), row(8, "/a", 50, None)];
    assert_eq!(get_latest_snapshot_id(&rows, "/a"), Some(9));
    assert_eq!(get_penultimate_snapshot_id(&rows, "/a"), Some(8));
}

#[test]
fn a_commit_exists_once_a_snapshot_of_the_root_came_from_it() {
    let rows = vec![
        row(1, "/a", 1, Some("c1")),
        row(2, "/a", 2, None),
        row(3, "/b", 3, Some("c2")),
    ];
    assert!(snapshot_exists(&rows, "/a", "c1"));
    assert!(!snapshot_exists(&rows, "/a", "c2"));
    assert!(snapshot_exists(&rows, "/b", "c2"));
    assert!(!snapshot_exists(&rows, "/b", "c1"));
    assert!(!snapshot_exists(&rows, "/a", ""));
    assert!(!snapshot_exists(&[], "/a", "c1"));
}

#[test]
fn snapshots_are_listed_newest_first() {
    let rows = vec![
        summary(1, "/a", 10),
        summary(2, "/b", 50),
        summary(3, "/a", 30),
        summary(4, "/a", 20),
        summary(5, "/a", 30),
    ];
    let listed = list_snapshots_for_root(&rows, "/a");
    let ids: Vec<i64> = listed.iter().map(|s| s.id).collect();
    assert_eq!(ids, vec![5, 3, 4, 1]);
    assert_eq!(listed[0].file_count, 10);
    assert_eq!(listed[0].total_size, 500);
    assert_eq!(listed[0].root, "/a");
    assert_eq!(listed[3].timestamp, 10);
    assert!(list_snapshots_for_root(&rows, "/none").is_empty());
    assert_eq!(list_snapshots_for_root(&rows, "/b").len(), 1);
}

#[test]
fn a_record_is_written_as_a_row() {
    let row = file_row(&file("a/b.txt", 42, Some("h")));
    assert_eq!(row.path, "a/b.txt");
    assert_eq!(row.bytes, 42);
    assert_eq!(row.modified_at, Some(1_700_000_000));
    assert_eq!(row.created_at, None);
    assert_eq!(row.accessed_at, None);
    assert_eq!(row.content_hash, Some("h".to_string()));
}

#[test]
fn a_length_is_kept_as_the_same_bits() {
    assert_eq!(file_row(&file("a", 0, None)).bytes, 0);
    assert_eq!(file_row(&file("a", i64::MAX as u64, None)).bytes, i64::MAX);
    assert_eq!(file_row(&file("a", i64::MAX as u64 + 1, None)).bytes, i64::MIN);
    assert_eq!(file_row(&file("a", u64::MAX, None)).bytes, -1);
    for bytes in [0u64, 1, 1 << 40, i64::MAX as u64, (1 << 63) + 5, u64::MAX] {
        let row = file_row(&file("a", bytes, None));
        assert_eq!(row.bytes, bytes as i64);
        assert_eq!(FileMetadata::from_row(&row).bytes, bytes);
    }
}

#[test]
fn a_row_is_read_as_a_record() {
    let row = FileRow {
        path: "x".to_string(),
        bytes: -2,
        modified_at: Some(5),
        created_at: None,
        accessed_at: Some(7),
        content_hash: None,
    };
    let record = FileMetadata::from_row(&row);
    assert_eq!(record.path, "x");
    assert_eq!(record.bytes, u64::MAX - 1);
    assert_eq!(record.modified_at, Some(5));
    assert_eq!(record.created_at, None);
    assert_eq!(record.accessed_at, Some(7));
    assert_eq!(record.content_hash, None);
}

#[test]
fn the_rows_of_a_snapshot_come_in_the_order_of_its_files() {
    let snapshot = Snapshot {
        root: "/tmp".to_string(),
        timestamp: 1,
        git_commit_hash: None,
        files: vec![file("file1.txt", 123, Some("hash1")), file("file2.txt", 456, Some("hash2"))],
    };
    let rows = file_rows(&snapshot);
    assert_eq!(rows.len(), 2);
    assert_eq!(rows[0].path, "file1.txt");
    assert_eq!(rows[0].bytes, 123);
    assert_eq!(rows[1].path, "file2.txt");
    assert_eq!(rows[1].content_hash, Some("hash2".to_string()));
    let back = get_files_for_snapshot(&rows);
    assert_eq!(back.len(), 2);
    assert_eq!(back[1].bytes, 456);
    assert_eq!(back[0].content_hash, Some("hash1".to_string()));
    assert_eq!(back[0].created_at, None);
}

#[test]
fn a_snapshot_that_changed_nothing_is_not_stored() {
    let stored = vec![file("a", 1, Some("h"))];
    let snapshot = Snapshot {
        root: "/tmp".to_string(),
        timestamp: 9,
        git_commit_hash: None,
        files: vec![file("a", 1, Some("h"))],
    };
    let plan = store_snapshot(Some(&stored), &snapshot);
    assert!(!plan.store);
    assert!(plan.diff.is_empty());
    assert!(plan.summary.is_empty());
}

#[test]
fn the_first_snapshot_is_stored_with_all_its_files_added() {
    let snapshot = Snapshot {
        root: "/tmp".to_string(),
        timestamp: 9,
        git_commit_hash: None,
        files: vec![file("file1.txt", 11, Some("h1")), file("file2.txt", 12, Some("h2"))],
    };
    let plan = store_snapshot(None, &snapshot);
    assert!(plan.store);
    assert_eq!(plan.diff.added, vec!["file1.txt", "file2.txt"]);
    assert_eq!(plan.summary, vec!["Snapshot detected changes:", "  + 2 added files"]);
}

#[test]
fn an_empty_first_snapshot_is_not_stored() {
    let snapshot =
        Snapshot { root: "/tmp".to_string(), timestamp: 9, git_commit_hash: None, files: vec![] };
    let plan = store_snapshot(None, &snapshot);
    assert!(!plan.store);
    assert!(plan.summary.is_empty());
}

#[test]
fn the_summary_counts_each_kind_of_change() {
    let stored = vec![file("keep", 1, Some("1")), file("change", 1, Some("2")), file("drop", 1, None)];
    let snapshot = Snapshot {
        root: "/tmp".to_string(),
        timestamp: 9,
        git_commit_hash: None,
        files: vec![
            file("keep", 1, Some("1")),
            file("change", 1, Some("3")),
            file("new1", 1, None),
            file("new2", 1, None),
        ],
    };
    let plan = store_snapshot(Some(&stored), &snapshot);
    assert!(plan.store);
    assert_eq!(
        plan.summary,
        vec![
            "Snapshot detected changes:",
            "  + 2 added files",
            "  - 1 removed files",
            "  * 1 modified files"
        ]
    );
}

fn stored(path: &str, bytes: i64) -> FileRow {
    FileRow {
        path: path.to_string(),
        bytes,
        modified_at: None,
        created_at: None,
        accessed_at: None,
        content_hash: None,
    }
}

#[test]
fn rows_out_of_path_order_are_read_as_a_sorted_record_set() {
    let rows = vec![stored("b", 2), stored("a", 1)];
    let files = get_files_for_snapshot(&rows);
    let paths: Vec<&str> = files.iter().map(|f| f.path.as_str()).collect();
    assert_eq!(paths, vec!["a", "b"]);
    assert_eq!(files[0].bytes, 1);
    assert_eq!(files[1].bytes, 2);
    assert!(is_record_set(&files));
}

#[test]
fn rows_kept_in_the_order_of_path_components_are_read_in_the_order_of_bytes() {
    let rows = vec![stored("a/x", 1), stored("a-b/x", 2), stored("a.b", 3), stored("a/y", 4)];
    let files = get_files_for_snapshot(&rows);
    let paths: Vec<&str> = files.iter().map(|f| f.path.as_str()).collect();
    assert_eq!(paths, vec!["a-b/x", "a.b", "a/x", "a/y"]);
    let sizes: Vec<u64> = files.iter().map(|f| f.bytes).collect();
    assert_eq!(sizes, vec![2, 3, 1, 4]);
    assert!(is_record_set(&files));
}

#[test]
fn no_rows_are_read_as_no_records() {
    assert!(get_files_for_snapshot(&[]).is_empty());
}

#[test]
fn reading_rows_in_another_order_changes_no_diff() {
    let one = get_files_for_snapshot(&[stored("c", 3), stored("a", 1), stored("b", 2)]);
    let other = get_files_for_snapshot(&[stored("b", 2), stored("c", 3), stored("a", 1)]);
    assert!(chronicle::engine::diff::diff_snapshots(&one, &other).is_empty());
    for (x, y) in one.iter().zip(other.iter()) {
        assert_eq!(x.path, y.path);
        assert_eq!(x.bytes, y.bytes);
    }
}

#[test]
fn a_record_set_has_paths_that_ascend_strictly() {
    assert!(is_record_set(&[]));
    assert!(is_record_set(&[file("a", 1, None)]));
    assert!(is_record_set(&[file("a", 1, None), file("b", 1, None), file("c", 1, None)]));
    assert!(!is_record_set(&[file("b", 1, None), file("a", 1, None)]));
    assert!(!is_record_set(&[file("a", 1, None), file("a", 2, None)]));
    assert!(!is_record_set(&[file("a", 1, None), file("c", 1, None), file("b", 1, None)]));
}

#[test]
fn a_snapshot_is_well_formed_when_its_files_are_a_record_set() {
    let good = Snapshot {
        root: "/tmp".to_string(),
        timestamp: 1,
        git_commit_hash: None,
        files: vec![file("a", 1, None), file("b", 1, None)],
    };
    let unsorted = Snapshot {
        root: "/tmp".to_string(),
        timestamp: 1,
        git_commit_hash: None,
        files: vec![file("b", 1, None), file("a", 1, None)],
    };
    assert!(good.is_well_formed());
    assert!(!unsorted.is_well_formed());
}
