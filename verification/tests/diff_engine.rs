use chronicle::database::compute_diff;
use chronicle::engine::diff::diff_snapshots;
use chronicle::models::FileMetadata;

fn file(path: &str, bytes: u64, hash: Option<&str>) -> FileMetadata {
    FileMetadata {
        path: path.to_string(),
        bytes,
        modified_at: None,
        created_at: None,
        accessed_at: None,
        content_hash: hash.map(|h| h.to_string()),
    }
}

#[test]
fn test_compute_diff_no_previous_snapshot() {
    let files = vec![file("file1.txt", 123, Some("hash1"))];

    let diff = compute_diff(None, &files);

    assert_eq!(diff.added, vec!["file1.txt"]);
    assert!(diff.removed.is_empty());
    assert!(diff.modified.is_empty());
}

#[test]
fn test_compute_diff_no_changes() {
    let files = vec![file("file1.txt", 123, Some("hash1"))];
    let stored = vec![file("file1.txt", 123, Some("hash1"))];

    let diff = compute_diff(Some(&stored), &files);

    assert!(diff.is_empty());
}

#[test]
fn test_compute_diff_added_file() {
    let initial_files: Vec<FileMetadata> = vec![];
    let new_files = vec![file("file1.txt", 123, Some("hash1"))];

    let diff = compute_diff(Some(&initial_files), &new_files);

    assert_eq!(diff.added, vec!["file1.txt"]);
    assert!(diff.removed.is_empty());
    assert!(diff.modified.is_empty());
}

#[test]
fn test_compute_diff_removed_file() {
    let initial_files = vec![file("file1.txt", 123, Some("hash1"))];
    let new_files: Vec<FileMetadata> = vec![];

    let diff = compute_diff(Some(&initial_files), &new_files);

    assert!(diff.added.is_empty());
    assert_eq!(diff.removed, vec!["file1.txt"]);
    assert!(diff.modified.is_empty());
}

#[test]
fn test_compute_diff_modified_file() {
    let initial_files = vec![file("file1.txt", 123, Some("hash1"))];
    let new_files = vec![file("file1.txt", 123, Some("hash2"))];

    let diff = compute_diff(Some(&initial_files), &new_files);

    assert!(diff.added.is_empty());
    assert!(diff.removed.is_empty());
    assert_eq!(diff.modified, vec!["file1.txt"]);
}

#[test]
fn test_compute_diff_mixed() {
    let initial_files = vec![
        file("file_to_keep.txt", 123, Some("hash1")),
        file("file_to_modify.txt", 456, Some("hash2")),
        file("file_to_remove.txt", 789, Some("hash3")),
    ];
    let new_files = vec![
        file("file_to_keep.txt", 123, Some("hash1")),
        file("file_to_modify.txt", 456, Some("new_hash")),
        file("file_to_add.txt", 999, Some("hash4")),
    ];

    let diff = compute_diff(Some(&initial_files), &new_files);

    assert_eq!(diff.added, vec!["file_to_add.txt"]);
    assert_eq!(diff.removed, vec!["file_to_remove.txt"]);
    assert_eq!(diff.modified, vec!["file_to_modify.txt"]);
}

#[test]
fn first_snapshot_reports_every_path_as_added() {
    let files = vec![
        file("a.txt", 1, Some("x")),
        file("b/c.txt", 2, None),
        file("d.txt", 3, Some("y")),
    ];
    let diff = compute_diff(None, &files);
    assert_eq!(diff.added, vec!["a.txt", "b/c.txt", "d.txt"]);
    assert!(diff.removed.is_empty());
    assert!(diff.modified.is_empty());
}

#[test]
fn diff_of_a_record_set_with_itself_is_empty() {
    let files = vec![file("a.txt", 1, Some("x")), file("b.txt", 2, None)];
    assert!(diff_snapshots(&files, &files).is_empty());
}

#[test]
fn diff_of_two_empty_sets_is_empty() {
    let none: Vec<FileMetadata> = vec![];
    let diff = diff_snapshots(&none, &none);
    assert!(diff.is_empty());
    assert!(diff.added.is_empty() && diff.removed.is_empty() && diff.modified.is_empty());
}

#[test]
fn snapshot_against_working_tree_example() {
    let snapshot = vec![file("a.txt", 1, Some("hashA")), file("b.txt", 1, Some("hashB"))];
    let working_tree = vec![file("a.txt", 1, Some("hashA")), file("c.txt", 1, Some("hashC"))];

    let diff = diff_snapshots(&snapshot, &working_tree);

    assert_eq!(diff.added, vec!["c.txt"]);
    assert_eq!(diff.removed, vec!["b.txt"]);
    assert!(diff.modified.is_empty());
}

#[test]
fn an_absent_hash_differs_from_any_hash_but_not_from_itself() {
    let before = vec![file("a", 1, None), file("b", 1, None), file("c", 1, Some("h"))];
    let after = vec![file("a", 1, Some("h")), file("b", 1, None), file("c", 1, None)];

    let diff = diff_snapshots(&before, &after);

    assert!(diff.added.is_empty());
    assert!(diff.removed.is_empty());
    assert_eq!(diff.modified, vec!["a", "c"]);
}

#[test]
fn a_rename_is_a_removal_and_an_addition() {
    let before = vec![file("old.txt", 1, Some("h"))];
    let after = vec![file("new.txt", 1, Some("h"))];

    let diff = diff_snapshots(&before, &after);

    assert_eq!(diff.added, vec!["new.txt"]);
    assert_eq!(diff.removed, vec!["old.txt"]);
    assert!(diff.modified.is_empty());
}

#[test]
fn the_three_lists_share_no_path() {
    let before = vec![
        file("keep", 1, Some("1")),
        file("change", 1, Some("2")),
        file("drop", 1, Some("3")),
        file("drop2", 1, None),
    ];
    let after = vec![
        file("new", 1, Some("4")),
        file("change", 1, Some("5")),
        file("keep", 1, Some("1")),
    ];
    let diff = diff_snapshots(&before, &after);
    assert_eq!(diff.added, vec!["new"]);
    assert_eq!(diff.removed, vec!["drop", "drop2"]);
    assert_eq!(diff.modified, vec!["change"]);
    for p in &diff.added {
        assert!(!diff.removed.contains(p) && !diff.modified.contains(p));
    }
    for p in &diff.removed {
        assert!(!diff.modified.contains(p));
    }
}

#[test]
fn a_path_given_twice_counts_once_with_its_last_hash() {
    let before = vec![file("a", 1, Some("1")), file("a", 1, Some("2"))];
    let after = vec![file("a", 1, Some("2")), file("b", 1, None), file("b", 1, None)];

    let diff = diff_snapshots(&before, &after);

    assert_eq!(diff.added, vec!["b"]);
    assert!(diff.removed.is_empty());
    assert!(diff.modified.is_empty());
}

#[test]
fn timestamps_and_sizes_do_not_count_as_changes() {
    let before = vec![file("a", 1, Some("h"))];
    let mut later = file("a", 2, Some("h"));
    later.modified_at = Some(5);
    let diff = diff_snapshots(&before, &[later]);
    assert!(diff.is_empty());
}

fn sample(seed: u64, count: usize) -> Vec<FileMetadata> {
    let mut x = seed;
    let mut files = Vec::new();
    for _ in 0..count {
        x = x.wrapping_mul(6364136223846793005).wrapping_add(1442695040888963407);
        let path = format!("d{}/f{}", (x >> 33) % 5, (x >> 40) % 23);
        let hash = match (x >> 50) % 4 {
            0 => None,
            h => Some(format!("h{}", h)),
        };
        files.push(FileMetadata {
            path,
            bytes: 1,
            modified_at: None,
            created_at: None,
            accessed_at: None,
            content_hash: hash,
        });
    }
    files
}

fn index(files: &[FileMetadata]) -> std::collections::HashMap<String, Option<String>> {
    files.iter().map(|f| (f.path.clone(), f.content_hash.clone())).collect()
}

fn in_order_of(files: &[FileMetadata], keep: impl Fn(&str) -> bool) -> Vec<String> {
    let mut listed: Vec<String> = Vec::new();
    for f in files {
        if keep(&f.path) && !listed.contains(&f.path) {
            listed.push(f.path.clone());
        }
    }
    listed
}

#[test]
fn large_record_sets_are_compared_as_maps_from_path_to_hash() {
    for round in 0..20u64 {
        let before = sample(round * 2 + 1, 60 + round as usize);
        let after = sample(round * 2 + 2, 80 - round as usize);
        let old = index(&before);
        let new = index(&after);

        let diff = diff_snapshots(&before, &after);

        assert_eq!(
            diff.added,
            in_order_of(&after, |p| new.contains_key(p) && !old.contains_key(p))
        );
        assert_eq!(
            diff.removed,
            in_order_of(&before, |p| old.contains_key(p) && !new.contains_key(p))
        );
        assert_eq!(
            diff.modified,
            in_order_of(&before, |p| match (old.get(p), new.get(p)) {
                (Some(a), Some(b)) => a != b,
                _ => false,
            })
        );
    }
}
