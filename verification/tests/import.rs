use chronicle::database::SnapshotRow;
use chronicle::engine::git_sync::{
    blob_record, commits_to_import, is_blob_entry, parse_commit_time, record_with_hash,
    snapshot_from_commit, ImportError, TreeEntry, TreeEntryKind, TreeWalk,
};
use chronicle::utils::hashing::hash_content;

fn row(id: i64, root: &str, commit: Option<&str>) -> SnapshotRow {
    SnapshotRow {
        id,
        root: root.to_string(),
        timestamp: id,
        git_commit_hash: commit.map(|c| c.to_string()),
    }
}

fn history(commits: &[&str]) -> Vec<String> {
    commits.iter().map(|c| c.to_string()).collect()
}

#[test]
fn the_time_of_a_commit_is_its_first_token() {
    assert_eq!(parse_commit_time("1700000000 +0100"), Ok(1_700_000_000));
    assert_eq!(parse_commit_time("1700000000"), Ok(1_700_000_000));
    assert_eq!(parse_commit_time("  42\t-0800"), Ok(42));
    assert_eq!(parse_commit_time("\n7 8 9"), Ok(7));
    assert_eq!(parse_commit_time("+15 +0000"), Ok(15));
    assert_eq!(parse_commit_time("0 +0000"), Ok(0));
    assert_eq!(parse_commit_time("12\u{a0}+0000"), Ok(12));
    assert_eq!(parse_commit_time("\u{3000}12\u{2003}x"), Ok(12));
    assert_eq!(parse_commit_time("9223372036854775807 +0000"), Ok(i64::MAX));
}

#[test]
fn a_commit_without_a_time_stops_the_import() {
    assert_eq!(parse_commit_time(""), Err(ImportError::MissingTimestamp));
    assert_eq!(parse_commit_time("   "), Err(ImportError::MissingTimestamp));
    assert_eq!(parse_commit_time("\t\n\u{a0}"), Err(ImportError::MissingTimestamp));
}

#[test]
fn a_commit_with_an_unreadable_time_stops_the_import() {
    assert_eq!(parse_commit_time("yesterday +0100"), Err(ImportError::InvalidTimestamp));
    assert_eq!(parse_commit_time("-5 +0100"), Err(ImportError::InvalidTimestamp));
    assert_eq!(parse_commit_time("17e8 +0100"), Err(ImportError::InvalidTimestamp));
    assert_eq!(parse_commit_time("1700000000+0100"), Err(ImportError::InvalidTimestamp));
    assert_eq!(parse_commit_time("+0100 1700000000"), Ok(100));
    assert_eq!(parse_commit_time("9223372036854775808 +0000"), Err(ImportError::InvalidTimestamp));
    assert_eq!(parse_commit_time("18446744073709551616 +0000"), Err(ImportError::InvalidTimestamp));
    assert_eq!(parse_commit_time("١٢٣ +0000"), Err(ImportError::InvalidTimestamp));
}

#[test]
fn the_first_token_is_found_as_the_standard_library_finds_it() {
    for text in [
        "1 2", " 1 2", "\u{85}3\u{85}", "\u{1680}4", "\u{2028}5\u{2029}", "\u{202f}6\u{205f}",
        "\u{200b}7", "8\u{feff}", "\u{b}9\u{c}", "10\r\n", "\u{1c}11", "x", "", " ",
    ] {
        let expected = text.split_whitespace().next().and_then(|t| t.parse::<u64>().ok());
        assert_eq!(parse_commit_time(text).ok(), expected.map(|t| t as i64), "{:?}", text);
    }
}

#[test]
fn only_blobs_are_files() {
    assert!(is_blob_entry(TreeEntryKind::Blob));
    assert!(is_blob_entry(TreeEntryKind::BlobExecutable));
    assert!(!is_blob_entry(TreeEntryKind::Tree));
    assert!(!is_blob_entry(TreeEntryKind::Link));
    assert!(!is_blob_entry(TreeEntryKind::Commit));
}

#[test]
fn a_blob_is_recorded_with_the_time_of_its_commit() {
    let record = blob_record("src/main.rs", b"fn main() {}", 1_700_000_000);
    assert_eq!(record.path, "src/main.rs");
    assert_eq!(record.bytes, 12);
    assert_eq!(record.modified_at, Some(1_700_000_000));
    assert_eq!(record.created_at, None);
    assert_eq!(record.accessed_at, None);
    assert_eq!(record.content_hash, Some(hash_content(b"fn main() {}")));
    assert_eq!(
        record.content_hash,
        Some(blake3::hash(b"fn main() {}").to_hex().to_string())
    );
}

#[test]
fn a_record_takes_the_hash_that_it_is_given() {
    let record = record_with_hash("a", 3, "abc".to_string(), -7);
    assert_eq!(record.path, "a");
    assert_eq!(record.bytes, 3);
    assert_eq!(record.modified_at, Some(-7));
    assert_eq!(record.created_at, None);
    assert_eq!(record.accessed_at, None);
    assert_eq!(record.content_hash, Some("abc".to_string()));
}

#[test]
fn an_empty_blob_has_the_hash_of_nothing() {
    let record = blob_record("empty", b"", 0);
    assert_eq!(record.bytes, 0);
    assert_eq!(
        record.content_hash,
        Some("af1349b9f5f9a1a6a0404dea36dcc9499bcb25c9adc112b7cc9a93cae41f3262".to_string())
    );
}

#[test]
fn the_snapshot_of_a_commit_carries_its_hash() {
    let records = vec![blob_record("b", b"2", 5), blob_record("a", b"1", 5)];
    let snapshot = snapshot_from_commit("/repo", "abc123", 5, &records);
    assert!(snapshot.is_well_formed());
    assert_eq!(snapshot.root, "/repo");
    assert_eq!(snapshot.timestamp, 5);
    assert_eq!(snapshot.git_commit_hash, Some("abc123".to_string()));
    assert_eq!(snapshot.files.len(), 2);
    assert_eq!(snapshot.files[0].path, "a");
    assert_eq!(snapshot.files[1].path, "b");
    assert_eq!(snapshot.files[0].content_hash, Some(hash_content(b"1")));
}

#[test]
fn commits_that_were_imported_are_passed_over() {
    let rows = vec![row(1, "/repo", Some("c1")), row(2, "/repo", None), row(3, "/other", Some("c2"))];
    let pending = commits_to_import(&rows, "/repo", &history(&["c3", "c2", "c1"]));
    assert_eq!(pending, vec!["c3", "c2"]);
    assert_eq!(commits_to_import(&[], "/repo", &history(&["c2", "c1"])), vec!["c2", "c1"]);
    assert!(commits_to_import(&rows, "/repo", &[]).is_empty());
}

#[test]
fn importing_a_history_twice_imports_nothing_the_second_time() {
    let commits = history(&["c4", "c3", "c2", "c1"]);
    let mut rows = vec![row(1, "/repo", Some("c1"))];
    let first = commits_to_import(&rows, "/repo", &commits);
    assert_eq!(first, vec!["c4", "c3", "c2"]);
    for (i, commit) in first.iter().enumerate() {
        rows.push(row(10 + i as i64, "/repo", Some(commit)));
    }
    let count = rows.len();
    let second = commits_to_import(&rows, "/repo", &commits);
    assert!(second.is_empty());
    assert_eq!(rows.len() + second.len(), count);
}

#[test]
fn a_commit_that_the_history_names_twice_is_imported_once() {
    let pending = commits_to_import(&[], "/repo", &history(&["c1", "c2", "c1"]));
    assert_eq!(pending, vec!["c1", "c2"]);
}

fn entry(name: &str, kind: TreeEntryKind, oid: &str) -> TreeEntry {
    TreeEntry { name: name.to_string(), kind, oid: oid.to_string() }
}

fn tree_of(oid: &str) -> Vec<TreeEntry> {
    match oid {
        "root" => vec![
            entry("README.md", TreeEntryKind::Blob, "b1"),
            entry("docs", TreeEntryKind::Tree, "t-docs"),
            entry("link", TreeEntryKind::Link, "l1"),
            entry("run.sh", TreeEntryKind::BlobExecutable, "b2"),
            entry("src", TreeEntryKind::Tree, "t-src"),
            entry("vendor", TreeEntryKind::Commit, "c1"),
        ],
        "t-docs" => vec![entry("guide.md", TreeEntryKind::Blob, "b3")],
        "t-src" => vec![
            entry("deep", TreeEntryKind::Tree, "t-deep"),
            entry("main.rs", TreeEntryKind::Blob, "b4"),
        ],
        "t-deep" => vec![entry("x", TreeEntryKind::Blob, "b5")],
        _ => vec![],
    }
}

#[test]
fn the_tree_of_a_commit_is_walked_breadth_first() {
    let mut walk = TreeWalk::new("root");
    let mut read = Vec::new();
    while let Some(tree) = walk.next_tree() {
        read.push((tree.path.clone(), tree.oid.clone()));
        walk.visit(&tree, &tree_of(&tree.oid));
    }
    let read: Vec<(&str, &str)> = read.iter().map(|(p, o)| (p.as_str(), o.as_str())).collect();
    assert_eq!(
        read,
        vec![("", "root"), ("docs", "t-docs"), ("src", "t-src"), ("src/deep", "t-deep")]
    );
    let blobs = walk.into_blobs();
    let found: Vec<(&str, &str)> =
        blobs.iter().map(|b| (b.path.as_str(), b.oid.as_str())).collect();
    assert_eq!(
        found,
        vec![
            ("README.md", "b1"),
            ("run.sh", "b2"),
            ("docs/guide.md", "b3"),
            ("src/main.rs", "b4"),
            ("src/deep/x", "b5")
        ]
    );
}

#[test]
fn an_empty_tree_holds_no_blobs() {
    let mut walk = TreeWalk::new("empty");
    let tree = walk.next_tree().unwrap();
    assert_eq!(tree.path, "");
    assert_eq!(tree.oid, "empty");
    walk.visit(&tree, &[]);
    assert!(walk.next_tree().is_none());
    assert!(walk.next_tree().is_none());
    assert!(walk.into_blobs().is_empty());
}
