use chronicle::engine::snapshot::{take_snapshot, take_snapshot_from_fs, SnapshotPlan};
use chronicle::models::FileMetadata;
use chronicle::utils::file_lister::{
    list_files_with_metadata, sort_by_path, EntryKind, FileStat, WalkEntry,
};
use chronicle::utils::hashing::{hash_chunks, hash_content, ContentHasher, BUFFER_SIZE};
use chronicle::utils::path_order::sorts_before;

fn file(path: &str, bytes: u64) -> FileMetadata {
    FileMetadata {
        path: path.to_string(),
        bytes,
        modified_at: None,
        created_at: None,
        accessed_at: None,
        content_hash: None,
    }
}

fn entry(path: &str, kind: EntryKind, bytes: Option<u64>, hash: Option<&str>) -> WalkEntry {
    WalkEntry {
        path: path.to_string(),
        kind,
        stat: bytes.map(|b| FileStat {
            bytes: b,
            modified_at: Some(10),
            created_at: None,
            accessed_at: Some(30),
        }),
        content_hash: hash.map(|h| h.to_string()),
    }
}

fn paths(files: &[FileMetadata]) -> Vec<String> {
    files.iter().map(|f| f.path.clone()).collect()
}

#[test]
fn records_are_sorted_by_path() {
    let files =
        vec![file("b.txt", 1), file("a/z.txt", 2), file("a.txt", 3), file("a/b.txt", 4), file("Z", 5)];
    let sorted = sort_by_path(&files);
    assert_eq!(paths(&sorted), vec!["Z", "a.txt", "a/b.txt", "a/z.txt", "b.txt"]);
    assert_eq!(sorted[0].bytes, 5);
    assert_eq!(sorted[3].bytes, 2);
}

#[test]
fn paths_are_ordered_as_the_standard_library_orders_strings() {
    let samples = [
        "", "a", "b", "ab", "a/b", "a.b", "a b", "A", "é", "z", "zz", "日本", "~", "a\u{0}",
        "a/b/c", "a/b.c", "\u{10ffff}", "\u{7f}", "\u{80}", "\u{7ff}", "\u{800}", "\u{ffff}",
        "\u{10000}",
    ];
    for a in samples {
        for b in samples {
            assert_eq!(sorts_before(a, b), a < b, "{:?} {:?}", a, b);
        }
    }
}

#[test]
fn sorting_keeps_records_with_the_same_path_in_their_order() {
    let files = vec![file("b", 1), file("a", 2), file("b", 3), file("a", 4), file("b", 5)];
    let sorted = sort_by_path(&files);
    let sizes: Vec<u64> = sorted.iter().map(|f| f.bytes).collect();
    assert_eq!(paths(&sorted), vec!["a", "a", "b", "b", "b"]);
    assert_eq!(sizes, vec![2, 4, 1, 3, 5]);
}

#[test]
fn sorting_nothing_or_one_record_changes_nothing() {
    assert!(sort_by_path(&[]).is_empty());
    let one = sort_by_path(&[file("only", 7)]);
    assert_eq!(paths(&one), vec!["only"]);
}

#[test]
fn many_records_are_sorted_as_the_standard_library_sorts_them() {
    let mut files = Vec::new();
    let mut x: u32 = 12345;
    for i in 0..500 {
        x = x.wrapping_mul(1103515245).wrapping_add(12345);
        files.push(file(&format!("dir{}/file{}", x % 7, x % 101), i));
    }
    let sorted = sort_by_path(&files);
    let mut expected: Vec<(String, u64)> =
        files.iter().map(|f| (f.path.clone(), f.bytes)).collect();
    expected.sort_by(|a, b| a.0.cmp(&b.0));
    let got: Vec<(String, u64)> = sorted.iter().map(|f| (f.path.clone(), f.bytes)).collect();
    assert_eq!(got, expected);
}

#[test]
fn the_order_of_the_walk_does_not_show_in_the_records() {
    let first = vec![
        entry("b.txt", EntryKind::File, Some(2), Some("hb")),
        entry("a.txt", EntryKind::File, Some(1), Some("ha")),
        entry("c/d.txt", EntryKind::File, Some(3), None),
    ];
    let second = vec![
        entry("c/d.txt", EntryKind::File, Some(3), None),
        entry("b.txt", EntryKind::File, Some(2), Some("hb")),
        entry("a.txt", EntryKind::File, Some(1), Some("ha")),
    ];
    let one = list_files_with_metadata(&first);
    let other = list_files_with_metadata(&second);
    assert_eq!(paths(&one), vec!["a.txt", "b.txt", "c/d.txt"]);
    assert_eq!(one.len(), other.len());
    for (x, y) in one.iter().zip(other.iter()) {
        assert_eq!(x.path, y.path);
        assert_eq!(x.bytes, y.bytes);
        assert_eq!(x.modified_at, y.modified_at);
        assert_eq!(x.created_at, y.created_at);
        assert_eq!(x.accessed_at, y.accessed_at);
        assert_eq!(x.content_hash, y.content_hash);
    }
}

#[test]
fn only_regular_files_become_records() {
    let entries = vec![
        entry("dir", EntryKind::Directory, Some(4096), None),
        entry("dir/file", EntryKind::File, Some(5), Some("h")),
        entry("link", EntryKind::Symlink, Some(8), Some("h")),
        entry("pipe", EntryKind::Other, None, None),
    ];
    let files = list_files_with_metadata(&entries);
    assert_eq!(paths(&files), vec!["dir/file"]);
    assert_eq!(files[0].bytes, 5);
    assert_eq!(files[0].modified_at, Some(10));
    assert_eq!(files[0].created_at, None);
    assert_eq!(files[0].accessed_at, Some(30));
    assert_eq!(files[0].content_hash, Some("h".to_string()));
}

#[test]
fn a_file_that_could_not_be_examined_still_has_a_record() {
    let entries = vec![entry("locked", EntryKind::File, None, None)];
    let files = list_files_with_metadata(&entries);
    assert_eq!(files.len(), 1);
    assert_eq!(files[0].path, "locked");
    assert_eq!(files[0].bytes, 0);
    assert_eq!(files[0].modified_at, None);
    assert_eq!(files[0].content_hash, None);
}

#[test]
fn a_scanned_tree_becomes_a_snapshot_without_a_commit() {
    let entries = vec![
        entry("z", EntryKind::File, Some(1), None),
        entry("a", EntryKind::File, Some(2), None),
    ];
    let snapshot = take_snapshot_from_fs("/root/dir", 1234, &entries);
    assert!(snapshot.is_well_formed());
    assert_eq!(snapshot.root, "/root/dir");
    assert_eq!(snapshot.timestamp, 1234);
    assert_eq!(snapshot.git_commit_hash, None);
    assert_eq!(paths(&snapshot.files), vec!["a", "z"]);
}

#[test]
fn a_git_repository_is_imported_and_any_other_directory_scanned() {
    assert_eq!(take_snapshot(true), SnapshotPlan::ImportHistory);
    assert_eq!(take_snapshot(false), SnapshotPlan::ScanTree);
}

#[test]
fn content_is_hashed_with_blake3() {
    assert_eq!(
        hash_content(b""),
        "af1349b9f5f9a1a6a0404dea36dcc9499bcb25c9adc112b7cc9a93cae41f3262"
    );
    assert_eq!(hash_content(b"hello world"), blake3::hash(b"hello world").to_hex().to_string());
    assert_ne!(hash_content(b"hello world"), hash_content(b"hello world!"));
    assert_eq!(hash_content(b"abc").len(), 64);
}

#[test]
fn the_hash_does_not_depend_on_how_the_content_is_cut() {
    let content: Vec<u8> = (0..20000u32).map(|i| (i % 251) as u8).collect();
    let whole = hash_content(&content);
    let chunks: Vec<Vec<u8>> = content.chunks(BUFFER_SIZE).map(|c| c.to_vec()).collect();
    assert_eq!(chunks.len(), 3);
    assert_eq!(hash_chunks(&chunks), whole);
    let small: Vec<Vec<u8>> = content.chunks(7).map(|c| c.to_vec()).collect();
    assert_eq!(hash_chunks(&small), whole);
    assert_eq!(hash_chunks(&[]), hash_content(b""));
    assert_eq!(hash_chunks(&[vec![], content.clone(), vec![]]), whole);
}

#[test]
fn a_hasher_can_be_asked_for_the_hash_so_far() {
    let mut hasher = ContentHasher::new();
    assert_eq!(hasher.finish(), hash_content(b""));
    hasher.update(b"hello ");
    assert_eq!(hasher.finish(), hash_content(b"hello "));
    hasher.update(b"world");
    assert_eq!(hasher.finish(), hash_content(b"hello world"));
    assert_eq!(hasher.finish(), hash_content(b"hello world"));
}

#[test]
fn the_read_buffer_is_eight_kibibytes() {
    assert_eq!(BUFFER_SIZE, 8192);
}
