use chronicle::models::{FileMetadata, SnapshotMetadata};
use chronicle::server::tree::split_path;
use chronicle::server::{build_file_tree, ApiNode, ApiSnapshot};

fn file(path: &str, bytes: u64) -> FileMetadata {
    FileMetadata {
        path: path.to_string(),
        bytes,
        modified_at: None,
        created_at: None,
        accessed_at: None,
        content_hash: None,
    }
}

fn summary(timestamp: i64) -> SnapshotMetadata {
    SnapshotMetadata { id: 4, root: "/r".to_string(), timestamp, file_count: 10, total_size: 2048 }
}

fn shape(node: &ApiNode) -> String {
    let size = match node.size {
        Some(s) => format!("={}", s),
        None => String::new(),
    };
    if node.children.is_empty() {
        format!("{}{}", node.name, size)
    } else {
        let children: Vec<String> = node.children.iter().map(shape).collect();
        format!("{}{}[{}]", node.name, size, children.join(","))
    }
}

#[test]
fn a_snapshot_on_the_timeline_has_its_time_in_utc() {
    let entry = ApiSnapshot::from_metadata(&summary(1431648000)).unwrap();
    assert_eq!(entry.id, 4);
    assert_eq!(entry.timestamp, "2015-05-15T00:00:00+00:00");
    assert_eq!(entry.files_count, 10);
    assert_eq!(entry.total_size, 2048);
    assert_eq!(
        ApiSnapshot::from_metadata(&summary(0)).unwrap().timestamp,
        "1970-01-01T00:00:00+00:00"
    );
    assert_eq!(
        ApiSnapshot::from_metadata(&summary(-1)).unwrap().timestamp,
        "1969-12-31T23:59:59+00:00"
    );
}

#[test]
fn a_time_beyond_all_dates_has_no_timeline_entry() {
    assert!(ApiSnapshot::from_metadata(&summary(i64::MAX)).is_none());
    assert!(ApiSnapshot::from_metadata(&summary(i64::MIN)).is_none());
}

#[test]
fn a_timeline_entry_takes_the_time_that_it_is_given() {
    let entry = ApiSnapshot::new(&summary(5), "some time".to_string());
    assert_eq!(entry.id, 4);
    assert_eq!(entry.timestamp, "some time");
    assert_eq!(entry.files_count, 10);
    assert_eq!(entry.total_size, 2048);
}

#[test]
fn a_path_is_cut_at_its_slashes() {
    assert_eq!(split_path("a/b/c.txt"), vec!["a", "b", "c.txt"]);
    assert_eq!(split_path("file"), vec!["file"]);
    assert_eq!(split_path("/abs//double/"), vec!["abs", "double"]);
    assert_eq!(split_path("dir/é/日本.txt"), vec!["dir", "é", "日本.txt"]);
    assert!(split_path("").is_empty());
    assert!(split_path("///").is_empty());
}

#[test]
fn files_are_hung_into_a_tree_by_their_paths() {
    let files = vec![file("d.txt", 3), file("a/c.txt", 2), file("a/b.txt", 1), file("a/e/f", 4)];
    let tree = build_file_tree(&files);
    assert_eq!(shape(&tree), ".[a[b.txt=1,c.txt=2,e[f=4]],d.txt=3]");
    assert_eq!(tree.size, None);
}

#[test]
fn no_files_make_an_empty_tree() {
    let tree = build_file_tree(&[]);
    assert_eq!(tree.name, ".");
    assert!(tree.children.is_empty());
    assert_eq!(tree.size, None);
}

#[test]
fn a_path_given_twice_keeps_one_node_with_the_later_size() {
    let tree = build_file_tree(&[file("a", 1), file("a", 2)]);
    assert_eq!(shape(&tree), ".[a=2]");
}

#[test]
fn a_file_may_stand_where_a_directory_stands() {
    let tree = build_file_tree(&[file("a/b", 1), file("a", 9)]);
    assert_eq!(shape(&tree), ".[a=9[b=1]]");
}

#[test]
fn a_deep_path_is_hung_in_level_by_level() {
    let names: Vec<String> = (0..1500).map(|i| format!("d{}", i)).collect();
    let path = names.join("/");
    let tree = build_file_tree(&[file(&path, 7), file("top", 1)]);
    assert_eq!(tree.children.len(), 2);
    assert_eq!(tree.children[1].name, "top");
    let mut node = &tree.children[0];
    let mut depth = 0;
    loop {
        assert_eq!(node.name, names[depth]);
        depth += 1;
        if node.children.is_empty() {
            break;
        }
        assert_eq!(node.size, None);
        assert_eq!(node.children.len(), 1);
        node = &node.children[0];
    }
    assert_eq!(depth, 1500);
    assert_eq!(node.size, Some(7));
}

#[test]
fn siblings_keep_their_places_when_a_file_is_put_between_them() {
    let tree = build_file_tree(&[
        file("a/1", 1),
        file("b/1", 2),
        file("c/1", 3),
        file("b/2", 4),
        file("a/2", 5),
    ]);
    assert_eq!(shape(&tree), ".[a[1=1,2=5],b[1=2,2=4],c[1=3]]");
}
