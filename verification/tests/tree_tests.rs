use lado::diff::{FileChange, FileStatus};
use lado::file_tree::{FileTreeNode, FlatFileEntry, build_file_tree, flatten_tree};

fn change(path: &str, status: FileStatus) -> FileChange {
    FileChange { path: path.to_string(), status, additions: 0, deletions: 0 }
}

#[test]
fn test_build_file_tree() {
    let files = vec![
        FileChange {
            path: "src/main.rs".to_string(),
            status: FileStatus::Modified,
            additions: 10,
            deletions: 5,
        },
        FileChange {
            path: "src/lib.rs".to_string(),
            status: FileStatus::Added,
            additions: 20,
            deletions: 0,
        },
        FileChange {
            path: "README.md".to_string(),
            status: FileStatus::Modified,
            additions: 2,
            deletions: 1,
        },
    ];

    let tree = build_file_tree(&files);

    // Should have 2 top-level nodes: src folder and README.md
    assert_eq!(tree.len(), 2);

    // First should be src (folder)
    assert!(tree[0].is_folder);
    assert_eq!(tree[0].name, "src");
    assert_eq!(tree[0].children.len(), 2);
}

#[test]
fn test_empty_file_list_gives_empty_tree() {
    let tree = build_file_tree(&Vec::new());
    assert!(tree.is_empty());
    let flat = flatten_tree(&tree, 0);
    assert!(flat.is_empty());
}

fn flat_summary(flat: &[FlatFileEntry]) -> Vec<(String, String, i32, bool, String)> {
    flat.iter()
        .map(|e| (e.name.clone(), e.path.clone(), e.depth, e.is_folder, e.status.clone()))
        .collect()
}

// Tree ordering: folders stand before files at every depth, ties break
// case-insensitively, and a permuted input yields the identical display list.
#[test]
fn test_flatten_orders_folders_first_case_insensitive() {
    let files = vec![
        change("Zeta.md", FileStatus::Modified),
        change("alpha/one.txt", FileStatus::Added),
        change("Beta/two.txt", FileStatus::Deleted),
        change("apple.md", FileStatus::Modified),
    ];
    let flat = flatten_tree(&build_file_tree(&files), 0);
    let names: Vec<&str> = flat.iter().filter(|e| e.depth == 0).map(|e| e.name.as_str()).collect();
    // Folders (alpha, Beta) first in case-insensitive order, then files.
    assert_eq!(names, vec!["alpha", "Beta", "apple.md", "Zeta.md"]);

    let permuted = vec![
        change("apple.md", FileStatus::Modified),
        change("Beta/two.txt", FileStatus::Deleted),
        change("Zeta.md", FileStatus::Modified),
        change("alpha/one.txt", FileStatus::Added),
    ];
    let flat2 = flatten_tree(&build_file_tree(&permuted), 0);
    assert_eq!(flat_summary(&flat), flat_summary(&flat2));
}

// Round-trip: one leaf entry per input path, with the status preserved.
#[test]
fn test_round_trip_one_leaf_per_path() {
    let files = vec![
        change("a/b/c.txt", FileStatus::Added),
        change("a/b/d.txt", FileStatus::Deleted),
        change("a/e.txt", FileStatus::Renamed),
        change("top.txt", FileStatus::Modified),
    ];
    let flat = flatten_tree(&build_file_tree(&files), 0);
    let mut leaves: Vec<(String, String)> = flat
        .iter()
        .filter(|e| !e.is_folder)
        .map(|e| (e.path.clone(), e.status.clone()))
        .collect();
    leaves.sort();
    let mut expected = vec![
        ("a/b/c.txt".to_string(), "added".to_string()),
        ("a/b/d.txt".to_string(), "deleted".to_string()),
        ("a/e.txt".to_string(), "renamed".to_string()),
        ("top.txt".to_string(), "modified".to_string()),
    ];
    expected.sort();
    assert_eq!(leaves, expected);
}

#[test]
fn test_folder_rows_expanded_with_default_status() {
    let files = vec![change("dir/file.txt", FileStatus::Added)];
    let flat = flatten_tree(&build_file_tree(&files), 0);
    assert_eq!(flat.len(), 2);
    assert!(flat[0].is_folder);
    assert!(flat[0].is_expanded);
    assert_eq!(flat[0].status, "modified");
    assert_eq!(flat[0].depth, 0);
    assert_eq!(flat[1].depth, 1);
    assert_eq!(flat[1].status, "added");
    assert_eq!(flat[1].path, "dir/file.txt");
}

// End-to-end scenario: three modified files give a `src` folder with two
// children, then the top-level file, in that order.
#[test]
fn test_tree_scenario_two_top_level_entries() {
    let files = vec![
        change("src/main.x", FileStatus::Modified),
        change("src/lib.x", FileStatus::Modified),
        change("README.md", FileStatus::Modified),
    ];
    let tree: Vec<FileTreeNode> = build_file_tree(&files);
    assert_eq!(tree.len(), 2);
    assert!(tree[0].is_folder);
    assert_eq!(tree[0].name, "src");
    assert_eq!(tree[0].children.len(), 2);
    assert!(!tree[1].is_folder);
    assert_eq!(tree[1].name, "README.md");
}

#[test]
fn test_duplicate_path_keeps_last_status() {
    let files = vec![
        change("f.txt", FileStatus::Added),
        change("f.txt", FileStatus::Deleted),
    ];
    let tree = build_file_tree(&files);
    assert_eq!(tree.len(), 1);
    assert_eq!(tree[0].status.as_deref(), Some("deleted"));
}

#[test]
fn test_status_names() {
    assert_eq!(FileStatus::Added.as_str(), "added");
    assert_eq!(FileStatus::Modified.as_str(), "modified");
    assert_eq!(FileStatus::Deleted.as_str(), "deleted");
    assert_eq!(FileStatus::Renamed.as_str(), "renamed");
}

// The case folding behind the ordering really lowercases: with the raw
// names, `B` (0x42) would sort before `a` (0x61).
#[test]
fn test_ordering_uses_case_folding() {
    let files = vec![
        change("B.txt", FileStatus::Modified),
        change("a.txt", FileStatus::Modified),
    ];
    let tree = build_file_tree(&files);
    assert_eq!(tree[0].name, "a.txt");
    assert_eq!(tree[1].name, "B.txt");
}
