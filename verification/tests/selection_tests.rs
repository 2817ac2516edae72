use c2rust_build::selection::{
    build_hierarchical_items, collect_all_descendants, collect_preprocessed_files, plan_cleanup,
    plan_directory_cleanup, reconcile_selection, selection_file_content, PreprocessedFileInfo,
    SelectableItem,
};

fn info(path: &str, display: &str) -> PreprocessedFileInfo {
    PreprocessedFileInfo { path: path.to_string(), display_name: display.to_string() }
}

#[test]
fn test_collect_all_descendants_empty() {
    let items: Vec<SelectableItem> = vec![];
    let child_indices: Vec<usize> = vec![];
    let mut result = Vec::new();

    collect_all_descendants(&items, &child_indices, &mut result);

    assert_eq!(result.len(), 0);
}

#[test]
fn test_collect_all_descendants_flat() {
    let items = vec![
        SelectableItem::File { info: info("c/file1.c.c2rust", "file1.c.c2rust"), depth: 0 },
        SelectableItem::File { info: info("c/file2.c.c2rust", "file2.c.c2rust"), depth: 0 },
    ];

    let child_indices = vec![0, 1];
    let mut result = Vec::new();

    collect_all_descendants(&items, &child_indices, &mut result);

    assert_eq!(result.len(), 2);
    assert_eq!(result, vec![0, 1]);
}

#[test]
fn test_collect_all_descendants_nested() {
    let items = vec![
        // Index 0: Directory with children at indices 1 and 2
        SelectableItem::Directory {
            components: vec!["src".to_string()],
            display_name: "src".to_string(),
            depth: 1,
            child_indices: vec![1, 2],
        },
        // Index 1: File
        SelectableItem::File { info: info("c/src/file1.c.c2rust", "src/file1.c.c2rust"), depth: 2 },
        // Index 2: File
        SelectableItem::File { info: info("c/src/file2.c.c2rust", "src/file2.c.c2rust"), depth: 2 },
    ];

    let child_indices = vec![0]; // Start with directory
    let mut result = Vec::new();

    collect_all_descendants(&items, &child_indices, &mut result);

    // Should collect directory (0) and its children (1, 2)
    assert_eq!(result.len(), 3);
    assert!(result.contains(&0));
    assert!(result.contains(&1));
    assert!(result.contains(&2));
}

#[test]
fn test_build_hierarchical_items_empty() {
    let files: Vec<PreprocessedFileInfo> = vec![];
    let items = build_hierarchical_items(&files);
    assert_eq!(items.len(), 0);
}

#[test]
fn test_build_hierarchical_items_flat_structure() {
    let files = vec![
        info("c/file1.c.c2rust", "file1.c.c2rust"),
        info("c/file2.c.c2rust", "file2.c.c2rust"),
    ];
    let items = build_hierarchical_items(&files);

    assert_eq!(items.len(), 2);
    for item in items {
        assert!(matches!(item, SelectableItem::File { .. }));
    }
}

#[test]
fn test_build_hierarchical_items_nested_structure() {
    let files = vec![
        info("c/main.c.c2rust", "main.c.c2rust"),
        info("c/src/helper.c.c2rust", "src/helper.c.c2rust"),
    ];
    let items = build_hierarchical_items(&files);

    // 1 directory (src) + 2 files = 3 items
    assert_eq!(items.len(), 3);

    let dir_count =
        items.iter().filter(|i| matches!(i, SelectableItem::Directory { .. })).count();
    let file_count = items.iter().filter(|i| matches!(i, SelectableItem::File { .. })).count();
    assert_eq!(dir_count, 1);
    assert_eq!(file_count, 2);

    let dir_item =
        items.iter().find(|i| matches!(i, SelectableItem::Directory { .. })).unwrap();
    if let SelectableItem::Directory { child_indices, .. } = dir_item {
        assert_eq!(child_indices.len(), 1);
    }
}

#[test]
fn test_build_hierarchical_items_deeply_nested() {
    let files = vec![info("c/a/b/c/file.c.c2rust", "a/b/c/file.c.c2rust")];
    let items = build_hierarchical_items(&files);

    // 3 directories (a, b, c) + 1 file = 4 items
    assert_eq!(items.len(), 4);

    let dir_count =
        items.iter().filter(|i| matches!(i, SelectableItem::Directory { .. })).count();
    let file_count = items.iter().filter(|i| matches!(i, SelectableItem::File { .. })).count();
    assert_eq!(dir_count, 3);
    assert_eq!(file_count, 1);
}

#[test]
fn test_hierarchical_items_preorder_display() {
    let files = vec![
        info("c/src/utils/helper.c.c2rust", "src/utils/helper.c.c2rust"),
        info("c/main.c.c2rust", "main.c.c2rust"),
    ];
    let items = build_hierarchical_items(&files);

    // Preorder: src -> utils -> helper.c.c2rust -> main.c.c2rust
    assert_eq!(items.len(), 4);

    if let SelectableItem::Directory { display_name, depth, .. } = &items[0] {
        assert_eq!(display_name, "src");
        assert_eq!(*depth, 0);
    } else {
        panic!("Expected first item to be src directory");
    }

    if let SelectableItem::Directory { display_name, depth, .. } = &items[1] {
        assert_eq!(display_name, "utils");
        assert_eq!(*depth, 1);
    } else {
        panic!("Expected second item to be utils directory");
    }

    if let SelectableItem::File { depth, .. } = &items[2] {
        assert_eq!(*depth, 2);
    } else {
        panic!("Expected third item to be helper file");
    }

    if let SelectableItem::File { depth, .. } = &items[3] {
        assert_eq!(*depth, 0);
    } else {
        panic!("Expected fourth item to be main file");
    }
}

#[test]
fn test_directory_basename_formatting() {
    let files = vec![info("c/src/utils/test.c.c2rust", "src/utils/test.c.c2rust")];
    let items = build_hierarchical_items(&files);

    for item in &items {
        if let SelectableItem::Directory { display_name, .. } = item {
            assert!(
                !display_name.contains('/'),
                "Directory display_name should be basename only, got: {}",
                display_name
            );
        }
    }
}

#[test]
fn test_stable_deterministic_ordering() {
    let files = vec![
        info("c/src/zzz.c.c2rust", "src/zzz.c.c2rust"),
        info("c/src/aaa.c.c2rust", "src/aaa.c.c2rust"),
        info("c/lib/bbb.c.c2rust", "lib/bbb.c.c2rust"),
    ];

    let items1 = build_hierarchical_items(&files);
    let items2 = build_hierarchical_items(&files);

    assert_eq!(items1.len(), items2.len());
    for (i, (item1, item2)) in items1.iter().zip(items2.iter()).enumerate() {
        match (item1, item2) {
            (
                SelectableItem::Directory { display_name: d1, .. },
                SelectableItem::Directory { display_name: d2, .. },
            ) => {
                assert_eq!(d1, d2, "Directory order mismatch at index {}", i);
            },
            (
                SelectableItem::File { info: f1, .. },
                SelectableItem::File { info: f2, .. },
            ) => {
                assert_eq!(f1.path, f2.path, "File order mismatch at index {}", i);
            },
            _ => panic!("Item type mismatch at index {}", i),
        }
    }

    // lib comes before src (alphabetical)
    if let SelectableItem::Directory { display_name, .. } = &items1[0] {
        assert_eq!(display_name, "lib");
    }
    if let SelectableItem::Directory { display_name, .. } = &items1[2] {
        assert_eq!(display_name, "src");
    }
}

#[test]
fn test_depth_starts_at_zero() {
    let files = vec![
        info("c/root.c.c2rust", "root.c.c2rust"),
        info("c/src/nested.c.c2rust", "src/nested.c.c2rust"),
    ];
    let items = build_hierarchical_items(&files);

    if let SelectableItem::Directory { depth, .. } = &items[0] {
        assert_eq!(*depth, 0, "First-level directory should have depth 0");
    }

    let root_file = items
        .iter()
        .find(|item| {
            matches!(item, SelectableItem::File { info, .. } if info.display_name == "root.c.c2rust")
        })
        .expect("Should find root file");
    if let SelectableItem::File { depth, .. } = root_file {
        assert_eq!(*depth, 0, "Root-level file should have depth 0");
    }
}

#[test]
fn test_directory_expansion_includes_all_descendants() {
    let files = vec![
        info("c/src/utils/helper.c.c2rust", "src/utils/helper.c.c2rust"),
        info("c/src/utils/util.c.c2rust", "src/utils/util.c.c2rust"),
        info("c/main.c.c2rust", "main.c.c2rust"),
    ];
    let items = build_hierarchical_items(&files);

    let src_idx = items
        .iter()
        .position(|item| {
            matches!(item, SelectableItem::Directory { display_name, .. } if display_name == "src")
        })
        .expect("Should find src directory");

    let mut descendants = Vec::new();
    if let SelectableItem::Directory { child_indices, .. } = &items[src_idx] {
        collect_all_descendants(&items, child_indices, &mut descendants);
    }

    assert!(descendants.len() >= 3, "Should have at least 3 descendants (utils dir + 2 files)");

    let file_paths: Vec<String> = descendants
        .iter()
        .filter_map(|&idx| {
            if let SelectableItem::File { info, .. } = &items[idx] {
                Some(info.path.clone())
            } else {
                None
            }
        })
        .collect();

    assert!(
        file_paths.contains(&"c/src/utils/helper.c.c2rust".to_string()),
        "Should include helper.c.c2rust"
    );
    assert!(
        file_paths.contains(&"c/src/utils/util.c.c2rust".to_string()),
        "Should include util.c.c2rust"
    );
}

#[test]
fn test_explicit_deselection_respected() {
    // Selecting the folder but deselecting one file keeps the sibling
    // and drops exactly the deselected file.
    let files = vec![
        info("c/src/keep.c.c2rust", "src/keep.c.c2rust"),
        info("c/src/exclude.c.c2rust", "src/exclude.c.c2rust"),
    ];
    let items = build_hierarchical_items(&files);
    assert_eq!(items.len(), 3);

    let src_idx = items
        .iter()
        .position(|item| {
            matches!(item, SelectableItem::Directory { display_name, .. } if display_name == "src")
        })
        .expect("Should find src directory");
    let exclude_idx = items
        .iter()
        .position(|item| {
            matches!(item, SelectableItem::File { info, .. } if info.display_name == "src/exclude.c.c2rust")
        })
        .expect("Should find exclude file");

    let mut checked = vec![false; items.len()];
    checked[src_idx] = true;
    let mut deselected = vec![false; items.len()];
    deselected[exclude_idx] = true;

    let kept = reconcile_selection(&items, &checked, &deselected);

    assert!(
        !kept.contains(&"c/src/exclude.c.c2rust".to_string()),
        "Explicitly deselected file should not be included"
    );
    assert!(
        kept.contains(&"c/src/keep.c.c2rust".to_string()),
        "Non-deselected file should be included"
    );
}

#[test]
fn test_reconcile_all_checked_keeps_everything() {
    let files = vec![
        info("c/a.c.c2rust", "a.c.c2rust"),
        info("c/src/b.c.c2rust", "src/b.c.c2rust"),
    ];
    let items = build_hierarchical_items(&files);
    let checked = vec![true; items.len()];
    let deselected = vec![false; items.len()];
    let kept = reconcile_selection(&items, &checked, &deselected);
    assert_eq!(kept.len(), 2);
}

#[test]
fn test_cleanup_plan_removes_only_unselected() {
    let all_files = vec![
        info("c/file1.c.c2rust", "file1.c.c2rust"),
        info("c/file2.c.c2rust", "file2.c.c2rust"),
        info("c/file3.c.c2rust", "file3.c.c2rust"),
    ];
    let selected = vec!["c/file1.c.c2rust".to_string(), "c/file3.c.c2rust".to_string()];
    let doomed = plan_cleanup(&all_files, &selected);
    assert_eq!(doomed, vec!["c/file2.c.c2rust".to_string()]);
}

#[test]
fn test_cleanup_plan_empty_selection_deletes_nothing() {
    // Safety: an empty kept set means the selection was aborted.
    let all_files = vec![info("c/file1.c.c2rust", "file1.c.c2rust")];
    let selected: Vec<String> = vec![];
    let doomed = plan_cleanup(&all_files, &selected);
    assert_eq!(doomed.len(), 0);
}

#[test]
fn test_cleanup_plan_all_selected_deletes_nothing() {
    let all_files = vec![
        info("c/file1.c.c2rust", "file1.c.c2rust"),
        info("c/file2.c.c2rust", "file2.c.c2rust"),
    ];
    let selected = vec!["c/file1.c.c2rust".to_string(), "c/file2.c.c2rust".to_string()];
    let doomed = plan_cleanup(&all_files, &selected);
    assert_eq!(doomed.len(), 0);
}

#[test]
fn test_directory_cleanup_deepest_first() {
    let deleted = vec!["a/b/c/file1.c.c2rust".to_string()];
    let cands = plan_directory_cleanup(&deleted);
    assert_eq!(cands, vec!["a/b/c".to_string(), "a/b".to_string(), "a".to_string()]);
}

#[test]
fn test_directory_cleanup_never_leaves_root() {
    // Every candidate is a strict ancestor of a deleted file: a
    // non-empty relative path, never the root and never above it.
    let deleted = vec![
        "dir1/subdir1/file1.c.c2rust".to_string(),
        "dir2/subdir2/file2.c.c2rust".to_string(),
    ];
    let cands = plan_directory_cleanup(&deleted);
    assert_eq!(cands.len(), 4);
    for c in &cands {
        assert!(!c.is_empty());
        assert!(deleted.iter().any(|d| d.starts_with(&format!("{}/", c))));
    }
    assert!(cands.contains(&"dir1".to_string()));
    assert!(cands.contains(&"dir1/subdir1".to_string()));
    assert!(cands.contains(&"dir2".to_string()));
    assert!(cands.contains(&"dir2/subdir2".to_string()));
}

#[test]
fn test_directory_cleanup_no_file_no_candidates() {
    let deleted: Vec<String> = vec![];
    assert!(plan_directory_cleanup(&deleted).is_empty());
    let flat = vec!["file.c.c2rust".to_string()];
    assert!(plan_directory_cleanup(&flat).is_empty());
}

#[test]
fn test_collect_preprocessed_files_with_files() {
    let rels = vec!["main.c.c2rust".to_string(), "src/helper.c.c2rust".to_string()];
    let files = collect_preprocessed_files("c", &rels);
    assert_eq!(files.len(), 2);

    // Sorted by display name
    assert_eq!(files[0].display_name, "main.c.c2rust");
    assert_eq!(files[1].display_name, "src/helper.c.c2rust");
    assert_eq!(files[0].path, "c/main.c.c2rust");
    assert_eq!(files[1].path, "c/src/helper.c.c2rust");
}

#[test]
fn test_collect_preprocessed_files_filters_by_extension() {
    let rels = vec![
        "valid1.c.c2rust".to_string(),
        "valid2.i".to_string(),
        "valid3.ii".to_string(),
        "invalid.txt".to_string(),
        "invalid.c".to_string(),
        "invalid.json".to_string(),
        ".hidden".to_string(),
    ];
    let files = collect_preprocessed_files("c", &rels);

    assert_eq!(files.len(), 3);
    let names: Vec<&str> = files.iter().map(|f| f.display_name.as_str()).collect();
    assert!(names.contains(&"valid1.c.c2rust"));
    assert!(names.contains(&"valid2.i"));
    assert!(names.contains(&"valid3.ii"));
}

#[test]
fn test_selection_file_content_is_json_array() {
    let selected = vec!["/path/to/file1.c.c2rust".to_string(), "/path/to/file2.c.c2rust".to_string()];
    let content = selection_file_content(&selected).unwrap();
    let loaded: Vec<String> = serde_json::from_str(&content).unwrap();
    assert_eq!(loaded.len(), 2);
    assert_eq!(loaded[0], "/path/to/file1.c.c2rust");
    assert_eq!(loaded[1], "/path/to/file2.c.c2rust");
}
