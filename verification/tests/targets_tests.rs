use c2rust_build::targets::{
    classify_target, parse_target_selection, process_targets_list, read_targets_list,
    should_skip_dir, ScanRecord, TargetKind,
};

#[test]
fn test_parse_target_selection_valid() {
    assert_eq!(parse_target_selection("1", 3).unwrap(), 0);
    assert_eq!(parse_target_selection("2", 3).unwrap(), 1);
    assert_eq!(parse_target_selection("3", 3).unwrap(), 2);
    assert_eq!(parse_target_selection("  2  ", 3).unwrap(), 1);
}

#[test]
fn test_parse_target_selection_invalid() {
    assert!(parse_target_selection("0", 3).is_err());
    assert!(parse_target_selection("4", 3).is_err());
    assert!(parse_target_selection("abc", 3).is_err());
    assert!(parse_target_selection("", 3).is_err());
    assert!(parse_target_selection("  ", 3).is_err());
}

#[test]
fn test_is_binary_target_static_lib() {
    assert!(classify_target("libfoo.a", false, Some(false)).is_some());
    assert_eq!(classify_target("libfoo.a", false, Some(false)), Some(TargetKind::StaticLib));

    // A `.a` file without the `lib` prefix is not a static library and,
    // without an execute bit, no target at all.
    assert!(classify_target("foo.a", false, Some(false)).is_none());
}

#[test]
fn test_is_binary_target_shared_lib() {
    assert_eq!(classify_target("libfoo.so", false, Some(false)), Some(TargetKind::SharedLib));

    // Versioned shared libraries
    assert_eq!(classify_target("libfoo.so.1", false, Some(false)), Some(TargetKind::SharedLib));
    assert_eq!(classify_target("libfoo.so.1.2", false, Some(false)), Some(TargetKind::SharedLib));
    assert_eq!(
        classify_target("libfoo.so.1.2.3", false, Some(false)),
        Some(TargetKind::SharedLib)
    );

    // Non-numeric versions are excluded
    assert!(classify_target("libfoo.so.old", false, Some(false)).is_none());
    assert!(classify_target("libfoo.so.backup", false, Some(false)).is_none());
}

#[test]
fn test_is_binary_target_object_file() {
    assert!(classify_target("foo.o", false, Some(false)).is_none());
    // Even with an execute bit, known non-binary extensions are refused.
    assert!(classify_target("foo.o", true, Some(false)).is_none());
}

#[test]
fn test_classify_executables_and_scripts() {
    // Execute bit and no interpreter signature: an executable.
    assert_eq!(classify_target("myapp", true, Some(false)), Some(TargetKind::Executable));
    // A script with a shebang is refused.
    assert!(classify_target("run-tests", true, Some(true)).is_none());
    // An unreadable file is conservatively excluded.
    assert!(classify_target("mystery", true, None).is_none());
    // No execute bit: not an executable.
    assert!(classify_target("data", false, Some(false)).is_none());
}

#[test]
fn test_scan_skips_tool_directories() {
    assert!(should_skip_dir(".c2rust"));
    assert!(should_skip_dir("target"));
    assert!(should_skip_dir(".git"));
    assert!(should_skip_dir("node_modules"));
    assert!(!should_skip_dir("src"));
}

#[test]
fn test_process_targets_list_authoritative() {
    // Only what the scan finds goes into the list: any stale entry of a
    // previous list is gone because the scan alone decides.
    let records = vec![
        ScanRecord { rel_path: "libfoo.a".to_string(), is_executable: false, shebang: Some(false) },
        ScanRecord { rel_path: "build/foo.o".to_string(), is_executable: false, shebang: Some(false) },
    ];
    let targets = process_targets_list(&records);
    assert!(targets.contains(&"libfoo.a".to_string()), "Should contain current binary");
    assert!(!targets.contains(&"old_binary".to_string()), "Should not contain stale entry");
}

#[test]
fn test_scan_for_binaries_comprehensive() {
    let records = vec![
        ScanRecord { rel_path: "lib/libmath.a".to_string(), is_executable: false, shebang: Some(false) },
        ScanRecord { rel_path: "lib/libfoo.so".to_string(), is_executable: false, shebang: Some(false) },
        ScanRecord { rel_path: "lib/libbar.so.1".to_string(), is_executable: false, shebang: Some(false) },
        ScanRecord { rel_path: "bin/myapp".to_string(), is_executable: true, shebang: Some(false) },
        ScanRecord { rel_path: "bin/run-tests".to_string(), is_executable: true, shebang: Some(true) },
        ScanRecord { rel_path: "build/foo.o".to_string(), is_executable: false, shebang: Some(false) },
        ScanRecord { rel_path: "build/main.c".to_string(), is_executable: false, shebang: Some(false) },
    ];
    let binaries = process_targets_list(&records);

    assert!(binaries.contains(&"lib/libmath.a".to_string()), "Should find static library");
    assert!(binaries.contains(&"lib/libfoo.so".to_string()), "Should find shared library");
    assert!(
        binaries.contains(&"lib/libbar.so.1".to_string()),
        "Should find versioned shared library"
    );
    assert!(binaries.contains(&"bin/myapp".to_string()), "Should find executable");

    assert!(!binaries.iter().any(|b| b.contains("run-tests")), "Should exclude script with shebang");
    assert!(!binaries.iter().any(|b| b.contains(".o")), "Should exclude object files");
    assert!(!binaries.iter().any(|b| b.contains(".c")), "Should exclude source files");

    let mut sorted = binaries.clone();
    sorted.sort();
    assert_eq!(binaries, sorted, "Binaries should be sorted");
}

#[test]
fn test_scan_handles_duplicate_names() {
    let records = vec![
        ScanRecord { rel_path: "build/foo".to_string(), is_executable: true, shebang: Some(false) },
        ScanRecord { rel_path: "bin/foo".to_string(), is_executable: true, shebang: Some(false) },
    ];
    let binaries = process_targets_list(&records);
    let foo_count = binaries.iter().filter(|b| b.ends_with("foo")).count();
    assert_eq!(foo_count, 2, "Should have 2 entries for 'foo' in different directories");
}

#[test]
fn test_read_targets_list_basic() {
    let targets = read_targets_list("target1\ntarget2\ntarget3\n").unwrap();
    assert_eq!(targets.len(), 3);
    assert_eq!(targets[0], "target1");
    assert_eq!(targets[1], "target2");
    assert_eq!(targets[2], "target3");
}

#[test]
fn test_read_targets_list_with_duplicates() {
    let targets = read_targets_list("target1\ntarget2\ntarget1\ntarget3\ntarget2\n").unwrap();
    assert_eq!(targets.len(), 3);
    assert_eq!(targets[0], "target1");
    assert_eq!(targets[1], "target2");
    assert_eq!(targets[2], "target3");
}

#[test]
fn test_read_targets_list_with_empty_lines_and_comments() {
    let content = "# This is a comment\ntarget1\n\n  target2  \n# Another comment\ntarget3\n";
    let targets = read_targets_list(content).unwrap();
    assert_eq!(targets.len(), 3);
    assert_eq!(targets[0], "target1");
    assert_eq!(targets[1], "target2");
    assert_eq!(targets[2], "target3");
}

#[test]
fn test_read_targets_list_empty_file() {
    assert!(read_targets_list("").is_err());
}

#[test]
fn test_read_targets_list_only_comments() {
    assert!(read_targets_list("# Comment 1\n\n# Comment 2\n").is_err());
}
