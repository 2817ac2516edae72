use c2rust_build::error::Error;
use c2rust_build::tracker::{
    build_wrapper_script, ensure_verbose, extract_c_file_from_command, filter_c_entries,
    parse_compile_log, CompileEntry,
};

#[test]
fn test_extract_c_file_from_command() {
    let cmd = "gcc -c test.c -o test.o";
    assert_eq!(extract_c_file_from_command(cmd), Some("test.c".to_string()));
}

#[test]
fn test_extract_c_file_from_command_none() {
    let cmd = "gcc -c test.cpp -o test.o";
    assert_eq!(extract_c_file_from_command(cmd), None);
}

#[test]
fn test_parse_compile_log_one_record() {
    // One shim record parses to one entry.
    let lines = vec!["DIR:/a".to_string(), "CMD:gcc -DX -c f.c".to_string(), "---".to_string()];
    let entries = parse_compile_log(&lines);

    assert_eq!(entries.len(), 1);
    assert_eq!(entries[0].directory, "/a");
    assert_eq!(entries[0].file, "f.c");
    assert_eq!(entries[0].command.as_deref(), Some("gcc -DX -c f.c"));
    assert!(entries[0].arguments.is_none());
}

#[test]
fn test_parse_compile_log_skips_non_c_records() {
    let lines = vec![
        "DIR:/a".to_string(),
        "CMD:gcc -c f.s".to_string(),
        "---".to_string(),
        "DIR:/b".to_string(),
        "CMD:gcc -c g.c".to_string(),
        "---".to_string(),
    ];
    let entries = parse_compile_log(&lines);
    assert_eq!(entries.len(), 1);
    assert_eq!(entries[0].directory, "/b");
    assert_eq!(entries[0].file, "g.c");
}

#[test]
fn test_parse_compile_log_deduplicates_records() {
    // Two identical records collapse to one entry; first-seen order is
    // kept for the rest.
    let lines = vec![
        "DIR:/a".to_string(),
        "CMD:gcc -c f.c".to_string(),
        "---".to_string(),
        "DIR:/a".to_string(),
        "CMD:gcc -c f.c".to_string(),
        "---".to_string(),
        "DIR:/b".to_string(),
        "CMD:gcc -c g.c".to_string(),
        "---".to_string(),
    ];
    let entries = parse_compile_log(&lines);
    assert_eq!(entries.len(), 2);
    assert_eq!(entries[0].directory, "/a");
    assert_eq!(entries[0].file, "f.c");
    assert_eq!(entries[1].directory, "/b");
    assert_eq!(entries[1].file, "g.c");
}

#[test]
fn test_parse_compile_log_keeps_distinct_directories() {
    // The same command from two directories is two distinct entries.
    let lines = vec![
        "DIR:/a".to_string(),
        "CMD:gcc -c f.c".to_string(),
        "---".to_string(),
        "DIR:/b".to_string(),
        "CMD:gcc -c f.c".to_string(),
        "---".to_string(),
    ];
    let entries = parse_compile_log(&lines);
    assert_eq!(entries.len(), 2);
}

#[test]
fn test_parse_compile_log_requires_both_lines() {
    // A delimiter without a preceding DIR or CMD line yields nothing.
    let lines = vec!["CMD:gcc -c f.c".to_string(), "---".to_string()];
    assert!(parse_compile_log(&lines).is_empty());
    let lines2 = vec!["DIR:/a".to_string(), "---".to_string()];
    assert!(parse_compile_log(&lines2).is_empty());
}

#[test]
fn test_get_arguments_prefers_stored_list() {
    let e = CompileEntry {
        directory: "/a".to_string(),
        file: "f.c".to_string(),
        arguments: Some(vec!["gcc".to_string(), "-c".to_string(), "f.c".to_string()]),
        command: Some("ignored".to_string()),
    };
    assert_eq!(e.get_arguments(), vec!["gcc", "-c", "f.c"]);
    assert_eq!(e.get_file_path(), "f.c");
    assert_eq!(e.get_directory(), "/a");
}

#[test]
fn test_get_arguments_splits_command() {
    let e = CompileEntry {
        directory: "/a".to_string(),
        file: "f.c".to_string(),
        arguments: None,
        command: Some("gcc -DVAL=\"a b\" -c f.c".to_string()),
    };
    assert_eq!(e.get_arguments(), vec!["gcc", "-DVAL=a b", "-c", "f.c"]);
}

#[test]
fn test_filter_c_entries_keeps_only_c_files() {
    let mk = |file: &str| CompileEntry {
        directory: "/a".to_string(),
        file: file.to_string(),
        arguments: None,
        command: None,
    };
    let filtered = filter_c_entries(vec![mk("a.c"), mk("b.s"), mk("c.c"), mk("d.cpp")]);
    let names: Vec<&str> = filtered.iter().map(|e| e.file.as_str()).collect();
    assert_eq!(names, vec!["a.c", "c.c"]);
}

#[test]
fn test_ensure_verbose_appends_for_make() {
    let cmd = vec!["make".to_string()];
    assert_eq!(ensure_verbose(&cmd), vec!["make", "VERBOSE=1"]);

    let abs = vec!["/usr/bin/make".to_string(), "-j4".to_string()];
    assert_eq!(ensure_verbose(&abs), vec!["/usr/bin/make", "-j4", "VERBOSE=1"]);
}

#[test]
fn test_ensure_verbose_respects_existing_assignment() {
    let cmd = vec!["make".to_string(), "VERBOSE=0".to_string()];
    assert_eq!(ensure_verbose(&cmd), vec!["make", "VERBOSE=0"]);
}

#[test]
fn test_ensure_verbose_ignores_lookalikes() {
    // A variable that merely contains the substring does not count.
    let cmd = vec!["make".to_string(), "MYVERBOSE=1".to_string()];
    assert_eq!(ensure_verbose(&cmd), vec!["make", "MYVERBOSE=1", "VERBOSE=1"]);

    let not_make = vec!["ninja".to_string()];
    assert_eq!(ensure_verbose(&not_make), vec!["ninja"]);
}

#[test]
fn test_wrapper_script_embeds_paths() {
    let script = build_wrapper_script("gcc", "/tmp/w/compile_commands.log", "/usr/bin/gcc");
    assert!(script.starts_with("#!/bin/bash\n"));
    assert!(script.contains("flock 200"));
    assert!(script.contains("echo \"CMD:gcc $@\" >&200"));
    assert!(script.contains("200>>\"/tmp/w/compile_commands.log\""));
    assert!(script.contains("exec \"/usr/bin/gcc\" \"$@\""));
}

#[test]
fn test_error_messages() {
    assert_eq!(
        Error::CommandExecutionFailed("boom".to_string()).message(),
        "Command execution failed: boom"
    );
    assert_eq!(
        Error::ConfigToolNotFound.message(),
        "c2rust-config not found. Please install c2rust-config first."
    );
    assert_eq!(Error::InvalidInput("abc".to_string()).message(), "Invalid input: abc");
}
