use c2rust_build::grouping::{parse_and_group, parse_compiler_line};

fn gcc_only() -> Vec<String> {
    vec!["gcc".to_string()]
}

#[test]
fn test_parse_compiler_line() {
    let line = "gcc -I../include -DDEBUG=1 -o main.o main.c utils.c";
    let compilers = gcc_only();
    let result = parse_compiler_line(line, &compilers).unwrap();

    assert!(result.0.contains("-I../include"));
    assert!(result.0.contains("-DDEBUG=1"));
    assert_eq!(result.1, vec!["main.c", "utils.c"]);
}

#[test]
fn test_parse_compiler_line_absolute_path() {
    let line = "/usr/bin/gcc -I../include -o main.o main.c";
    let compilers = gcc_only();
    let result = parse_compiler_line(line, &compilers).unwrap();

    assert!(result.0.contains("-I../include"));
    assert_eq!(result.1, vec!["main.c"]);
}

#[test]
fn test_parse_compiler_line_not_compiler() {
    let line = "echo building project";
    let compilers = gcc_only();
    let result = parse_compiler_line(line, &compilers);

    assert!(result.is_none());
}

#[test]
fn test_parse_compiler_line_no_sources() {
    let line = "gcc -I../include -o main.o";
    let compilers = gcc_only();
    let result = parse_compiler_line(line, &compilers);

    assert!(result.is_none());
}

#[test]
fn test_parse_and_group() {
    let output = r#"
            gcc -I../include -DDEBUG=1 -o debug.o main.c debug.c
            gcc -I../include -DDEBUG=1 -o common.o common.c
            gcc -I../include -o release.o release.c
        "#;

    let compilers = gcc_only();
    let groups = parse_and_group(output, &compilers);

    assert_eq!(groups.len(), 2);

    // Find the group with DEBUG flag
    let debug_group = groups.iter().find(|(opts, _)| opts.contains("-DDEBUG=1")).unwrap();
    assert_eq!(debug_group.1.len(), 3);
    assert!(debug_group.1.contains(&"main.c".to_string()));
    assert!(debug_group.1.contains(&"debug.c".to_string()));
    assert!(debug_group.1.contains(&"common.c".to_string()));

    // Find the group without DEBUG flag
    let release_group = groups.iter().find(|(opts, _)| !opts.contains("-DDEBUG=1")).unwrap();
    assert_eq!(release_group.1.len(), 1);
    assert!(release_group.1.contains(&"release.c".to_string()));
}

#[test]
fn test_parse_and_group_dedup() {
    let output = r#"
            gcc -I../include -o a.o main.c
            gcc -I../include -o b.o main.c
        "#;

    let compilers = gcc_only();
    let groups = parse_and_group(output, &compilers);

    assert_eq!(groups.len(), 1);
    assert_eq!(groups[0].1.len(), 1);
    assert_eq!(groups[0].1[0], "main.c");
}

#[test]
fn test_group_options_are_canonical() {
    // The same flags in a different order land in one group.
    let output = "gcc -DB -DA -o x.o one.c\ngcc -DA -DB -o y.o two.c\n";
    let compilers = gcc_only();
    let groups = parse_and_group(output, &compilers);

    assert_eq!(groups.len(), 1);
    assert_eq!(groups[0].0, "-DA -DB");
    assert_eq!(groups[0].1, vec!["one.c".to_string(), "two.c".to_string()]);
}

#[test]
fn test_group_options_are_a_set() {
    // A repeated flag counts once: the key is the set of flags, so a
    // line with the flag doubled joins the group of the single flag.
    let compilers = gcc_only();
    let r = parse_compiler_line("gcc -O2 -O2 -o a.o a.c", &compilers).unwrap();
    assert_eq!(r.0, "-O2");

    let output = "gcc -O2 -O2 -o a.o a.c\ngcc -O2 -o b.o b.c\n";
    let groups = parse_and_group(output, &compilers);
    assert_eq!(groups.len(), 1);
    assert_eq!(groups[0].0, "-O2");
    assert_eq!(groups[0].1, vec!["a.c".to_string(), "b.c".to_string()]);
}

#[test]
fn test_same_file_two_option_sets_two_groups() {
    // One file compiled under two option sets appears once in each group.
    let output = "gcc -DX -c f.c\ngcc -DY -c f.c\n";
    let compilers = gcc_only();
    let groups = parse_and_group(output, &compilers);

    assert_eq!(groups.len(), 2);
    for (_, files) in &groups {
        assert_eq!(files.iter().filter(|f| f.as_str() == "f.c").count(), 1);
    }
}

#[test]
fn test_unrecognized_compiler_yields_nothing() {
    let compilers = gcc_only();
    assert!(parse_compiler_line("clang -c f.c", &compilers).is_none());
    assert!(parse_and_group("clang -c f.c\nld -o app f.o\n", &compilers).is_empty());
}

#[test]
fn test_cpp_extensions_recognized() {
    let compilers = gcc_only();
    let r = parse_compiler_line("gcc -c a.cpp b.cc c.cxx d.C e.rs", &compilers).unwrap();
    assert_eq!(r.1, vec!["a.cpp", "b.cc", "c.cxx", "d.C"]);
}
