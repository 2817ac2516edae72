use c2rust_build::config::{config_add_args, config_list_args, config_set_args, parse_compiler_list};

#[test]
fn test_config_set_args_with_feature() {
    let args = config_set_args(Some("debug"), "build.target", "libfoo.a");
    assert_eq!(
        args,
        vec!["config", "--make", "--feature", "debug", "--set", "build.target", "libfoo.a"]
    );
}

#[test]
fn test_config_set_args_without_feature() {
    let args = config_set_args(None, "build.dir", ".");
    assert_eq!(args, vec!["config", "--make", "--set", "build.dir", "."]);
}

#[test]
fn test_config_list_args() {
    let args = config_list_args(Some("default"), "build.target");
    assert_eq!(
        args,
        vec!["config", "--make", "--feature", "default", "--list", "build.target"]
    );
}

#[test]
fn test_config_add_args_feature_last() {
    let values = vec!["a.c".to_string(), "b.c".to_string()];
    let args = config_add_args("build.files.0", &values, Some("f"));
    assert_eq!(
        args,
        vec!["config", "--make", "--add", "build.files.0", "a.c", "b.c", "--feature", "f"]
    );
}

#[test]
fn test_parse_compiler_list_trims_and_filters() {
    let out = parse_compiler_list("gcc\n  clang  \n\n g++ \n");
    assert_eq!(out, vec!["gcc", "clang", "g++"]);
}

#[test]
fn test_parse_compiler_list_empty() {
    assert!(parse_compiler_list("").is_empty());
    assert!(parse_compiler_list("\n  \n").is_empty());
}

#[test]
fn test_config_global_list_args() {
    let args = c2rust_build::config::config_global_list_args("compiler");
    assert_eq!(args, vec!["config", "--global", "--list", "compiler"]);
}
