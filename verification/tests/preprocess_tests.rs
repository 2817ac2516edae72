use c2rust_build::preprocess::{add_c2rust_suffix, build_preprocess_args, preprocess_output_path};

#[test]
fn test_build_preprocess_args_combined_form() {
    // Test combined-form flags like -Iinclude/
    let args = vec![
        "gcc".to_string(),
        "-c".to_string(),
        "-Iinclude/".to_string(),
        "-DDEBUG".to_string(),
        "-Uold_macro".to_string(),
        "file.c".to_string(),
    ];
    let input = "input.c";
    let output = "output.i";

    let result = build_preprocess_args(&args, input, output);

    assert_eq!(result[0], "-E");
    assert!(result.contains(&"-Iinclude/".to_string()));
    assert!(result.contains(&"-DDEBUG".to_string()));
    assert!(result.contains(&"-Uold_macro".to_string()));
    assert!(!result.contains(&"-c".to_string()));
    assert_eq!(result[result.len() - 3], "input.c");
    assert_eq!(result[result.len() - 2], "-o");
    assert_eq!(result[result.len() - 1], "output.i");
}

#[test]
fn test_build_preprocess_args_split_form() {
    // Test split-form flags like -I include/
    let args = vec![
        "gcc".to_string(),
        "-I".to_string(),
        "include/".to_string(),
        "-D".to_string(),
        "DEBUG".to_string(),
        "-U".to_string(),
        "old_macro".to_string(),
        "file.c".to_string(),
    ];
    let input = "input.c";
    let output = "output.i";

    let result = build_preprocess_args(&args, input, output);

    assert_eq!(result[0], "-E");
    // Check that split-form flags include both the flag and value
    let i_index = result.iter().position(|x| x == "-I").unwrap();
    assert_eq!(result[i_index + 1], "include/");

    let d_index = result.iter().position(|x| x == "-D").unwrap();
    assert_eq!(result[d_index + 1], "DEBUG");

    let u_index = result.iter().position(|x| x == "-U").unwrap();
    assert_eq!(result[u_index + 1], "old_macro");

    assert_eq!(result[result.len() - 3], "input.c");
    assert_eq!(result[result.len() - 2], "-o");
    assert_eq!(result[result.len() - 1], "output.i");
}

#[test]
fn test_build_preprocess_args_include_flag() {
    // Test -include flag in both forms
    let args_combined = vec![
        "gcc".to_string(),
        "-includeheader.h".to_string(),
        "file.c".to_string(),
    ];
    let args_split = vec![
        "gcc".to_string(),
        "-include".to_string(),
        "header.h".to_string(),
        "file.c".to_string(),
    ];
    let input = "input.c";
    let output = "output.i";

    let result_combined = build_preprocess_args(&args_combined, input, output);
    assert!(result_combined.contains(&"-includeheader.h".to_string()));

    let result_split = build_preprocess_args(&args_split, input, output);
    let include_index = result_split.iter().position(|x| x == "-include").unwrap();
    assert_eq!(result_split[include_index + 1], "header.h");
}

#[test]
fn test_build_preprocess_args_output_flag_skipped() {
    // Test that -o and its value are skipped
    let args = vec![
        "gcc".to_string(),
        "-c".to_string(),
        "-o".to_string(),
        "original_output.o".to_string(),
        "-Iinclude/".to_string(),
        "file.c".to_string(),
    ];
    let input = "input.c";
    let output = "output.i";

    let result = build_preprocess_args(&args, input, output);

    // Should not contain the original -o or its value (except our new -o at the end)
    assert!(!result.contains(&"original_output.o".to_string()));
    assert!(result.contains(&"-Iinclude/".to_string()));
    assert_eq!(result[result.len() - 2], "-o");
    assert_eq!(result[result.len() - 1], "output.i");
}

#[test]
fn test_build_preprocess_args_std_flag() {
    // Test that -std flags are preserved
    let args = vec!["gcc".to_string(), "-std=c11".to_string(), "file.c".to_string()];
    let input = "input.c";
    let output = "output.i";

    let result = build_preprocess_args(&args, input, output);

    assert!(result.contains(&"-std=c11".to_string()));
}

#[test]
fn test_build_preprocess_args_mixed_forms() {
    // Test a mix of combined and split forms
    let args = vec![
        "gcc".to_string(),
        "-Iinclude/".to_string(), // combined
        "-D".to_string(),         // split
        "DEBUG".to_string(),
        "-Uold".to_string(),    // combined
        "-include".to_string(), // split
        "header.h".to_string(),
        "file.c".to_string(),
    ];
    let input = "input.c";
    let output = "output.i";

    let result = build_preprocess_args(&args, input, output);

    assert!(result.contains(&"-Iinclude/".to_string()));
    assert!(result.contains(&"-Uold".to_string()));

    let d_index = result.iter().position(|x| x == "-D").unwrap();
    assert_eq!(result[d_index + 1], "DEBUG");

    let include_index = result.iter().position(|x| x == "-include").unwrap();
    assert_eq!(result[include_index + 1], "header.h");
}

#[test]
fn test_preprocess_file_path_with_c_subdirectory() {
    let project_root = "/proj";
    let feature = "test_feature";

    let output_path = preprocess_output_path(project_root, feature, "src/test.c");

    assert_eq!(output_path, "/proj/.c2rust/test_feature/c/src/test.c.c2rust");
}

#[test]
fn test_output_path_construction_with_c_subdir() {
    let project_root = "/proj";
    let feature = "my_feature";

    let output_path = preprocess_output_path(project_root, feature, "src/a/b.c");

    assert_eq!(output_path, "/proj/.c2rust/my_feature/c/src/a/b.c.c2rust");
}

#[test]
fn test_output_path_suffix_appended() {
    // Verify .c2rust is appended, not replacing the extension
    assert_eq!(add_c2rust_suffix("main.c"), "main.c.c2rust");
    assert_eq!(add_c2rust_suffix("header.h"), "header.h.c2rust");
    assert_eq!(add_c2rust_suffix("src/main.c"), "src/main.c.c2rust");
    // Paths without a file name stay as they are
    assert_eq!(add_c2rust_suffix("src/"), "src/");
    assert_eq!(add_c2rust_suffix(".."), "..");
}

#[test]
fn test_output_path_absolute_under_root() {
    let output_path = preprocess_output_path("/proj", "f", "/proj/src/x.c");
    assert_eq!(output_path, "/proj/.c2rust/f/c/src/x.c.c2rust");
}

#[test]
fn test_output_path_absolute_outside_root() {
    let output_path = preprocess_output_path("/proj", "f", "/other/x.c");
    assert_eq!(output_path, "/proj/.c2rust/f/c/other/x.c.c2rust");
}
