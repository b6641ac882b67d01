use ctxgen::render::{format_file_entry, ContextFile};

#[test]
fn test_format_file_entry_with_folds() {
    let file = ContextFile {
        path: "example.txt".to_string(),
        content: "Some content".to_string(),
        has_folds: true,
    };
    let result = format_file_entry(&file);
    assert!(result.contains("has_folds=\"true\""));
    assert!(result.contains("path=\"example.txt\""));
}

#[test]
fn test_format_file_entry_without_folds() {
    let file = ContextFile {
        path: "example.txt".to_string(),
        content: "Some content".to_string(),
        has_folds: false,
    };
    let result = format_file_entry(&file);
    assert!(!result.contains("has_folds"));
    assert!(result.contains("path=\"example.txt\""));
}

#[test]
fn entry_has_exact_shape() {
    let file = ContextFile {
        path: "a/b.txt".to_string(),
        content: "hello".to_string(),
        has_folds: false,
    };
    assert_eq!(format_file_entry(&file), "<file path=\"a/b.txt\">\nhello\n</file>");
}

#[test]
fn entry_with_folds_has_exact_shape() {
    let file = ContextFile {
        path: "a.txt".to_string(),
        content: "hello".to_string(),
        has_folds: true,
    };
    assert_eq!(
        format_file_entry(&file),
        "<file path=\"a.txt\" has_folds=\"true\">\nhello\n</file>"
    );
}

#[test]
fn entry_content_is_trimmed() {
    let file = ContextFile {
        path: "w.txt".to_string(),
        content: " \t\nbody keeps  inner\nspacing\n\n".to_string(),
        has_folds: false,
    };
    assert_eq!(
        format_file_entry(&file),
        "<file path=\"w.txt\">\nbody keeps  inner\nspacing\n</file>"
    );
}
