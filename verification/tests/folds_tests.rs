use ctxgen::folds::process_folds;

#[test]
fn test_process_folds_no_folds() {
    let content = "This is regular content\nwith no folds.";
    let (result, has_folds) = process_folds(content, "test.txt");
    assert_eq!(result, content);
    assert!(!has_folds);
}

#[test]
fn test_process_folds_single_fold() {
    let content = "Before\n<ctxgen:fold>Hidden content</ctxgen:fold>\nAfter";
    let (result, has_folds) = process_folds(content, "test.txt");
    assert!(has_folds);
    assert!(result.contains("[Folded content:"));
    assert!(result.contains("Read 'test.txt'"));
    assert!(!result.contains("Hidden content"));
}

#[test]
fn test_process_folds_multiple_folds() {
    let content =
        "Start\n<ctxgen:fold>First</ctxgen:fold>\nMiddle\n<ctxgen:fold>Second</ctxgen:fold>\nEnd";
    let (result, has_folds) = process_folds(content, "test.txt");
    assert!(has_folds);
    assert!(result.contains("Start"));
    assert!(result.contains("Middle"));
    assert!(result.contains("End"));
    assert!(!result.contains("First"));
    assert!(!result.contains("Second"));
}

#[test]
fn single_fold_exact_placeholder() {
    let content = "X\n<ctxgen:fold>a\nb</ctxgen:fold>\nY";
    let (result, has_folds) = process_folds(content, "a.txt");
    assert!(has_folds);
    assert_eq!(
        result,
        "X\n[Folded content: 2 lines (lines 3-3). Read 'a.txt' for full content.]\nY"
    );
}

#[test]
fn single_line_fold_uses_singular_word() {
    let content = "Before\n<ctxgen:fold>Hidden content</ctxgen:fold>\nAfter";
    let (result, _) = process_folds(content, "test.txt");
    assert_eq!(
        result,
        "Before\n[Folded content: 1 line (lines 3-2). Read 'test.txt' for full content.]\nAfter"
    );
}

#[test]
fn empty_fold_region_reports_zero_lines() {
    let content = "<ctxgen:fold></ctxgen:fold>";
    let (result, has_folds) = process_folds(content, "p.txt");
    assert!(has_folds);
    assert_eq!(
        result,
        "[Folded content: 0 lines (lines 2-1). Read 'p.txt' for full content.]"
    );
}

#[test]
fn multi_digit_line_numbers() {
    let content = "1\n2\n3\n4\n5\n6\n7\n8\n9\n10\n11\n<ctxgen:fold>x</ctxgen:fold>";
    let (result, has_folds) = process_folds(content, "n.txt");
    assert!(has_folds);
    assert_eq!(
        result,
        "1\n2\n3\n4\n5\n6\n7\n8\n9\n10\n11\n[Folded content: 1 line (lines 13-12). Read 'n.txt' for full content.]"
    );
}

#[test]
fn unmatched_open_tag_is_left_verbatim() {
    let content = "a<ctxgen:fold>b";
    let (result, has_folds) = process_folds(content, "t.txt");
    assert_eq!(result, content);
    assert!(!has_folds);
}

#[test]
fn unmatched_close_tag_is_left_verbatim() {
    let content = "a</ctxgen:fold>b";
    let (result, has_folds) = process_folds(content, "t.txt");
    assert_eq!(result, content);
    assert!(!has_folds);
}

#[test]
fn markers_are_case_sensitive() {
    let content = "<CTXGEN:FOLD>x</CTXGEN:FOLD>";
    let (result, has_folds) = process_folds(content, "t.txt");
    assert_eq!(result, content);
    assert!(!has_folds);
}

#[test]
fn adjacent_folds_each_get_a_placeholder() {
    let content = "<ctxgen:fold>A</ctxgen:fold><ctxgen:fold>B</ctxgen:fold>";
    let (result, has_folds) = process_folds(content, "t.txt");
    assert!(has_folds);
    assert_eq!(result.matches("[Folded content:").count(), 2);
    assert!(!result.contains('A'));
    assert!(!result.contains('B'));
}

#[test]
fn matching_is_non_greedy() {
    let content = "<ctxgen:fold>A</ctxgen:fold>keep<ctxgen:fold>B</ctxgen:fold>";
    let (result, _) = process_folds(content, "t.txt");
    assert!(result.contains("keep"));
    assert_eq!(result.matches("[Folded content:").count(), 2);
}

#[test]
fn empty_content_is_unchanged() {
    let (result, has_folds) = process_folds("", "t.txt");
    assert_eq!(result, "");
    assert!(!has_folds);
}
