use ctxgen::generate::generate_context_markdown;

fn pair(p: &str, c: &str) -> (String, String) {
    (p.to_string(), c.to_string())
}

#[test]
fn end_to_end_two_files() {
    let inputs = vec![
        pair("a.txt", "X\n<ctxgen:fold>a\nb</ctxgen:fold>\nY"),
        pair("b.txt", "plain"),
    ];
    let doc = generate_context_markdown(&inputs);
    assert_eq!(
        doc,
        "<file path=\"a.txt\" has_folds=\"true\">\nX\n[Folded content: 2 lines (lines 3-3). Read 'a.txt' for full content.]\nY\n</file>\n\n<file path=\"b.txt\">\nplain\n</file>"
    );
    let first = doc.find("a.txt").unwrap();
    let second = doc.find("b.txt").unwrap();
    assert!(first < second);
}

#[test]
fn output_is_sorted_by_path_not_collection_order() {
    let forward = vec![pair("a.txt", "one"), pair("b.txt", "two"), pair("c.txt", "three")];
    let backward = vec![pair("c.txt", "three"), pair("b.txt", "two"), pair("a.txt", "one")];
    let doc_forward = generate_context_markdown(&forward);
    let doc_backward = generate_context_markdown(&backward);
    assert_eq!(doc_forward, doc_backward);
    assert_eq!(
        doc_forward,
        "<file path=\"a.txt\">\none\n</file>\n\n<file path=\"b.txt\">\ntwo\n</file>\n\n<file path=\"c.txt\">\nthree\n</file>"
    );
}

#[test]
fn repeated_runs_are_byte_identical() {
    let inputs = vec![
        pair("z.md", "tail\n<ctxgen:fold>secret</ctxgen:fold>"),
        pair("m.md", "middle"),
        pair("a.md", "head"),
    ];
    let once = generate_context_markdown(&inputs);
    let twice = generate_context_markdown(&inputs);
    assert_eq!(once, twice);
}

#[test]
fn nested_paths_sort_by_code_point() {
    let inputs = vec![pair("b/a.txt", "x"), pair("a/z.txt", "y"), pair("a/a.txt", "z")];
    let doc = generate_context_markdown(&inputs);
    let pos_a = doc.find("a/a.txt").unwrap();
    let pos_b = doc.find("a/z.txt").unwrap();
    let pos_c = doc.find("b/a.txt").unwrap();
    assert!(pos_a < pos_b && pos_b < pos_c);
}

#[test]
fn no_files_give_empty_document() {
    let inputs: Vec<(String, String)> = vec![];
    assert_eq!(generate_context_markdown(&inputs), "");
}

#[test]
fn single_file_has_no_separator() {
    let inputs = vec![pair("only.txt", "body")];
    assert_eq!(
        generate_context_markdown(&inputs),
        "<file path=\"only.txt\">\nbody\n</file>"
    );
}

#[test]
fn blocks_are_separated_by_one_blank_line() {
    let inputs = vec![pair("a", "1"), pair("b", "2")];
    let doc = generate_context_markdown(&inputs);
    assert_eq!(doc.matches("</file>\n\n<file").count(), 1);
    assert!(!doc.contains("</file>\n\n\n<file"));
}
