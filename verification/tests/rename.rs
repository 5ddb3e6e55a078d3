use cinccino::server::rename::{build_workspace_edit, find_identifier_edits, is_valid_identifier};
#[test]
fn valid_identifier_accepts_ascii_names() {
    assert!(is_valid_identifier("foo"));
    assert!(is_valid_identifier("_foo"));
    assert!(is_valid_identifier("foo123"));
    assert!(is_valid_identifier("Foo_Bar"));
}

#[test]
fn valid_identifier_rejects_bad_names() {
    assert!(!is_valid_identifier(""));
    assert!(!is_valid_identifier("1foo"));
    assert!(!is_valid_identifier("foo-bar"));
    assert!(!is_valid_identifier("foo bar"));
}

#[test]
fn find_edits_replaces_whole_words_only() {
    let text = "template Foo() { Foo; Foobar; _Foo; Foo_; }";
    let edits = find_identifier_edits(text, "Foo", "Bar");
    // Expected matches: "Foo" at col 9, col 17 — "Foobar" and "_Foo" and
    // "Foo_" are not whole-word matches.
    assert_eq!(edits.len(), 2);
}

#[test]
fn find_edits_skips_matches_inside_strings() {
    let text = r#"template Foo() { log("Foo is Foo"); Foo; }"#;
    let edits = find_identifier_edits(text, "Foo", "Bar");
    // Only the outer "Foo" identifiers should match — the two inside
    // the "Foo is Foo" string literal must be skipped.
    assert_eq!(edits.len(), 2);
}

#[test]
fn find_edits_skips_matches_inside_line_comments() {
    let text = "template Foo() { // Foo in a comment\n  Foo;\n}";
    let edits = find_identifier_edits(text, "Foo", "Bar");
    // "Foo" at col 9 and inside the body — the comment reference must be skipped.
    assert_eq!(edits.len(), 2);
}

#[test]
fn find_edits_skips_matches_inside_block_comments() {
    let text = "/* Foo everywhere */\ntemplate Foo() { Foo; }";
    let edits = find_identifier_edits(text, "Foo", "Bar");
    assert_eq!(edits.len(), 2);
}

#[test]
fn build_workspace_edit_collects_across_files() {
    let doc_a: (String, String) = (
        "file:///a.circom".to_string(),
        "template Foo() {}\ncomponent c = Foo();\n".to_string(),
    );
    let doc_b: (String, String) = (
        "file:///b.circom".to_string(),
        "include \"a.circom\";\ncomponent d = Foo();\n".to_string(),
    );
    let docs = vec![doc_a, doc_b];

    let changes = build_workspace_edit("Foo", "Bar", "file:///a.circom", 9, &docs);
    assert_eq!(changes.len(), 2);
    assert!(
        changes
            .iter()
            .find(|(uri, _)| uri == "file:///a.circom")
            .unwrap()
            .1
            .len()
            >= 2
    );
    assert!(!changes
        .iter()
        .find(|(uri, _)| uri == "file:///b.circom")
        .unwrap()
        .1
        .is_empty());
}
