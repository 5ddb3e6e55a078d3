use cinccino::circomlib_docs::{circomlib_docs, known_names, lookup};
#[test]
fn known_templates_are_looked_up() {
    assert!(lookup("Num2Bits").is_some());
    assert!(lookup("IsZero").is_some());
    assert!(lookup("IsEqual").is_some());
    assert!(lookup("Poseidon").is_some());
    assert!(lookup("CompConstant").is_some());
}

#[test]
fn unknown_template_returns_none() {
    assert!(lookup("MyCustomTemplate").is_none());
    assert!(lookup("").is_none());
    assert!(lookup("num2bits").is_none()); // case sensitive
}

#[test]
fn all_entries_have_nonempty_markdown() {
    for entry in circomlib_docs() {
        assert!(!entry.name.is_empty());
        assert!(
            !entry.markdown.is_empty(),
            "empty markdown for {}",
            entry.name
        );
        assert!(
            entry.markdown.contains("**"),
            "no markdown emphasis in {}",
            entry.name
        );
    }
}

#[test]
fn no_duplicate_names() {
    let mut names: Vec<&str> = circomlib_docs().iter().map(|e| e.name).collect();
    names.sort();
    let original_len = names.len();
    names.dedup();
    assert_eq!(
        names.len(),
        original_len,
        "duplicate template names in CIRCOMLIB_DOCS"
    );
}

#[test]
fn known_names_iterator_matches_table() {
    let count_iter = known_names().len();
    assert_eq!(count_iter, circomlib_docs().len());
}
