use cinccino::server::document::{ContentChange, DocPosition, DocumentStore};
fn test_uri(name: &str) -> String {
    format!("file:///test/{name}")
}

#[test]
fn open_and_get_text() {
    let mut store = DocumentStore::new();
    let uri = test_uri("main.circom");
    store.open(uri.clone(), 1, "pragma circom \"2.2.3\";".to_string());

    assert_eq!(
        store.get_text(&uri),
        Some("pragma circom \"2.2.3\";".to_string())
    );
    assert_eq!(store.get_version(&uri), Some(1));
    assert!(store.is_open(&uri));
}

#[test]
fn close_removes_document() {
    let mut store = DocumentStore::new();
    let uri = test_uri("main.circom");
    store.open(uri.clone(), 1, "hello".to_string());
    store.close(&uri);

    assert!(!store.is_open(&uri));
    assert_eq!(store.get_text(&uri), None);
}

#[test]
fn full_document_change() {
    let mut store = DocumentStore::new();
    let uri = test_uri("main.circom");
    store.open(uri.clone(), 1, "old content".to_string());

    store.apply_changes(
        &uri,
        2,
        vec![ContentChange {
            range: None,
            text: "new content".to_string(),
        }],
    );

    assert_eq!(store.get_text(&uri), Some("new content".to_string()));
    assert_eq!(store.get_version(&uri), Some(2));
}

#[test]
fn incremental_change() {
    let mut store = DocumentStore::new();
    let uri = test_uri("main.circom");
    store.open(uri.clone(), 1, "hello world".to_string());

    // Replace "world" (chars 6..11) with "circom"
    store.apply_changes(
        &uri,
        2,
        vec![ContentChange {
            range: Some((
                DocPosition { line: 0, character: 6 },
                DocPosition { line: 0, character: 11 },
            )),
            text: "circom".to_string()
        }],
    );

    assert_eq!(store.get_text(&uri), Some("hello circom".to_string()));
}

#[test]
fn incremental_change_multiline() {
    let mut store = DocumentStore::new();
    let uri = test_uri("main.circom");
    store.open(uri.clone(), 1, "line1\nline2\nline3".to_string());

    // Replace "line2" on the second line
    store.apply_changes(
        &uri,
        2,
        vec![ContentChange {
            range: Some((
                DocPosition { line: 1, character: 0 },
                DocPosition { line: 1, character: 5 },
            )),
            text: "replaced".to_string()
        }],
    );

    assert_eq!(
        store.get_text(&uri),
        Some("line1\nreplaced\nline3".to_string())
    );
}

#[test]
fn change_to_unopened_document_is_noop() {
    let mut store = DocumentStore::new();
    let uri = test_uri("nonexistent.circom");

    store.apply_changes(
        &uri,
        1,
        vec![ContentChange {
            range: None,
            text: "content".to_string(),
        }],
    );

    assert!(!store.is_open(&uri));
}

#[test]
fn reset_parser_resyncs_incremental_state() {
    let mut store = DocumentStore::new();
    let uri = test_uri("main.circom");
    store.open(uri.clone(), 1, "hello world".to_string());

    // Apply an incremental change.
    store.apply_changes(
        &uri,
        2,
        vec![ContentChange {
            range: Some((
                DocPosition { line: 0, character: 6 },
                DocPosition { line: 0, character: 11 },
            )),
            text: "circom".to_string()
        }],
    );

    // Reset with saved content — parser should resync.
    store.reset_parser(&uri, "hello circom");

    // Verify the cached text and parse errors are consistent.
    let (text, _errors) = store.get_parse_errors(&uri).unwrap();
    assert_eq!(text, "hello circom");
}
