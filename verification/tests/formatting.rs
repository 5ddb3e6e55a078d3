use cinccino::server::formatting::{FormatOptions, format_document};

fn opts() -> FormatOptions {
    FormatOptions {
        tab_size: 4,
        max_line_length: None,
    }
}

#[test]
fn returns_single_edit_for_full_document() {
    let src = "template T(){signal input x;}\n";
    let edits = format_document(src, &opts()).expect("edits");
    assert_eq!(edits.len(), 1);
    let e = &edits[0];
    assert!(e.new_text.contains("template T() {"));
    assert_eq!(e.start.line, 0);
    assert_eq!(e.start.col, 0);
}

#[test]
fn returns_empty_on_no_change() {
    let src = "pragma circom 2.0.0;\n";
    let edits = format_document(src, &opts()).expect("edits");
    assert_eq!(edits.len(), 0, "already-formatted should produce no edits");
}

#[test]
fn returns_none_on_parse_error() {
    let src = "template {{{ broken";
    let edits = format_document(src, &opts());
    assert!(edits.is_none(), "parse error should suppress formatting");
}

#[test]
fn honours_max_line_length_property() {
    let src = "template T() {\n    signal output z;\n    z <== Foo(aaaa, bbbb, cccc);\n}\n";
    let mut options = opts();
    options.max_line_length = Some(24);
    let edits = format_document(src, &options).expect("edits");
    assert!(!edits.is_empty(), "expected wrapping edit");
    assert!(
        edits[0].new_text.contains("aaaa,\n"),
        "expected wrap:\n{}",
        edits[0].new_text
    );
}
