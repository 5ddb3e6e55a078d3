use cinccino::parser;
use cinccino::server::handlers::{
    diagnostics_for, find_references, invalid_name_message, position_to_byte_offset, rename_result, span_range,
    word_at_offset,
};
use cinccino::span::{LineCol, Span};
use cinccino::symbol::{DiagnosticKind, SymbolDiagnostic};
use cinccino::symbol_table::SymbolTable;

#[test]
fn word_at_offset_finds_identifier_around_cursor() {
    let src = "signal input foo_bar2;";
    let at = src.find("bar").unwrap();
    assert_eq!(word_at_offset(src, at), "foo_bar2");
    assert_eq!(word_at_offset(src, 0), "signal");
    assert_eq!(word_at_offset(src, src.len() - 1), "");
    assert_eq!(word_at_offset(src, src.len()), "");
    assert_eq!(word_at_offset(src, 6), "");
}

#[test]
fn position_to_byte_offset_counts_lines_and_columns() {
    let src = "ab\ncde\nf";
    assert_eq!(position_to_byte_offset(src, 0, 0), 0);
    assert_eq!(position_to_byte_offset(src, 1, 1), 4);
    // A column past the end of the line stops at the newline.
    assert_eq!(position_to_byte_offset(src, 1, 10), 6);
    // A line past the end gives the end of the text.
    assert_eq!(position_to_byte_offset(src, 7, 0), src.len());
    assert_eq!(position_to_byte_offset(src, 2, 1), 8);
}

#[test]
fn position_to_byte_offset_counts_characters_not_bytes() {
    let src = "é=1;\nx";
    // 'é' is two bytes: column 1 is byte 2.
    assert_eq!(position_to_byte_offset(src, 0, 1), 2);
    assert_eq!(position_to_byte_offset(src, 1, 0), 6);
}

#[test]
fn references_across_documents_skip_definition_when_asked() {
    let current = "template Foo() {}\ncomponent c = Foo();\n";
    let docs = vec![
        ("file:///a.circom".to_string(), current.to_string()),
        ("file:///b.circom".to_string(), "component d = Foo(); // Foo\n".to_string()),
    ];
    let all = find_references("file:///a.circom", current, &docs, "Foo", "file:///a.circom", 9, true);
    // Two in the current document, two in the other (comments count).
    assert_eq!(all.len(), 4);
    assert_eq!(all[0].uri, "file:///a.circom");
    assert_eq!(all[0].offset, 9);
    assert_eq!(all[0].range.start, LineCol { line: 0, col: 9 });
    assert_eq!(all[0].range.end, LineCol { line: 0, col: 12 });
    assert_eq!(all[2].uri, "file:///b.circom");
    let without_decl = find_references("file:///a.circom", current, &docs, "Foo", "file:///a.circom", 9, false);
    assert_eq!(without_decl.len(), 3);
    assert_eq!(without_decl[0].offset, current.rfind("Foo").unwrap());
}

#[test]
fn diagnostics_prefer_parse_errors() {
    let src = "template T( {";
    let (_, errors) = parser::parse(src);
    assert!(!errors.is_empty());
    let semantic = vec![SymbolDiagnostic {
        span: Span::new(0, 1),
        message: "x".to_string(),
        kind: DiagnosticKind::UnsafeSignalAssignment,
        file: "main.circom".to_string(),
    }];
    let out = diagnostics_for(src, &errors, &semantic, "main.circom");
    assert_eq!(out.len(), errors.len());
    assert!(out.iter().all(|d| !d.is_warning));
}

#[test]
fn diagnostics_map_warning_kinds_and_filter_files() {
    let src = "a\nb\n";
    let semantic = vec![
        SymbolDiagnostic {
            span: Span::new(2, 3),
            message: "unsafe".to_string(),
            kind: DiagnosticKind::UnsafeSignalAssignment,
            file: "main.circom".to_string(),
        },
        SymbolDiagnostic {
            span: Span::new(0, 1),
            message: "other file".to_string(),
            kind: DiagnosticKind::UndeclaredSymbol,
            file: "other.circom".to_string(),
        },
        SymbolDiagnostic {
            span: Span::new(0, 1),
            message: "undeclared".to_string(),
            kind: DiagnosticKind::UndeclaredSymbol,
            file: "main.circom".to_string(),
        },
    ];
    let out = diagnostics_for(src, &Vec::new(), &semantic, "main.circom");
    assert_eq!(out.len(), 2);
    assert!(out[0].is_warning);
    assert_eq!(out[0].range.start, LineCol { line: 1, col: 0 });
    assert_eq!(out[0].message, "unsafe");
    assert!(!out[1].is_warning);
    assert_eq!(out[1].message, "undeclared");
}

#[test]
fn span_range_gives_line_and_column() {
    let r = span_range("ab\ncd", Span::new(3, 5));
    assert_eq!(r.start, LineCol { line: 1, col: 0 });
    assert_eq!(r.end, LineCol { line: 1, col: 2 });
}

#[test]
fn invalid_names_are_refused_with_a_message() {
    assert_eq!(invalid_name_message("good_name"), None);
    assert_eq!(
        invalid_name_message("1bad"),
        Some("'1bad' is not a valid Circom identifier".to_string())
    );
}

#[test]
fn rename_result_refuses_conflicts_and_builds_edits() {
    let src = "template T() {\n    signal a;\n    signal b;\n    a <== b;\n}\n";
    let (ast, errors) = parser::parse(src);
    assert!(errors.is_empty());
    let mut table = SymbolTable::new();
    table.index_file("main.circom", &ast);
    let file_scope = table.file_scope("main.circom").unwrap();
    let t = table.lookup(file_scope, "T").unwrap().clone();
    let body = match &t.kind {
        cinccino::symbol::SymbolKind::Template(t) => t.body_scope,
        _ => panic!("expected template"),
    };
    let a = table.lookup(body, "a").unwrap().clone();
    let docs = vec![("main.circom".to_string(), src.to_string())];
    let conflict = rename_result(&table, &a, "b", &docs);
    assert_eq!(conflict, Err("cannot rename: 'b' already exists in this scope".to_string()));
    let ok = rename_result(&table, &a, "c", &docs).unwrap();
    assert_eq!(ok.len(), 1);
    assert_eq!(ok[0].1.len(), 2);
    assert!(ok[0].1.iter().all(|e| e.new_text == "c"));
}
