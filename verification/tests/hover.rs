use cinccino::parser;
use cinccino::symbol_table::SymbolTable;
use cinccino::server::hover::{hover_info};
use cinccino::symbol::SymbolKind;
fn extract_markdown(hover: String) -> String {
    hover
}

#[test]
fn surfaces_circomlib_docs_for_known_template() {
    let src = "";
    let (ast, _) = parser::parse(src);
    let mut table = SymbolTable::new();
    table.index_file("main.circom", &ast);
    let scope = table.file_scope("main.circom").unwrap();

    let hover = hover_info(&table, scope, "Num2Bits", "main.circom")
        .expect("Num2Bits hover should exist");
    let md = extract_markdown(hover);
    assert!(md.contains("Num2Bits"));
    assert!(md.contains("Params"));
}

#[test]
fn local_template_overrides_circomlib_docs_but_appends() {
    // A user-defined template named `IsZero` should still be the
    // primary hover target, with circomlib docs appended.
    let src = r#"
            template IsZero() {
                signal input in;
                signal output out;
                out <== 0;
            }
        "#;
    let (ast, errors) = parser::parse(src);
    assert!(errors.is_empty(), "parse errors: {errors:?}");
    let mut table = SymbolTable::new();
    table.index_file("main.circom", &ast);
    let scope = table.file_scope("main.circom").unwrap();

    let hover = hover_info(&table, scope, "IsZero", "main.circom").unwrap();
    let md = extract_markdown(hover);
    assert!(md.contains("template IsZero"));
    assert!(md.contains("iff the input equals 0"));
}

#[test]
fn unknown_symbol_returns_none() {
    let src = "";
    let (ast, _) = parser::parse(src);
    let mut table = SymbolTable::new();
    table.index_file("main.circom", &ast);
    let scope = table.file_scope("main.circom").unwrap();

    assert!(hover_info(&table, scope, "NotARealSymbol", "main.circom").is_none());
}

// ── Bus hover (#46) ──────────────────────────────────────────

#[test]
fn bus_hover_includes_field_signatures() {
    let src = r#"
            pragma circom 2.2.0;
            bus Point() {
                signal x;
                signal y;
            }
        "#;
    let (ast, _) = parser::parse(src);
    let mut table = SymbolTable::new();
    table.index_file("main.circom", &ast);
    let scope = table.file_scope("main.circom").unwrap();
    let hover = hover_info(&table, scope, "Point", "main.circom").unwrap();
    let md = extract_markdown(hover);
    assert!(md.contains("bus Point()"));
    assert!(md.contains("signal x"));
    assert!(md.contains("signal y"));
}

#[test]
fn bus_signal_hover_shows_bus_body() {
    let src = r#"
            pragma circom 2.2.0;
            bus Point() {
                signal x;
                signal y;
            }
            template T() {
                signal input Point() p;
            }
        "#;
    let (ast, _) = parser::parse(src);
    let mut table = SymbolTable::new();
    table.index_file("main.circom", &ast);
    // Hover on 'p' requires looking up from the template body scope.

    let file_scope = table.file_scope("main.circom").unwrap();
    let t_sym = table.lookup(file_scope, "T").unwrap();
    let body = match &t_sym.kind {
        SymbolKind::Template(t) => t.body_scope,
        _ => panic!("expected template"),
    };
    let hover = hover_info(&table, body, "p", "main.circom").unwrap();
    let md = extract_markdown(hover);
    assert!(md.contains("signal input p bus Point"), "got: {md}");
    assert!(md.contains("bus Point()"), "got: {md}");
    assert!(md.contains("signal x"), "got: {md}");
    assert!(md.contains("signal y"), "got: {md}");
}
