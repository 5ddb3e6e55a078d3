use cinccino::symbol::{DiagnosticKind, ScopeId, Symbol, SymbolDiagnostic, SymbolId, SymbolKind, TemplateSymbol};
use cinccino::span::{Span};
#[test]
fn symbol_id_equality() {
    assert_eq!(SymbolId(0), SymbolId(0));
    assert_ne!(SymbolId(0), SymbolId(1));
}

#[test]
fn scope_id_equality() {
    assert_eq!(ScopeId(0), ScopeId(0));
    assert_ne!(ScopeId(0), ScopeId(1));
}

#[test]
fn symbol_construction() {
    let sym = Symbol {
        id: SymbolId(0),
        name: "Adder".to_string(),
        kind: SymbolKind::Template(TemplateSymbol {
            params: vec!["n".to_string()],
            is_custom: false,
            is_parallel: false,
            body_scope: ScopeId(1),
        }),
        span: Span::new(0, 10),
        scope: ScopeId(0),
        file: "main.circom".to_string(),
    };
    assert_eq!(sym.name, "Adder");
    match &sym.kind {
        SymbolKind::Template(t) => {
            assert_eq!(t.params, vec!["n"]);
            assert!(!t.is_custom);
        }
        _ => panic!("expected template"),
    }
}

#[test]
fn diagnostic_kinds() {
    let diag = SymbolDiagnostic {
        span: Span::new(5, 10),
        message: "duplicate template 'Foo'".to_string(),
        kind: DiagnosticKind::DuplicateSymbol,
        file: "main.circom".to_string(),
    };
    assert_eq!(diag.kind, DiagnosticKind::DuplicateSymbol);
}
