use cinccino::parser;
use cinccino::symbol_table::{SymbolTable};
use cinccino::symbol::{DiagnosticKind, SymbolKind};

use cinccino::ast::SignalKind;
fn parse_and_index(src: &str, file_path: &str) -> SymbolTable {
    let (ast, errors) = parser::parse(src);
    assert!(errors.is_empty(), "parse errors: {errors:?}");
    let mut table = SymbolTable::new();
    table.index_file(file_path, &ast);
    table
}

// ── Basic symbol tracking ───────────────────────────────────────

#[test]
fn tracks_template_symbol() {
    let table = parse_and_index(
        r#"
            template Adder(n) {
                signal input a;
                signal input b;
                signal output c;
                c <== a + b;
            }
            "#,
        "main.circom",
    );

    let scope = table.file_scope("main.circom").unwrap();
    let sym = table.lookup(scope, "Adder").unwrap();
    assert_eq!(sym.name, "Adder");
    match &sym.kind {
        SymbolKind::Template(t) => {
            assert_eq!(t.params, vec!["n"]);
            assert!(!t.is_custom);
            assert!(!t.is_parallel);
        }
        _ => panic!("expected template symbol"),
    }
}

#[test]
fn tracks_function_symbol() {
    let table = parse_and_index(
        r#"
            function add(a, b) {
                return a + b;
            }
            "#,
        "main.circom",
    );

    let scope = table.file_scope("main.circom").unwrap();
    let sym = table.lookup(scope, "add").unwrap();
    assert_eq!(sym.name, "add");
    match &sym.kind {
        SymbolKind::Function(f) => {
            assert_eq!(f.params, vec!["a", "b"]);
        }
        _ => panic!("expected function symbol"),
    }
}

#[test]
fn tracks_bus_symbol() {
    let table = parse_and_index(
        r#"
            pragma circom 2.2.0;
            bus Point() {
                signal input x;
                signal input y;
            }
            "#,
        "main.circom",
    );

    let scope = table.file_scope("main.circom").unwrap();
    let sym = table.lookup(scope, "Point").unwrap();
    assert_eq!(sym.name, "Point");
    match &sym.kind {
        SymbolKind::Bus(b) => {
            assert!(b.params.is_empty());
        }
        _ => panic!("expected bus symbol"),
    }
}

#[test]
fn tracks_signals_in_template() {
    let table = parse_and_index(
        r#"
            template T() {
                signal input a;
                signal output b;
                signal c;
            }
            "#,
        "main.circom",
    );

    let scope = table.file_scope("main.circom").unwrap();
    let tmpl = table.lookup(scope, "T").unwrap();
    let body_scope = match &tmpl.kind {
        SymbolKind::Template(t) => t.body_scope,
        _ => panic!("expected template"),
    };

    let a = table.lookup(body_scope, "a").unwrap();
    match &a.kind {
        SymbolKind::Signal(s) => assert_eq!(s.kind, SignalKind::Input),
        _ => panic!("expected signal"),
    }

    let b = table.lookup(body_scope, "b").unwrap();
    match &b.kind {
        SymbolKind::Signal(s) => assert_eq!(s.kind, SignalKind::Output),
        _ => panic!("expected signal"),
    }

    let c = table.lookup(body_scope, "c").unwrap();
    match &c.kind {
        SymbolKind::Signal(s) => assert_eq!(s.kind, SignalKind::Intermediate),
        _ => panic!("expected signal"),
    }
}

#[test]
fn tracks_variables_and_components() {
    let table = parse_and_index(
        r#"
            template Circuit() {
                var x = 5;
                component hasher = Poseidon(2);
            }
            "#,
        "main.circom",
    );

    let scope = table.file_scope("main.circom").unwrap();
    let tmpl = table.lookup(scope, "Circuit").unwrap();
    let body_scope = match &tmpl.kind {
        SymbolKind::Template(t) => t.body_scope,
        _ => panic!("expected template"),
    };

    let x = table.lookup(body_scope, "x").unwrap();
    assert!(matches!(x.kind, SymbolKind::Variable));

    let h = table.lookup(body_scope, "hasher").unwrap();
    match &h.kind {
        SymbolKind::Component(c) => {
            assert_eq!(c.template_name.as_deref(), Some("Poseidon"));
        }
        _ => panic!("expected component"),
    }
}

#[test]
fn tracks_parameters() {
    let table = parse_and_index(
        r#"
            template T(a, b) {
                signal output c;
            }
            "#,
        "main.circom",
    );

    let scope = table.file_scope("main.circom").unwrap();
    let tmpl = table.lookup(scope, "T").unwrap();
    let body_scope = match &tmpl.kind {
        SymbolKind::Template(t) => t.body_scope,
        _ => panic!("expected template"),
    };

    let a = table.lookup(body_scope, "a").unwrap();
    assert!(matches!(a.kind, SymbolKind::Parameter));

    let b = table.lookup(body_scope, "b").unwrap();
    assert!(matches!(b.kind, SymbolKind::Parameter));
}

// ── Scope resolution ────────────────────────────────────────────

#[test]
fn scope_resolution_inner_shadows_outer() {
    let table = parse_and_index(
        r#"
            template T() {
                var x = 1;
                for (var i = 0; i < 10; i++) {
                    var x = 2;
                }
            }
            "#,
        "main.circom",
    );

    // The outer x is in template scope, the inner x is in for-block scope.
    // Both should exist without error (shadowing is allowed).
    let scope = table.file_scope("main.circom").unwrap();
    let tmpl = table.lookup(scope, "T").unwrap();
    let body_scope = match &tmpl.kind {
        SymbolKind::Template(t) => t.body_scope,
        _ => panic!("expected template"),
    };

    // The template scope has x.
    let x = table.scopes.lookup_local(body_scope, "x");
    assert!(x.is_some());

    // There should be a block scope child with its own x.
    let children = &table.scopes.get(body_scope).children;
    assert!(!children.is_empty());
    let block_scope = children[0];
    let inner_x = table.scopes.lookup_local(block_scope, "x");
    assert!(inner_x.is_some());

    // The inner x's symbol ID should be different from the outer x's.
    let outer_ids = x.unwrap();
    let inner_ids = inner_x.unwrap();
    assert_ne!(outer_ids[0], inner_ids[0]);
}

#[test]
fn block_scope_variable_not_visible_outside() {
    let table = parse_and_index(
        r#"
            template T() {
                for (var i = 0; i < 10; i++) {
                    var inner = 1;
                }
            }
            "#,
        "main.circom",
    );

    let scope = table.file_scope("main.circom").unwrap();
    let tmpl = table.lookup(scope, "T").unwrap();
    let body_scope = match &tmpl.kind {
        SymbolKind::Template(t) => t.body_scope,
        _ => panic!("expected template"),
    };

    // "inner" should NOT be visible in the template scope.
    assert!(table.scopes.lookup_local(body_scope, "inner").is_none());

    // But "i" declared in the for-init should be in the block scope.
    let children = &table.scopes.get(body_scope).children;
    let block_scope = children[0];
    assert!(table.scopes.lookup_local(block_scope, "i").is_some());
    assert!(table.scopes.lookup_local(block_scope, "inner").is_some());
}

// ── Cross-file resolution via includes ──────────────────────────

#[test]
fn cross_file_resolution_via_includes() {
    let mut table = SymbolTable::new();

    // Index the library file.
    let (lib_ast, _) = parser::parse(
        r#"
            template Poseidon(nInputs) {
                signal input inputs[nInputs];
                signal output out;
            }
            "#,
    );
    table.index_file("poseidon.circom", &lib_ast);

    // Index the main file that includes the library.
    let (main_ast, _) = parser::parse(
        r#"
            include "poseidon.circom";
            template Main() {
                signal input a;
                component h = Poseidon(1);
            }
            "#,
    );
    table.index_file("main.circom", &main_ast);

    // Lookup Poseidon from main.circom's file scope with includes.
    let main_scope = table.file_scope("main.circom").unwrap();
    let sym = table
        .lookup_with_includes(main_scope, "Poseidon", "main.circom")
        .unwrap();
    assert_eq!(sym.name, "Poseidon");
    assert!(matches!(&sym.kind, SymbolKind::Template(_)));
}

// ── Qualified name resolution ───────────────────────────────────

#[test]
fn qualified_name_resolution_component_signal() {
    let mut table = SymbolTable::new();

    let (ast, _) = parser::parse(
        r#"
            template Inner() {
                signal input x;
                signal output y;
                y <== x;
            }
            template Outer() {
                component c = Inner();
            }
            "#,
    );
    table.index_file("main.circom", &ast);

    let scope = table.file_scope("main.circom").unwrap();
    let outer = table.lookup(scope, "Outer").unwrap();
    let body_scope = match &outer.kind {
        SymbolKind::Template(t) => t.body_scope,
        _ => panic!("expected template"),
    };

    // Resolve c.x
    let resolved = table
        .resolve_qualified(body_scope, &["c", "x"], "main.circom")
        .unwrap();
    assert_eq!(resolved.name, "x");
    match &resolved.kind {
        SymbolKind::Signal(s) => assert_eq!(s.kind, SignalKind::Input),
        _ => panic!("expected signal"),
    }

    // Resolve c.y
    let resolved = table
        .resolve_qualified(body_scope, &["c", "y"], "main.circom")
        .unwrap();
    assert_eq!(resolved.name, "y");
}

#[test]
fn qualified_name_resolution_bus_field() {
    let mut table = SymbolTable::new();

    let (ast, _) = parser::parse(
        r#"
            pragma circom 2.2.0;
            bus Point() {
                signal input x;
                signal input y;
            }
            "#,
    );
    table.index_file("main.circom", &ast);

    let scope = table.file_scope("main.circom").unwrap();

    // Resolve Point's fields directly (bus itself as first segment).
    let resolved = table
        .resolve_qualified(scope, &["Point", "x"], "main.circom")
        .unwrap();
    assert_eq!(resolved.name, "x");
}

// ── Duplicate symbol detection ──────────────────────────────────

#[test]
fn detects_duplicate_template() {
    let table = parse_and_index(
        r#"
            template Foo() { signal input x; }
            template Foo() { signal input y; }
            "#,
        "main.circom",
    );

    let dups: Vec<_> = table
        .diagnostics()
        .iter()
        .filter(|d| d.kind == DiagnosticKind::DuplicateSymbol)
        .collect();
    assert_eq!(dups.len(), 1);
    assert!(dups[0].message.contains("Foo"));
}

#[test]
fn detects_duplicate_variable_in_same_scope() {
    let table = parse_and_index(
        r#"
            template T() {
                var x = 1;
                var x = 2;
            }
            "#,
        "main.circom",
    );

    let dups: Vec<_> = table
        .diagnostics()
        .iter()
        .filter(|d| d.kind == DiagnosticKind::DuplicateSymbol)
        .collect();
    assert_eq!(dups.len(), 1);
    assert!(dups[0].message.contains("x"));
}

// ── Undeclared symbol detection ─────────────────────────────────

#[test]
fn detects_undeclared_symbol() {
    let (ast, _) = parser::parse(
        r#"
            template T() {
                signal output c;
                c <== undefined_var;
            }
            "#,
    );
    let mut table = SymbolTable::new();
    table.index_file("main.circom", &ast);
    table.check_undeclared("main.circom", &ast);

    let undecl: Vec<_> = table
        .diagnostics()
        .iter()
        .filter(|d| d.kind == DiagnosticKind::UndeclaredSymbol)
        .collect();
    assert_eq!(undecl.len(), 1);
    assert!(undecl[0].message.contains("undefined_var"));
}

#[test]
fn no_false_positive_for_block_scoped_symbols() {
    let (ast, _) = parser::parse(
        r#"
            template T(n) {
                for (var i = 0; i < n; i++) {
                    var x = i;
                }
                if (n > 0) {
                    var y = n;
                }
                while (n > 0) {
                    var z = n;
                }
            }
            "#,
    );
    let mut table = SymbolTable::new();
    table.index_file("main.circom", &ast);
    table.check_undeclared("main.circom", &ast);

    let undecl: Vec<_> = table
        .diagnostics()
        .iter()
        .filter(|d| d.kind == DiagnosticKind::UndeclaredSymbol)
        .collect();
    assert!(
        undecl.is_empty(),
        "unexpected undeclared diagnostics: {undecl:?}"
    );
}

#[test]
fn no_false_positive_for_declared_symbols() {
    let (ast, _) = parser::parse(
        r#"
            template T() {
                signal input a;
                signal output b;
                b <== a;
            }
            "#,
    );
    let mut table = SymbolTable::new();
    table.index_file("main.circom", &ast);
    table.check_undeclared("main.circom", &ast);

    let undecl: Vec<_> = table
        .diagnostics()
        .iter()
        .filter(|d| d.kind == DiagnosticKind::UndeclaredSymbol)
        .collect();
    assert!(
        undecl.is_empty(),
        "unexpected undeclared diagnostics: {undecl:?}"
    );
}

// ── Incremental update ──────────────────────────────────────────

#[test]
fn incremental_update_replaces_file_symbols() {
    let mut table = SymbolTable::new();

    // Index version 1.
    let (ast1, _) = parser::parse(
        r#"
            template Foo() { signal input x; }
            "#,
    );
    table.index_file("main.circom", &ast1);

    let scope = table.file_scope("main.circom").unwrap();
    assert!(table.lookup(scope, "Foo").is_some());

    // Index version 2 (renamed template).
    let (ast2, _) = parser::parse(
        r#"
            template Bar() { signal input y; }
            "#,
    );
    table.index_file("main.circom", &ast2);

    let scope = table.file_scope("main.circom").unwrap();
    assert!(table.lookup(scope, "Bar").is_some());
    // Old symbol "Foo" should no longer be reachable.
    assert!(table.lookup(scope, "Foo").is_none());
}

#[test]
fn incremental_update_other_file_unaffected() {
    let mut table = SymbolTable::new();

    let (ast_a, _) = parser::parse(r#"template A() { signal input x; }"#);
    table.index_file("a.circom", &ast_a);

    let (ast_b, _) = parser::parse(r#"template B() { signal input y; }"#);
    table.index_file("b.circom", &ast_b);

    // Re-index file a.
    let (ast_a2, _) = parser::parse(r#"template A2() { signal input z; }"#);
    table.index_file("a.circom", &ast_a2);

    // File b's symbols should be unaffected.
    let scope_b = table.file_scope("b.circom").unwrap();
    let b = table.lookup(scope_b, "B").unwrap();
    assert_eq!(b.name, "B");

    // File a should have A2, not A.
    let scope_a = table.file_scope("a.circom").unwrap();
    assert!(table.lookup(scope_a, "A2").is_some());
    assert!(table.lookup(scope_a, "A").is_none());
}

#[test]
fn remove_file_preserves_other_file_diagnostics() {
    let mut table = SymbolTable::new();

    // Index file a with a duplicate symbol.
    let (ast_a, _) = parser::parse(
        r#"
            template Foo() { signal input x; }
            template Foo() { signal input y; }
            "#,
    );
    table.index_file("a.circom", &ast_a);

    // Index file b with a duplicate symbol.
    let (ast_b, _) = parser::parse(
        r#"
            template Bar() { signal input x; }
            template Bar() { signal input y; }
            "#,
    );
    table.index_file("b.circom", &ast_b);

    assert_eq!(table.diagnostics().len(), 2);

    // Remove file a — file b's diagnostic should remain.
    table.remove_file("a.circom");

    assert_eq!(table.diagnostics().len(), 1);
    assert!(table.diagnostics()[0].message.contains("Bar"));
    assert_eq!(table.diagnostics()[0].file, "b.circom");
}

// ── Bus fields in bus scope ─────────────────────────────────────

#[test]
fn bus_fields_in_scope() {
    let table = parse_and_index(
        r#"
            pragma circom 2.2.0;
            bus Point() {
                signal input x;
                signal input y;
            }
            "#,
        "main.circom",
    );

    let scope = table.file_scope("main.circom").unwrap();
    let point = table.lookup(scope, "Point").unwrap();
    let body_scope = match &point.kind {
        SymbolKind::Bus(b) => b.body_scope,
        _ => panic!("expected bus"),
    };

    assert!(table.scopes.lookup_local(body_scope, "x").is_some());
    assert!(table.scopes.lookup_local(body_scope, "y").is_some());
}

// ── Signal tags ─────────────────────────────────────────────────

#[test]
fn signal_tags_tracked() {
    let table = parse_and_index(
        r#"
            template T() {
                signal input {binary} x;
            }
            "#,
        "main.circom",
    );

    let scope = table.file_scope("main.circom").unwrap();
    let tmpl = table.lookup(scope, "T").unwrap();
    let body_scope = match &tmpl.kind {
        SymbolKind::Template(t) => t.body_scope,
        _ => panic!("expected template"),
    };

    let x = table.lookup(body_scope, "x").unwrap();
    match &x.kind {
        SymbolKind::Signal(s) => {
            assert_eq!(s.tags, vec!["binary"]);
        }
        _ => panic!("expected signal"),
    }
}

// ── Transitive include resolution ──────────────────────────────

#[test]
fn transitive_include_resolution() {
    let mut table = SymbolTable::new();

    // C defines a template.
    let (ast_c, _) = parser::parse(r#"template Leaf() { signal input x; }"#);
    table.index_file("c.circom", &ast_c);

    // B includes C.
    let (ast_b, _) = parser::parse(
        r#"
            include "c.circom";
            template Middle() { signal input y; }
            "#,
    );
    table.index_file("b.circom", &ast_b);

    // A includes B (but not C directly).
    let (ast_a, _) = parser::parse(
        r#"
            include "b.circom";
            template Top() { signal input z; }
            "#,
    );
    table.index_file("a.circom", &ast_a);

    let scope_a = table.file_scope("a.circom").unwrap();

    // A can see B's symbols (direct include).
    let middle = table
        .lookup_with_includes(scope_a, "Middle", "a.circom")
        .unwrap();
    assert_eq!(middle.name, "Middle");

    // A can see C's symbols (transitive include via B).
    let leaf = table
        .lookup_with_includes(scope_a, "Leaf", "a.circom")
        .unwrap();
    assert_eq!(leaf.name, "Leaf");
}

#[test]
fn circular_include_detection() {
    let mut table = SymbolTable::new();

    // A includes B.
    let (ast_a, _) = parser::parse(
        r#"
            include "b.circom";
            template A() { signal input x; }
            "#,
    );
    table.index_file("a.circom", &ast_a);

    // B includes A.
    let (ast_b, _) = parser::parse(
        r#"
            include "a.circom";
            template B() { signal input y; }
            "#,
    );
    table.index_file("b.circom", &ast_b);

    let cycle = table.detect_circular_includes();
    assert!(cycle.is_some(), "expected circular include");
    let cycle = cycle.unwrap();
    // Cycle should contain both files.
    assert!(cycle.contains(&"a.circom".to_string()));
    assert!(cycle.contains(&"b.circom".to_string()));
}

#[test]
fn no_cycle_in_acyclic_graph() {
    let mut table = SymbolTable::new();

    let (ast_c, _) = parser::parse(r#"template C() { signal input x; }"#);
    table.index_file("c.circom", &ast_c);

    let (ast_b, _) = parser::parse(
        r#"
            include "c.circom";
            template B() { signal input y; }
            "#,
    );
    table.index_file("b.circom", &ast_b);

    let (ast_a, _) = parser::parse(
        r#"
            include "b.circom";
            template A() { signal input z; }
            "#,
    );
    table.index_file("a.circom", &ast_a);

    assert!(table.detect_circular_includes().is_none());
}

#[test]
fn diamond_dependency() {
    let mut table = SymbolTable::new();

    // D is at the bottom.
    let (ast_d, _) = parser::parse(r#"template D() { signal input w; }"#);
    table.index_file("d.circom", &ast_d);

    // B and C both include D.
    let (ast_b, _) = parser::parse(
        r#"
            include "d.circom";
            template B() { signal input x; }
            "#,
    );
    table.index_file("b.circom", &ast_b);

    let (ast_c, _) = parser::parse(
        r#"
            include "d.circom";
            template C() { signal input y; }
            "#,
    );
    table.index_file("c.circom", &ast_c);

    // A includes both B and C.
    let (ast_a, _) = parser::parse(
        r#"
            include "b.circom";
            include "c.circom";
            template A() { signal input z; }
            "#,
    );
    table.index_file("a.circom", &ast_a);

    let scope_a = table.file_scope("a.circom").unwrap();

    // A can see D's symbol through both B and C.
    let d = table
        .lookup_with_includes(scope_a, "D", "a.circom")
        .unwrap();
    assert_eq!(d.name, "D");

    // No circular dependency in a diamond.
    assert!(table.detect_circular_includes().is_none());
}

#[test]
fn transitive_includes_closure() {
    let mut table = SymbolTable::new();

    let (ast_c, _) = parser::parse(r#"template C() { signal input x; }"#);
    table.index_file("c.circom", &ast_c);

    let (ast_b, _) = parser::parse(
        r#"
            include "c.circom";
            template B() { signal input y; }
            "#,
    );
    table.index_file("b.circom", &ast_b);

    let (ast_a, _) = parser::parse(
        r#"
            include "b.circom";
            template A() { signal input z; }
            "#,
    );
    table.index_file("a.circom", &ast_a);

    let closure = table.transitive_includes("a.circom");
    assert!(closure.contains(&"b.circom".to_string()));
    assert!(closure.contains(&"c.circom".to_string()));
    assert_eq!(closure.len(), 2);
}

#[test]
fn included_by_reverse_lookup() {
    let mut table = SymbolTable::new();

    let (ast_lib, _) = parser::parse(r#"template Lib() { signal input x; }"#);
    table.index_file("lib.circom", &ast_lib);

    let (ast_a, _) = parser::parse(
        r#"
            include "lib.circom";
            template A() { signal input y; }
            "#,
    );
    table.index_file("a.circom", &ast_a);

    let (ast_b, _) = parser::parse(
        r#"
            include "lib.circom";
            template B() { signal input z; }
            "#,
    );
    table.index_file("b.circom", &ast_b);

    let mut dependents = table.included_by("lib.circom");
    dependents.sort();
    assert_eq!(dependents, vec!["a.circom", "b.circom"]);
}

#[test]
fn topological_order_acyclic() {
    let mut table = SymbolTable::new();

    let (ast_c, _) = parser::parse(r#"template C() { signal input x; }"#);
    table.index_file("c.circom", &ast_c);

    let (ast_b, _) = parser::parse(
        r#"
            include "c.circom";
            template B() { signal input y; }
            "#,
    );
    table.index_file("b.circom", &ast_b);

    let (ast_a, _) = parser::parse(
        r#"
            include "b.circom";
            template A() { signal input z; }
            "#,
    );
    table.index_file("a.circom", &ast_a);

    let order = table.topological_order().unwrap();
    // c should come before b, and b before a.
    let pos_c = order.iter().position(|f| f == "c.circom").unwrap();
    let pos_b = order.iter().position(|f| f == "b.circom").unwrap();
    let pos_a = order.iter().position(|f| f == "a.circom").unwrap();
    assert!(pos_c < pos_b);
    assert!(pos_b < pos_a);
}

#[test]
fn topological_order_returns_none_on_cycle() {
    let mut table = SymbolTable::new();

    let (ast_a, _) = parser::parse(
        r#"
            include "b.circom";
            template A() { signal input x; }
            "#,
    );
    table.index_file("a.circom", &ast_a);

    let (ast_b, _) = parser::parse(
        r#"
            include "a.circom";
            template B() { signal input y; }
            "#,
    );
    table.index_file("b.circom", &ast_b);

    assert!(table.topological_order().is_none());
}

#[test]
fn transitive_lookup_does_not_loop_on_cycle() {
    let mut table = SymbolTable::new();

    // A includes B, B includes A — circular.
    let (ast_a, _) = parser::parse(
        r#"
            include "b.circom";
            template A() { signal input x; }
            "#,
    );
    table.index_file("a.circom", &ast_a);

    let (ast_b, _) = parser::parse(
        r#"
            include "a.circom";
            template B() { signal input y; }
            "#,
    );
    table.index_file("b.circom", &ast_b);

    let scope_a = table.file_scope("a.circom").unwrap();

    // Should still resolve B (direct include).
    let b = table
        .lookup_with_includes(scope_a, "B", "a.circom")
        .unwrap();
    assert_eq!(b.name, "B");

    // Should not hang looking for a nonexistent symbol.
    assert!(table
        .lookup_with_includes(scope_a, "Nonexistent", "a.circom")
        .is_none());
}

#[test]
fn included_by_keeps_indexing_order() {
    let mut table = SymbolTable::new();
    let (b, _) = parser::parse("include \"lib.circom\";\ntemplate B() { signal input z; }");
    table.index_file("b.circom", &b);
    let (c, _) = parser::parse("template C() { signal input w; }");
    table.index_file("c.circom", &c);
    let (a, _) = parser::parse("include \"lib.circom\";\ntemplate A() { signal input y; }");
    table.index_file("a.circom", &a);
    assert_eq!(table.included_by("lib.circom"), vec!["b.circom", "a.circom"]);
    assert!(table.included_by("c.circom").is_empty());
}

#[test]
fn duplicate_function_reported_once_per_repeat() {
    let mut table = SymbolTable::new();
    let (ast, _) = parser::parse("function f() { return 1; }\nfunction f() { return 2; }\nfunction f() { return 3; }");
    table.index_file("main.circom", &ast);
    let diags = table.diagnostics();
    assert_eq!(diags.len(), 2);
    assert!(diags.iter().all(|d| matches!(d.kind, DiagnosticKind::DuplicateSymbol)));
}

#[test]
fn repeated_include_leaves_no_order_without_cycle() {
    let mut table = SymbolTable::new();
    let (c, _) = parser::parse("template C() { signal input x; }");
    table.index_file("c.circom", &c);
    let (a, _) = parser::parse("include \"c.circom\";\ninclude \"c.circom\";\ntemplate A() { signal input y; }");
    table.index_file("a.circom", &a);
    assert!(table.detect_circular_includes().is_none());
    assert!(table.topological_order().is_none());
}

#[test]
fn cycle_found_and_no_order() {
    let mut table = SymbolTable::new();
    let (a, _) = parser::parse("include \"b.circom\";\ntemplate A() { signal input y; }");
    table.index_file("a.circom", &a);
    let (b, _) = parser::parse("include \"a.circom\";\ntemplate B() { signal input z; }");
    table.index_file("b.circom", &b);
    let cycle = table.detect_circular_includes().unwrap();
    assert!(cycle.len() >= 2);
    assert_eq!(cycle.first(), cycle.last());
    assert!(table.topological_order().is_none());
}

#[test]
fn transitive_includes_breadth_first_order() {
    let mut table = SymbolTable::new();
    let (a, _) = parser::parse("include \"b.circom\";\ninclude \"c.circom\";\ntemplate A() { signal input x; }");
    table.index_file("a.circom", &a);
    let (b, _) = parser::parse("include \"d.circom\";\ntemplate B() { signal input x; }");
    table.index_file("b.circom", &b);
    let (c, _) = parser::parse("include \"e.circom\";\ninclude \"b.circom\";\ntemplate C() { signal input x; }");
    table.index_file("c.circom", &c);
    assert_eq!(
        table.transitive_includes("a.circom"),
        vec!["b.circom", "c.circom", "d.circom", "e.circom"]
    );
}
