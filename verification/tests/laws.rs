use cinccino::constraint_checker::Degree;
use cinccino::server::code_action::change_unsafe_assign_action;
use cinccino::server::document::{ContentChange, DocPosition, DocumentStore};
use cinccino::server::rename::find_identifier_edits;
use cinccino::span::{LineIndex, Span};
use cinccino::ast::{File, Include, Item};
use cinccino::incremental::{IncrementalParser, TextEdit};
use cinccino::parser;
use cinccino::symbol_table::SymbolTable;

#[test]
fn merge_covers_both_and_is_symmetric() {
    let a = Span::new(3, 7);
    let b = Span::new(5, 12);
    let ab = a.merge(b);
    let ba = b.merge(a);
    assert_eq!(ab, ba);
    assert_eq!(ab, Span::new(3, 12));
    assert_eq!(a.merge(a), a);
    let c = Span::new(0, 4);
    assert_eq!(a.merge(b).merge(c), a.merge(b.merge(c)));
}

#[test]
fn line_col_then_offset_round_trips() {
    let text = "line one\n\nthird line\nend";
    let idx = LineIndex::new(text);
    for o in 0..=text.len() {
        let lc = idx.line_col(o).unwrap();
        assert_eq!(idx.offset(lc.line as usize, lc.col as usize), Some(o));
    }
}

#[test]
fn line_col_is_monotone() {
    let text = "ab\ncd\n\nefg";
    let idx = LineIndex::new(text);
    let mut prev = idx.line_col(0).unwrap();
    for o in 1..=text.len() {
        let lc = idx.line_col(o).unwrap();
        assert!(prev.line < lc.line || (prev.line == lc.line && prev.col <= lc.col));
        prev = lc;
    }
}

#[test]
fn rename_edits_land_on_whole_words_outside_strings_and_comments() {
    let text = "template Foo() { log(\"Foo\"); /* Foo */ Foo; FooBar; }";
    let edits = find_identifier_edits(text, "Foo", "Bar");
    assert_eq!(edits.len(), 2);
    for e in &edits {
        assert_eq!(&text[e.offset..e.offset + 3], "Foo");
    }
}

#[test]
fn unsafe_assign_fix_replaces_the_arrow() {
    let text = "template T() {\n    b <-- a;\n}\n";
    let fix = change_unsafe_assign_action(text, true, 1, 0, 1, 12).unwrap();
    assert_eq!(&text[fix.start_offset..fix.end_offset], "<--");
    assert_eq!(fix.new_text, "<==");
}

#[test]
fn reading_a_document_gives_back_what_was_written() {
    let mut store = DocumentStore::new();
    store.open("u".to_string(), 1, "abc".to_string());
    assert_eq!(store.get_text("u"), Some("abc".to_string()));
    // An empty change that replaces nothing keeps the text.
    store.apply_changes(
        "u",
        2,
        vec![ContentChange {
            range: Some((DocPosition { line: 0, character: 1 }, DocPosition { line: 0, character: 1 })),
            text: String::new(),
        }],
    );
    assert_eq!(store.get_text("u"), Some("abc".to_string()));
    // A change without a range replaces everything.
    store.apply_changes("u", 3, vec![ContentChange { range: None, text: "xyz".to_string() }]);
    assert_eq!(store.get_text("u"), Some("xyz".to_string()));
    assert_eq!(store.get_version("u"), Some(3));
    store.close("u");
    assert_eq!(store.get_text("u"), None);
}

#[test]
fn include_closure_is_closed() {
    let mut table = SymbolTable::new();
    let (a, _) = parser::parse("include \"b.circom\";\n");
    let (b, _) = parser::parse("include \"c.circom\";\ninclude \"a.circom\";\n");
    let (c, _) = parser::parse("");
    table.index_file("a.circom", &a);
    table.index_file("b.circom", &b);
    table.index_file("c.circom", &c);
    let reach = table.transitive_includes("a.circom");
    assert_eq!(reach, vec!["b.circom".to_string(), "c.circom".to_string()]);
    for f in &reach {
        for g in table.transitive_includes(f) {
            assert!(g == "a.circom" || reach.contains(&g));
        }
    }
}

#[test]
fn degrees_add_under_multiplication() {
    assert_eq!(Degree::Linear.mul(Degree::Linear), Degree::Quadratic);
    assert_eq!(Degree::Linear.mul(Degree::Quadratic), Degree::NonQuadratic);
    assert_eq!(Degree::Quadratic.mul(Degree::Linear), Degree::NonQuadratic);
    assert_eq!(Degree::Constant.mul(Degree::Quadratic), Degree::Quadratic);
    assert_eq!(Degree::Linear.combined(Degree::Quadratic), Degree::Quadratic);
    assert_eq!(Degree::Quadratic.combined(Degree::Linear), Degree::Quadratic);
}

#[test]
fn inner_bindings_shadow_outer_ones() {
    let src = "template x() { var x = 1; }";
    let (ast, errors) = parser::parse(src);
    assert!(errors.is_empty());
    let mut table = SymbolTable::new();
    table.index_file("main.circom", &ast);
    let file_scope = table.file_scope("main.circom").unwrap();
    let t = table.lookup(file_scope, "x").unwrap().clone();
    let body = match &t.kind {
        cinccino::symbol::SymbolKind::Template(t) => t.body_scope,
        _ => panic!("expected template"),
    };
    let inner = table.lookup(body, "x").unwrap();
    assert!(matches!(inner.kind, cinccino::symbol::SymbolKind::Variable));
}

#[test]
fn include_order_and_cycle_exclude_each_other() {
    let mut table = SymbolTable::new();
    let (a, _) = parser::parse("include \"b.circom\";\ntemplate A() {}");
    let (b, _) = parser::parse("include \"c.circom\";\ntemplate B() {}");
    let (c, _) = parser::parse("template C() {}");
    table.index_file("a.circom", &a);
    table.index_file("b.circom", &b);
    table.index_file("c.circom", &c);
    let order = table.topological_order().unwrap();
    assert_eq!(order, vec!["c.circom".to_string(), "b.circom".to_string(), "a.circom".to_string()]);
    assert!(table.detect_circular_includes().is_none());

    let (c2, _) = parser::parse("include \"a.circom\";\ntemplate C() {}");
    table.index_file("c.circom", &c2);
    assert!(table.topological_order().is_none());
    let cycle = table.detect_circular_includes().unwrap();
    assert!(cycle.len() >= 2);
    assert_eq!(cycle.first(), cycle.last());
    for w in cycle.windows(2) {
        let incs = table.includes(&w[0]).unwrap();
        assert!(incs.iter().any(|i| i == &w[1]));
    }
}

#[test]
fn printing_renders_the_canonical_text() {
    let (file, errors) = parser::parse(
        "pragma circom 2.1.6;\ntemplate T(n) {\n  signal input x[n];\n  log(\"v\", x[0]);\n  for (var i = 0; i < n; i++) { x[i] === 0; }\n}\n",
    );
    assert!(errors.is_empty());
    assert_eq!(
        file.to_string(),
        "pragma circom 2.1.6;\n\ntemplate T(n) {\n    signal input x[n];\n    log(\"v\", x[0]);\n    for (var i = 0; i < n; i++) {\n        x[i] === 0;\n    }\n}\n"
    );
}

#[test]
fn printing_escapes_string_contents() {
    let file = File {
        span: Span::new(0, 0),
        items: vec![Item::Include(Include { span: Span::new(0, 0), path: "a\"b\\c\n\td".to_string() })],
    };
    assert_eq!(file.to_string(), "include \"a\\\"b\\\\c\\n\\td\";\n");
}

#[test]
fn update_keeps_items_before_and_moves_items_after_the_edit() {
    let old_src = "function a() { return 1; }\nfunction b() { return 2; }\nfunction c() { return 3; }\n";
    let new_src = "function a() { return 1; }\nfunction b() { return 22; }\nfunction c() { return 3; }\n";
    let (before, _) = parser::parse(old_src);
    let mut inc = IncrementalParser::parse(old_src);
    let start = old_src.find("return 2").unwrap() + "return ".len();
    let (after, _) = inc.update(new_src, &TextEdit { start, removed: 1, inserted: 2 });
    assert_eq!(after.items.len(), 3);
    assert_eq!(cinccino::ast::item_span(&after.items[0]), cinccino::ast::item_span(&before.items[0]));
    let old_c = cinccino::ast::item_span(&before.items[2]);
    let new_c = cinccino::ast::item_span(&after.items[2]);
    assert_eq!(new_c, Span::new(old_c.start + 1, old_c.end + 1));
    assert_eq!(after, parser::parse(new_src).0);
}
