use cinccino::incremental::{IncrementalParser, TextEdit};
use cinccino::ast::{Block, BusDef, ComponentDecl, Expression, File, IfElse, Include, MainComponent, SignalDecl, TemplateDef, VarDecl, item_span};
use cinccino::parser::{ParseError, parse};
/// Helper: parse with full parser, return items for comparison.
fn full_parse(source: &str) -> (File, Vec<ParseError>) {
    cinccino::parser::parse(source)
}

#[test]
fn initial_parse_matches_full_parser() {
    let src = r#"pragma circom "2.2.3";
template Foo(n) { signal input a; }
function bar() { return 1; }
"#;
    let inc = IncrementalParser::parse(src);
    let (inc_file, inc_errors) = inc.to_file_and_errors(src);
    let (full_file, full_errors) = full_parse(src);
    assert_eq!(inc_file, full_file);
    assert_eq!(inc_errors, full_errors);
    assert_eq!(inc.item_count(), 3);
}

#[test]
fn edit_inside_single_item_body() {
    let old_src = r#"pragma circom "2.2.3";
template Foo(n) { signal input a; }
function bar() { return 1; }
"#;
    let new_src = r#"pragma circom "2.2.3";
template Foo(n) { signal input a; signal output b; }
function bar() { return 1; }
"#;
    let mut inc = IncrementalParser::parse(old_src);
    // The edit inserts " signal output b;" inside the template body.
    // Old template body ends at the `}` before `\nfunction`.
    // Find the edit position: after "signal input a;" insert " signal output b;"
    let edit_pos = old_src.find("signal input a; }").unwrap() + "signal input a; ".len();
    let edit = TextEdit {
        start: edit_pos,
        removed: 0,
        inserted: "signal output b; ".len(),
    };

    let (inc_file, _) = inc.update(new_src, &edit);
    let (full_file, _) = full_parse(new_src);
    assert_eq!(inc_file, full_file);
}

#[test]
fn edit_replaces_text_inside_function() {
    let old_src = "function foo() { return 1; }\nfunction bar() { return 2; }\n";
    let new_src = "function foo() { return 42; }\nfunction bar() { return 2; }\n";

    let mut inc = IncrementalParser::parse(old_src);
    // Replace "1" with "42" inside foo's return.
    let edit_start = old_src.find("return 1").unwrap() + "return ".len();
    let edit = TextEdit {
        start: edit_start,
        removed: 1,  // "1"
        inserted: 2, // "42"
    };

    let (inc_file, _) = inc.update(new_src, &edit);
    let (full_file, _) = full_parse(new_src);
    assert_eq!(inc_file, full_file);
}

#[test]
fn edit_in_whitespace_between_items() {
    let old_src = "pragma circom \"2.2.3\";\n\nfunction foo() { return 1; }\n";
    // Insert a new template between pragma and function.
    let new_src = "pragma circom \"2.2.3\";\ntemplate T() {}\nfunction foo() { return 1; }\n";

    let mut inc = IncrementalParser::parse(old_src);
    let edit_start = old_src.find("\n\n").unwrap() + 1; // after first newline
    let edit = TextEdit {
        start: edit_start,
        removed: 1, // the second newline
        inserted: "template T() {}\n".len(),
    };

    let (inc_file, _) = inc.update(new_src, &edit);
    let (full_file, _) = full_parse(new_src);
    assert_eq!(inc_file, full_file);
}

#[test]
fn spans_shift_correctly_after_edit() {
    let old_src = "function a() { return 1; }\nfunction b() { return 2; }\n";
    // Insert characters into function a, making it longer.
    let new_src = "function aaa() { return 1; }\nfunction b() { return 2; }\n";

    let mut inc = IncrementalParser::parse(old_src);
    let edit_start = old_src.find(" a(").unwrap() + 1;
    let edit = TextEdit {
        start: edit_start,
        removed: 1,  // "a"
        inserted: 3, // "aaa"
    };

    let (inc_file, _) = inc.update(new_src, &edit);
    let (full_file, _) = full_parse(new_src);
    assert_eq!(inc_file, full_file);
}

#[test]
fn delete_an_entire_item() {
    let old_src = "pragma circom \"2.2.3\";\ntemplate T() {}\nfunction f() { return 0; }\n";
    let new_src = "pragma circom \"2.2.3\";\nfunction f() { return 0; }\n";

    let mut inc = IncrementalParser::parse(old_src);
    let template_start = old_src.find("template").unwrap();
    let template_end = old_src.find("template T() {}").unwrap() + "template T() {}\n".len();
    let edit = TextEdit {
        start: template_start,
        removed: template_end - template_start,
        inserted: 0,
    };

    let (inc_file, _) = inc.update(new_src, &edit);
    let (full_file, _) = full_parse(new_src);
    assert_eq!(inc_file, full_file);
}

#[test]
fn empty_source() {
    let inc = IncrementalParser::parse("");
    assert_eq!(inc.item_count(), 0);
    let (file, errors) = inc.to_file_and_errors("");
    assert!(file.items.is_empty());
    assert!(errors.is_empty());
}

#[test]
fn multiple_edits_sequential() {
    let src1 = "function a() { return 1; }\n";
    let src2 = "function a() { return 2; }\n";
    let src3 = "function a() { return 2; }\nfunction b() { return 3; }\n";

    let mut inc = IncrementalParser::parse(src1);

    // Edit 1: change "1" to "2"
    let pos = src1.find("1;").unwrap();
    inc.update(
        src2,
        &TextEdit {
            start: pos,
            removed: 1,
            inserted: 1,
        },
    );

    // Edit 2: append function b
    let pos2 = src2.len();
    let (file, _) = inc.update(
        src3,
        &TextEdit {
            start: pos2,
            removed: 0,
            inserted: "function b() { return 3; }\n".len(),
        },
    );

    let (full_file, _) = full_parse(src3);
    assert_eq!(file, full_file);
}

#[test]
fn shift_template_with_various_statements() {
    // Template with many statement types after the edited item
    // exercises shift_item_spans(TemplateDef), shift_stmt for
    // VarDecl, SignalDecl, ComponentDecl, Assignment, ConstraintEq,
    // IfElse, For, While, Log, Assert, Return, and their child
    // expression variants.
    let old_src = "function f() { return 1; }\ntemplate T(n) {\n    signal input a;\n    signal output b;\n    var x = 0;\n    component h = Poseidon(2);\n    x = a + b;\n    b <== a * 2;\n    if (n > 0) { x = 1; } else { x = 2; }\n    for (var i = 0; i < n; i++) { x += 1; }\n    while (x > 0) { x -= 1; }\n    log(x);\n    assert(x == 0);\n}\n";
    let new_src = "function ff() { return 1; }\ntemplate T(n) {\n    signal input a;\n    signal output b;\n    var x = 0;\n    component h = Poseidon(2);\n    x = a + b;\n    b <== a * 2;\n    if (n > 0) { x = 1; } else { x = 2; }\n    for (var i = 0; i < n; i++) { x += 1; }\n    while (x > 0) { x -= 1; }\n    log(x);\n    assert(x == 0);\n}\n";

    let mut inc = IncrementalParser::parse(old_src);
    let edit_start = old_src.find(" f(").unwrap() + 1;
    let edit = TextEdit {
        start: edit_start,
        removed: 1,  // "f"
        inserted: 2, // "ff"
    };

    let (inc_file, inc_errors) = inc.update(new_src, &edit);
    let (full_file, full_errors) = full_parse(new_src);
    assert_eq!(inc_file, full_file);
    assert_eq!(inc_errors, full_errors);
}

#[test]
fn shift_bus_and_main_component() {
    // Bus definition and main component after the edited item
    // exercises shift_item_spans for BusDef and MainComponent,
    // plus shift_bus_member and shift_bus_type.
    let old_src = "pragma circom 2.2.0;\nfunction f() { return 1; }\nbus Point() {\n    signal input x;\n    signal input y;\n}\ntemplate Foo() { signal input a; }\ncomponent main { public [a] } = Foo();\n";
    let new_src = "pragma circom 2.2.0;\nfunction ff() { return 1; }\nbus Point() {\n    signal input x;\n    signal input y;\n}\ntemplate Foo() { signal input a; }\ncomponent main { public [a] } = Foo();\n";

    let mut inc = IncrementalParser::parse(old_src);
    let edit_start = old_src.find(" f(").unwrap() + 1;
    let edit = TextEdit {
        start: edit_start,
        removed: 1,  // "f"
        inserted: 2, // "ff"
    };

    let (inc_file, inc_errors) = inc.update(new_src, &edit);
    let (full_file, full_errors) = full_parse(new_src);
    assert_eq!(inc_file, full_file);
    assert_eq!(inc_errors, full_errors);
}

#[test]
fn shift_expressions_complex() {
    // Exercises shift_expr for Ternary, Index, Member, Call,
    // ArrayLit, Unary, Paren, and Binary variants.
    let old_src = "function f() { return 1; }\nfunction g(n) {\n    var a;\n    var b;\n    a = n > 0 ? 1 : 0;\n    b = (a + 1) * -n;\n    return a;\n}\n";
    let new_src = "function ff() { return 1; }\nfunction g(n) {\n    var a;\n    var b;\n    a = n > 0 ? 1 : 0;\n    b = (a + 1) * -n;\n    return a;\n}\n";

    let mut inc = IncrementalParser::parse(old_src);
    let edit_start = old_src.find(" f(").unwrap() + 1;
    let edit = TextEdit {
        start: edit_start,
        removed: 1,
        inserted: 2,
    };

    let (inc_file, inc_errors) = inc.update(new_src, &edit);
    let (full_file, full_errors) = full_parse(new_src);
    assert_eq!(inc_file, full_file);
    assert_eq!(inc_errors, full_errors);
}

#[test]
fn shift_tuple_assign_and_block_stmt() {
    // Exercises shift_stmt for TupleAssign, CompoundAssign,
    // Increment, Decrement, Block, and Expression statements.
    let old_src = "function f() { return 1; }\nfunction g() {\n    var a;\n    var b;\n    (a, b) = (1, 2);\n    a++;\n    b--;\n    a += 1;\n    { a = 0; }\n    return a;\n}\n";
    let new_src = "function ff() { return 1; }\nfunction g() {\n    var a;\n    var b;\n    (a, b) = (1, 2);\n    a++;\n    b--;\n    a += 1;\n    { a = 0; }\n    return a;\n}\n";

    let mut inc = IncrementalParser::parse(old_src);
    let edit_start = old_src.find(" f(").unwrap() + 1;
    let edit = TextEdit {
        start: edit_start,
        removed: 1,
        inserted: 2,
    };

    let (inc_file, inc_errors) = inc.update(new_src, &edit);
    let (full_file, full_errors) = full_parse(new_src);
    assert_eq!(inc_file, full_file);
    assert_eq!(inc_errors, full_errors);
}

#[test]
fn errors_preserved_across_items_after_edit() {
    // Template A has a syntax error; template B is valid.
    // Editing B should preserve A's error.
    let old_src = "template A() { signal input }\ntemplate B() { signal input b; }\n";
    let inc = IncrementalParser::parse(old_src);
    let (_, initial_errors) = inc.to_file_and_errors(old_src);
    assert!(
        !initial_errors.is_empty(),
        "template A should have a parse error"
    );

    // Edit template B: rename "b" to "bb" (no effect on A's error).
    let new_src = "template A() { signal input }\ntemplate B() { signal input bb; }\n";
    let mut inc = IncrementalParser::parse(old_src);
    let edit_start = old_src.find("input b;").unwrap() + "input ".len();
    let edit = TextEdit {
        start: edit_start,
        removed: 1,  // "b"
        inserted: 2, // "bb"
    };

    let (_, errors_after_edit) = inc.update(new_src, &edit);
    let (_, full_errors) = full_parse(new_src);
    assert_eq!(
        errors_after_edit, full_errors,
        "errors from unaffected items must be preserved after an edit to a different item"
    );
}

#[test]
fn span_shift_all_statement_types() {
    // First item is a pragma, second template has many statement types.
    // Editing the pragma causes span shifts in all statements of the template.
    let old_src = "pragma circom 2.0.0;\ntemplate T() {\n    var x = 1;\n    signal input a;\n    signal output b;\n    component c = Other();\n    b <== a;\n    x += 2;\n    a === b;\n    if (x) {\n        x = 2;\n    } else {\n        x = 3;\n    }\n    for (var i = 0; i < 10; i++) {\n        x = i;\n    }\n    while (x > 0) {\n        x--;\n    }\n    log(x);\n    assert(x == 0);\n    x++;\n    x;\n}\n";
    // Change pragma version: "2.0.0" -> "2.10.0" (insert 1 char)
    let new_src = old_src.replacen("2.0.0", "2.10.0", 1);

    let mut inc = IncrementalParser::parse(old_src);
    let edit_start = old_src.find("2.0.0").unwrap() + 2; // after "2."
    let edit = TextEdit {
        start: edit_start,
        removed: 1,  // "0"
        inserted: 2, // "10"
    };

    let (inc_file, inc_errors) = inc.update(&new_src, &edit);
    let (full_file, full_errors) = full_parse(&new_src);
    assert_eq!(inc_file, full_file);
    assert_eq!(inc_errors, full_errors);
}

#[test]
fn span_shift_expressions() {
    let old_src = "pragma circom 2.0.0;\ntemplate T() {\n    var x = 1 + 2;\n    var y = x > 0 ? x : 0;\n    var z = [1, 2, 3];\n    var w = z[0];\n    var v = -x;\n    var u = (x);\n}\n";
    let new_src = old_src.replacen("2.0.0", "2.10.0", 1);

    let mut inc = IncrementalParser::parse(old_src);
    let edit_start = old_src.find("2.0.0").unwrap() + 2;
    let edit = TextEdit {
        start: edit_start,
        removed: 1,
        inserted: 2,
    };

    let (inc_file, _) = inc.update(&new_src, &edit);
    let (full_file, _) = full_parse(&new_src);
    assert_eq!(inc_file, full_file);
}

#[test]
fn span_shift_member_and_call() {
    let old_src = "pragma circom 2.0.0;\ntemplate T() {\n    component c = Other();\n    var x = c.out;\n    var y = c.out + 1;\n}\n";
    let new_src = old_src.replacen("2.0.0", "2.10.0", 1);

    let mut inc = IncrementalParser::parse(old_src);
    let edit_start = old_src.find("2.0.0").unwrap() + 2;
    let edit = TextEdit {
        start: edit_start,
        removed: 1,
        inserted: 2,
    };

    let (inc_file, _) = inc.update(&new_src, &edit);
    let (full_file, _) = full_parse(&new_src);
    assert_eq!(inc_file, full_file);
}

#[test]
fn span_shift_for_step_variants() {
    let old_src = "pragma circom 2.0.0;\ntemplate T() {\n    for (var i = 10; i > 0; i--) {\n        var x = i;\n    }\n    for (var j = 0; j < 10; j += 2) {\n        var y = j;\n    }\n}\n";
    let new_src = old_src.replacen("2.0.0", "2.10.0", 1);

    let mut inc = IncrementalParser::parse(old_src);
    let edit_start = old_src.find("2.0.0").unwrap() + 2;
    let edit = TextEdit {
        start: edit_start,
        removed: 1,
        inserted: 2,
    };

    let (inc_file, _) = inc.update(&new_src, &edit);
    let (full_file, _) = full_parse(&new_src);
    assert_eq!(inc_file, full_file);
}

#[test]
fn span_shift_bus_and_anon_comp() {
    let old_src = "pragma circom 2.0.0;\nbus MyBus() {\n    signal input a;\n}\ntemplate T() {\n    signal input x;\n    signal output y;\n    y <== AnotherT()(x);\n}\n";
    let new_src = old_src.replacen("2.0.0", "2.10.0", 1);

    let mut inc = IncrementalParser::parse(old_src);
    let edit_start = old_src.find("2.0.0").unwrap() + 2;
    let edit = TextEdit {
        start: edit_start,
        removed: 1,
        inserted: 2,
    };

    let (inc_file, _) = inc.update(&new_src, &edit);
    let (full_file, _) = full_parse(&new_src);
    assert_eq!(inc_file, full_file);
}

#[test]
fn item_span_covers_all_variants() {
    // Test item_span for Include and MainComponent
    let src = "pragma circom 2.0.0;\ninclude \"lib.circom\";\ntemplate T() { signal input a; }\nfunction f() { return 1; }\ncomponent main = T();\n";
    let inc = IncrementalParser::parse(src);
    assert_eq!(inc.item_count(), 5);
    let (file, errors) = inc.to_file_and_errors(src);
    let (full_file, full_errors) = full_parse(src);
    assert_eq!(file, full_file);
    assert_eq!(errors, full_errors);
}

#[test]
fn from_parse_files_each_error_once() {
    let src = "template A() { signal input }\ntemplate B() { signal input b; }\n";
    let (file, errors) = full_parse(src);
    assert!(!errors.is_empty());
    let inc = IncrementalParser::from_parse(file.clone(), errors.clone());
    assert_eq!(inc.item_count(), file.items.len());
    let (f2, e2) = inc.to_file_and_errors(src);
    assert_eq!(f2, file);
    let mut a: Vec<(usize, usize, String)> = errors.iter().map(|e| (e.span.start, e.span.end, e.message.clone())).collect();
    let mut b: Vec<(usize, usize, String)> = e2.iter().map(|e| (e.span.start, e.span.end, e.message.clone())).collect();
    a.sort();
    b.sort();
    assert_eq!(a, b);
}

#[test]
fn from_parse_without_items_drops_errors() {
    let (file, errors) = full_parse("@");
    assert_eq!(errors.len(), 1);
    let inc = IncrementalParser::from_parse(file, errors);
    assert_eq!(inc.item_count(), 0);
    let (f, e) = inc.to_file_and_errors("@");
    assert!(f.items.is_empty());
    assert_eq!((f.span.start, f.span.end), (0, 1));
    assert!(e.is_empty());
}
