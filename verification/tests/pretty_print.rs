use cinccino::parser;
use cinccino::pretty_print::{FormatConfig, format_with_config, format_with_trivia, measure_comma_sep_idents};
use cinccino::span::Span;
use cinccino::ast::{File, Identifier, Include, Item};
#[test]
fn pretty_print_pragma() {
    let src = "pragma circom 2.0.0;\n";
    let (file, errors) = parser::parse(src);
    assert!(errors.is_empty());
    assert_eq!(file.to_string(), "pragma circom 2.0.0;\n");
}

#[test]
fn pretty_print_include() {
    let src = "include \"other.circom\";\n";
    let (file, errors) = parser::parse(src);
    assert!(errors.is_empty());
    assert_eq!(file.to_string(), "include \"other.circom\";\n");
}

#[test]
fn pretty_print_simple_template() {
    let src = r#"template Foo(n) {
    signal input a;
    signal output b;
    b <== a;
}
"#;
    let (file, errors) = parser::parse(src);
    assert!(errors.is_empty(), "parse errors: {errors:?}");
    let output = file.to_string();
    assert!(output.contains("template Foo(n)"));
    assert!(output.contains("signal input a"));
    assert!(output.contains("signal output b"));
    assert!(output.contains("b <== a"));
}

#[test]
fn pretty_print_function() {
    let src = r#"function add(a, b) {
    return a + b;
}
"#;
    let (file, errors) = parser::parse(src);
    assert!(errors.is_empty());
    let output = file.to_string();
    assert!(output.contains("function add(a, b)"));
    assert!(output.contains("return a + b"));
}

#[test]
fn pretty_print_control_flow() {
    let src = r#"template T() {
    var x = 0;
    if (x) {
        x = 1;
    } else {
        x = 2;
    }
    for (var i = 0; i < 10; i++) {
        x += i;
    }
    while (x) {
        x = x - 1;
    }
}
"#;
    let (file, errors) = parser::parse(src);
    assert!(errors.is_empty(), "parse errors: {errors:?}");
    let output = file.to_string();
    assert!(output.contains("if (x)"));
    assert!(output.contains("} else {"));
    assert!(output.contains("for (var i = 0; i < 10; i++)"));
    assert!(output.contains("while (x)"));
}

#[test]
fn pretty_print_main_component() {
    let src = "component main {public [a, b]} = MyTemplate(10);\n";
    let (file, errors) = parser::parse(src);
    assert!(errors.is_empty());
    let output = file.to_string();
    assert!(output.contains("component main {public [a, b]}"));
    assert!(output.contains("MyTemplate(10)"));
}

#[test]
fn pretty_print_constraint_eq() {
    let src = r#"template T() {
    signal input a;
    signal input b;
    a === b;
}
"#;
    let (file, errors) = parser::parse(src);
    assert!(errors.is_empty());
    let output = file.to_string();
    assert!(output.contains("a === b"));
}

#[test]
fn roundtrip_parse_print_reparse() {
    // Parse -> print -> reparse should produce the same AST structure
    let src = r#"pragma circom 2.0.0;

template Num2Bits(n) {
    signal input in;
    signal output out[n];
    var lc1 = 0;
    var e2 = 1;
    for (var i = 0; i < n; i++) {
        out[i] <-- (in >> i) & 1;
        out[i] * (out[i] - 1) === 0;
        lc1 += out[i] * e2;
        e2 = e2 + e2;
    }
    lc1 === in;
}
"#;
    let (file1, errors1) = parser::parse(src);
    assert!(errors1.is_empty(), "first parse errors: {errors1:?}");

    let printed = file1.to_string();
    let (file2, errors2) = parser::parse(&printed);
    assert!(errors2.is_empty(), "reparse errors: {errors2:?}");

    // Compare structure via Debug representation (spans may differ
    // but the AST shape and content should be identical)
    assert_eq!(
        format!("{:?}", file1.items),
        format!("{:?}", file2.items),
        "round-trip AST differs"
    );

    // Print again — should be stable
    let printed2 = file2.to_string();
    assert_eq!(printed, printed2, "pretty-print is not idempotent");
}

// ── Trivia-aware formatting tests ──────────────────────────────────

fn format_trivia(src: &str) -> String {
    let (file, errors) = parser::parse(src);
    assert!(errors.is_empty(), "parse errors: {errors:?}");
    format_with_trivia(src, &file, &FormatConfig::default())
}

#[test]
fn trivia_leading_comment_before_statement() {
    let src = "template T() {\n    // comment\n    var x = 1;\n}\n";
    let output = format_trivia(src);
    assert!(
        output.contains("    // comment\n    var x = 1;"),
        "output: {output}"
    );
}

#[test]
fn trivia_trailing_comment_after_statement() {
    let src = "template T() {\n    var x = 1; // inline\n}\n";
    let output = format_trivia(src);
    assert!(
        output.contains("var x = 1; // inline\n"),
        "output: {output}"
    );
}

#[test]
fn trivia_comment_before_template() {
    let src = "// Top-level comment\ntemplate T() {\n    var x = 1;\n}\n";
    let output = format_trivia(src);
    assert!(
        output.starts_with("// Top-level comment\ntemplate T()"),
        "output: {output}"
    );
}

#[test]
fn trivia_comment_at_end_of_block() {
    let src = "template T() {\n    var x = 1;\n    // end comment\n}\n";
    let output = format_trivia(src);
    assert!(
        output.contains("    var x = 1;\n    // end comment\n}"),
        "output: {output}"
    );
}

#[test]
fn trivia_block_comment() {
    let src = "/* file header */\npragma circom 2.0.0;\n";
    let output = format_trivia(src);
    assert!(
        output.starts_with("/* file header */\npragma circom 2.0.0;"),
        "output: {output}"
    );
}

#[test]
fn trivia_multiple_comments_in_block() {
    let src = r#"template T() {
    // first
    var x = 1;
    // second
    var y = 2;
}
"#;
    let output = format_trivia(src);
    assert!(
        output.contains("    // first\n    var x = 1;"),
        "output: {output}"
    );
    assert!(
        output.contains("    // second\n    var y = 2;"),
        "output: {output}"
    );
}

#[test]
fn trivia_comment_in_for_loop_body() {
    let src = r#"template T() {
    for (var i = 0; i < 10; i++) {
        // loop body
        var x = i;
    }
}
"#;
    let output = format_trivia(src);
    assert!(
        output.contains("        // loop body\n        var x = i;"),
        "output: {output}"
    );
}

#[test]
fn trivia_no_comments_same_as_plain() {
    let src = "template T() {\n    var x = 1;\n}\n";
    let (file, _) = parser::parse(src);
    let plain = format_with_config(&file, &FormatConfig::default());
    let trivia = format_with_trivia(src, &file, &FormatConfig::default());
    assert_eq!(plain, trivia);
}

#[test]
fn trivia_idempotent() {
    let src = r#"// File comment
pragma circom 2.0.0;

// Template doc
template T() {
    // Input signal
    signal input x;
    var y = x; // use x
}
"#;
    let output1 = format_trivia(src);
    let output2 = format_trivia(&output1);
    assert_eq!(output1, output2, "trivia formatting is not idempotent");
}

#[test]
fn trivia_comment_between_items() {
    let src = r#"pragma circom 2.0.0;

// A template
template A() {
    var x = 1;
}

// Another template
template B() {
    var y = 2;
}
"#;
    let output = format_trivia(src);
    assert!(
        output.contains("// A template\ntemplate A()"),
        "output: {output}"
    );
    assert!(
        output.contains("// Another template\ntemplate B()"),
        "output: {output}"
    );
}

#[test]
fn trivia_trailing_comment_on_signal() {
    let src = "template T() {\n    signal input a; // the input\n}\n";
    let output = format_trivia(src);
    assert!(
        output.contains("signal input a; // the input\n"),
        "output: {output}"
    );
}

// ── Line-length wrapping tests ────────────────────────────────────

fn format_with_max_line(src: &str, max_line_length: usize) -> String {
    let (file, errors) = parser::parse(src);
    assert!(errors.is_empty(), "parse errors: {errors:?}");
    let config = FormatConfig {
        max_line_length: Some(max_line_length),
        ..FormatConfig::default()
    };
    format_with_config(&file, &config)
}

#[test]
fn wrap_call_args_when_exceeds_max_line() {
    // A call with many arguments that exceeds the line limit
    let src = "template T() {\n    var x = Foo(alpha, bravo, charlie, delta, echo);\n}\n";
    // With a generous limit, stays on one line
    let wide = format_with_max_line(src, 120);
    assert!(
        wide.contains("Foo(alpha, bravo, charlie, delta, echo)"),
        "should stay flat with wide limit: {wide}"
    );
    // With a tight limit, wraps arguments
    let narrow = format_with_max_line(src, 40);
    assert!(
        narrow.contains("Foo(\n"),
        "should wrap call args with tight limit: {narrow}"
    );
    // Each arg on its own line, indented one level deeper
    assert!(
        narrow.contains("        alpha,\n"),
        "each arg on own line, indented: {narrow}"
    );
}

#[test]
fn wrap_array_literal_when_exceeds_max_line() {
    let src = "template T() {\n    var x = [alpha, bravo, charlie, delta, echo];\n}\n";
    let narrow = format_with_max_line(src, 40);
    assert!(
        narrow.contains("[\n"),
        "should wrap array literal: {narrow}"
    );
    // Each element on its own line, indented one level deeper
    assert!(
        narrow.contains("        alpha,\n"),
        "each element on own line: {narrow}"
    );
}

#[test]
fn wrap_template_params_when_exceeds_max_line() {
    let src =
        "template MyLongTemplate(alpha, bravo, charlie, delta, echo) {\n    var x = 1;\n}\n";
    let narrow = format_with_max_line(src, 40);
    assert!(
        narrow.contains("MyLongTemplate(\n"),
        "should wrap template params: {narrow}"
    );
}

#[test]
fn no_wrap_when_within_limit() {
    let src = "template T() {\n    var x = Foo(a, b);\n}\n";
    let output = format_with_max_line(src, 80);
    assert!(
        output.contains("Foo(a, b)"),
        "short call should stay flat: {output}"
    );
}

#[test]
fn wrap_none_max_line_length_means_no_wrapping() {
    let src = "template T() {\n    var x = Foo(alpha, bravo, charlie, delta, echo, foxtrot, golf, hotel);\n}\n";
    let config = FormatConfig {
        max_line_length: None,
        ..FormatConfig::default()
    };
    let (file, _) = parser::parse(src);
    let output = format_with_config(&file, &config);
    // Everything on one line
    assert!(
        output.contains("Foo(alpha, bravo, charlie, delta, echo, foxtrot, golf, hotel)"),
        "None limit means no wrapping: {output}"
    );
}

#[test]
fn wrap_is_idempotent() {
    let src = "template T() {\n    var x = Foo(alpha, bravo, charlie, delta, echo);\n}\n";
    let first = format_with_max_line(src, 40);
    let second = format_with_max_line(&first, 40);
    assert_eq!(first, second, "wrapping should be idempotent");
}

#[test]
fn wrap_preserves_semantics() {
    // Wrapped output should re-parse without errors
    let src = "template T() {\n    var x = Foo(alpha, bravo, charlie, delta, echo);\n}\n";
    let wrapped = format_with_max_line(src, 40);
    let (_file1, _) = parser::parse(src);
    let (file2, errors) = parser::parse(&wrapped);
    assert!(
        errors.is_empty(),
        "wrapped output has parse errors: {errors:?}"
    );
    // Re-format the wrapped output — should be identical (idempotent)
    let rewrapped = format_with_max_line(&wrapped, 40);
    assert_eq!(wrapped, rewrapped, "wrap is not idempotent");
    // The AST should have the same structure (ignoring spans)
    assert_eq!(file2.items.len(), 1);
}

#[test]
fn wrap_anonymous_comp_args() {
    let src =
        "template T() {\n    var x = MyTemplate(alpha, bravo)(charlie, delta, echo);\n}\n";
    let narrow = format_with_max_line(src, 40);
    // Should wrap at least one of the argument lists
    let lines: Vec<&str> = narrow.lines().collect();
    let max_len = lines.iter().map(|l| l.len()).max().unwrap_or(0);
    // With wrapping, no line should vastly exceed the limit
    // (some slight overflow is acceptable for indentation)
    assert!(
        max_len <= 60,
        "lines should respect approximate limit, max was {max_len}: {narrow}"
    );
}

#[test]
fn wrap_main_component_public_signals() {
    let src = "component main {public [alpha, bravo, charlie, delta, echo, foxtrot]} = MyTemplate(10);\n";
    let narrow = format_with_max_line(src, 50);
    // The public signal list or the whole line should wrap
    let lines: Vec<&str> = narrow.lines().collect();
    let max_len = lines.iter().map(|l| l.len()).max().unwrap_or(0);
    assert!(
        max_len <= 70,
        "main component should wrap, max was {max_len}: {narrow}"
    );
}

#[test]
fn trivia_trailing_comment_on_pragma() {
    let src = "pragma circom 2.0.0; // version\ntemplate T() {\n    var x = 1;\n}\n";
    let output = format_trivia(src);
    assert!(
        output.contains("pragma circom 2.0.0; // version\n"),
        "trailing comment on pragma should be preserved on same line, output: {output}"
    );
}

#[test]
fn trivia_trailing_comment_on_include() {
    let src = "pragma circom 2.0.0;\ninclude \"foo.circom\"; // reason\ntemplate T() {\n    var x = 1;\n}\n";
    let output = format_trivia(src);
    assert!(
        output.contains("include \"foo.circom\"; // reason\n"),
        "trailing comment on include should be preserved on same line, output: {output}"
    );
}

#[test]
fn trivia_trailing_comment_on_main_component() {
    let src = "pragma circom 2.0.0;\ntemplate T() {\n    signal input x;\n}\ncomponent main = T(); // entry point\n";
    let output = format_trivia(src);
    assert!(
        output.contains("component main = T(); // entry point\n"),
        "trailing comment on main component should be on same line, output: {output}"
    );
}

#[test]
fn pretty_print_function_def() {
    let src = "function f(a, b) {\n    return a + b;\n}\n";
    let (file, errors) = parser::parse(src);
    assert!(errors.is_empty());
    let output = file.to_string();
    assert!(output.contains("function f(a, b)"), "output: {output}");
    assert!(output.contains("return a + b;"), "output: {output}");
}

#[test]
fn trivia_main_component_with_public() {
    let src = "pragma circom 2.0.0;\n// tmpl\ntemplate T() {\n    signal input a;\n}\ncomponent main {public [a]} = T();\n";
    let output = format_trivia(src);
    assert!(
        output.contains("component main {public [a]} = T();"),
        "output: {output}"
    );
    assert!(output.contains("// tmpl"), "output: {output}");
}

#[test]
fn trivia_if_else() {
    let src = "// hdr\ntemplate T() {\n    var x = 1;\n    if (x) {\n        x = 2;\n    } else {\n        x = 3;\n    }\n}\n";
    let output = format_trivia(src);
    assert!(output.contains("if (x)"), "output: {output}");
    assert!(output.contains("} else {"), "output: {output}");
}

#[test]
fn trivia_while_loop() {
    let src = "// hdr\ntemplate T() {\n    var i = 0;\n    while (i < 10) {\n        i = i + 1;\n    }\n}\n";
    let output = format_trivia(src);
    assert!(output.contains("while (i < 10)"), "output: {output}");
}

#[test]
fn trivia_for_loop() {
    let src = "// hdr\ntemplate T() {\n    for (var i = 0; i < 10; i++) {\n        var x = i;\n    }\n}\n";
    let output = format_trivia(src);
    assert!(
        output.contains("for (var i = 0; i < 10; i++)"),
        "output: {output}"
    );
}

#[test]
fn trivia_signal_declarations() {
    let src = "// hdr\ntemplate T() {\n    signal input a;\n    signal output b;\n    signal c;\n    b <== a;\n    c <-- a;\n}\n";
    let output = format_trivia(src);
    assert!(output.contains("signal input a;"), "output: {output}");
    assert!(output.contains("signal output b;"), "output: {output}");
    assert!(output.contains("b <== a;"), "output: {output}");
    assert!(output.contains("c <-- a;"), "output: {output}");
}

#[test]
fn trivia_component_declaration() {
    let src = "// hdr\ntemplate T() {\n    component c = OtherT();\n}\n";
    let output = format_trivia(src);
    assert!(
        output.contains("component c = OtherT();"),
        "output: {output}"
    );
}

#[test]
fn trivia_assert() {
    let src = "// hdr\ntemplate T() {\n    var x = 1;\n    assert(x == 1);\n}\n";
    let output = format_trivia(src);
    assert!(output.contains("assert(x == 1);"), "output: {output}");
}

#[test]
fn trivia_log() {
    let src = "// hdr\ntemplate T() {\n    var x = 1;\n    log(x);\n}\n";
    let output = format_trivia(src);
    assert!(output.contains("log(x);"), "output: {output}");
}

#[test]
fn trivia_ternary_expression() {
    let src = "// hdr\ntemplate T() {\n    var x = 1;\n    var y = x ? 2 : 3;\n}\n";
    let output = format_trivia(src);
    assert!(output.contains("x ? 2 : 3"), "output: {output}");
}

#[test]
fn trivia_array_expression() {
    let src = "// hdr\ntemplate T() {\n    var x[3] = [1, 2, 3];\n}\n";
    let output = format_trivia(src);
    assert!(output.contains("[1, 2, 3]"), "output: {output}");
}

#[test]
fn trivia_constraint_equality() {
    let src =
        "// hdr\ntemplate T() {\n    signal input a;\n    signal input b;\n    a === b;\n}\n";
    let output = format_trivia(src);
    assert!(output.contains("a === b;"), "output: {output}");
}

#[test]
fn trivia_unary_expressions() {
    let src = "// hdr\ntemplate T() {\n    var x = 1;\n    var y = -x;\n    var z = !x;\n}\n";
    let output = format_trivia(src);
    assert!(output.contains("-x"), "output: {output}");
    assert!(output.contains("!x"), "output: {output}");
}

#[test]
fn trivia_signal_array() {
    let src = "// hdr\ntemplate T() {\n    signal input a[3];\n}\n";
    let output = format_trivia(src);
    assert!(output.contains("signal input a[3];"), "output: {output}");
}

#[test]
fn trivia_increment_decrement() {
    let src = "// hdr\ntemplate T() {\n    var x = 0;\n    x++;\n    x--;\n}\n";
    let output = format_trivia(src);
    assert!(output.contains("x++;"), "output: {output}");
    assert!(output.contains("x--;"), "output: {output}");
}

#[test]
fn trivia_compound_assign() {
    let src = "// hdr\ntemplate T() {\n    var x = 1;\n    x += 2;\n}\n";
    let output = format_trivia(src);
    assert!(output.contains("x += 2;"), "output: {output}");
}

#[test]
fn trivia_return_statement() {
    let src = "// a func\nfunction f() {\n    return 42;\n}\n";
    let output = format_trivia(src);
    assert!(output.contains("return 42;"), "output: {output}");
}

#[test]
fn trivia_expression_statement() {
    let src = "// hdr\ntemplate T() {\n    var x = 1;\n    x;\n}\n";
    let output = format_trivia(src);
    assert!(output.contains("x;"), "output: {output}");
}

#[test]
fn trivia_remaining_comments_at_eof() {
    let src = "// hdr\ntemplate T() {\n    var x = 1;\n}\n// end\n";
    let output = format_trivia(src);
    assert!(output.contains("// end"), "output: {output}");
}

#[test]
fn trivia_multiple_functions_with_comments() {
    let src = "// first\nfunction f() {\n    return 1;\n}\n\n// second\nfunction g() {\n    return 2;\n}\n";
    let output = format_trivia(src);
    assert!(output.contains("// first"), "output: {output}");
    assert!(output.contains("// second"), "output: {output}");
    assert!(output.contains("function f()"), "output: {output}");
    assert!(output.contains("function g()"), "output: {output}");
}

#[test]
fn trivia_function_with_body() {
    let src = "// fn\nfunction f(a, b) {\n    var c = a + b;\n    return c;\n}\n";
    let output = format_trivia(src);
    assert!(output.contains("function f(a, b)"), "output: {output}");
    assert!(output.contains("return c;"), "output: {output}");
}

#[test]
fn trivia_include_statement() {
    let src = "pragma circom 2.0.0;\n// lib\ninclude \"lib.circom\";\n// tmpl\ntemplate T() {\n    var x = 1;\n}\n";
    let output = format_trivia(src);
    assert!(output.contains("// lib"), "output: {output}");
    assert!(
        output.contains("include \"lib.circom\";"),
        "output: {output}"
    );
}

#[test]
fn display_log_statement() {
    let src = "template T() {\n    var x = 1;\n    log(x);\n}\n";
    let (file, errors) = parser::parse(src);
    assert!(errors.is_empty());
    let output = file.to_string();
    assert!(output.contains("log(x);"), "output: {output}");
}

#[test]
fn display_assert_statement() {
    let src = "template T() {\n    var x = 1;\n    assert(x);\n}\n";
    let (file, errors) = parser::parse(src);
    assert!(errors.is_empty());
    let output = file.to_string();
    assert!(output.contains("assert(x);"), "output: {output}");
}

#[test]
fn display_increment_decrement() {
    let src = "template T() {\n    var x = 0;\n    x++;\n    x--;\n}\n";
    let (file, errors) = parser::parse(src);
    assert!(errors.is_empty());
    let output = file.to_string();
    assert!(output.contains("x++;"), "output: {output}");
    assert!(output.contains("x--;"), "output: {output}");
}

#[test]
fn display_compound_assign() {
    let src = "template T() {\n    var x = 1;\n    x += 2;\n    x -= 1;\n    x *= 3;\n}\n";
    let (file, errors) = parser::parse(src);
    assert!(errors.is_empty());
    let output = file.to_string();
    assert!(output.contains("x += 2;"), "output: {output}");
    assert!(output.contains("x -= 1;"), "output: {output}");
    assert!(output.contains("x *= 3;"), "output: {output}");
}

#[test]
fn display_constraint_equality() {
    let src = "template T() {\n    signal input a;\n    signal input b;\n    a === b;\n}\n";
    let (file, errors) = parser::parse(src);
    assert!(errors.is_empty());
    let output = file.to_string();
    assert!(output.contains("a === b;"), "output: {output}");
}

#[test]
fn display_return_statement() {
    let src = "function f() {\n    return 42;\n}\n";
    let (file, errors) = parser::parse(src);
    assert!(errors.is_empty());
    let output = file.to_string();
    assert!(output.contains("return 42;"), "output: {output}");
}

#[test]
fn display_if_else_statement() {
    let src = "template T() {\n    var x = 1;\n    if (x) {\n        x = 2;\n    } else {\n        x = 3;\n    }\n}\n";
    let (file, errors) = parser::parse(src);
    assert!(errors.is_empty());
    let output = file.to_string();
    assert!(output.contains("if (x)"), "output: {output}");
    assert!(output.contains("} else {"), "output: {output}");
}

#[test]
fn display_for_loop() {
    let src =
        "template T() {\n    for (var i = 0; i < 10; i++) {\n        var x = i;\n    }\n}\n";
    let (file, errors) = parser::parse(src);
    assert!(errors.is_empty());
    let output = file.to_string();
    assert!(output.contains("for ("), "output: {output}");
}

#[test]
fn display_while_loop() {
    let src =
        "template T() {\n    var i = 0;\n    while (i < 10) {\n        i = i + 1;\n    }\n}\n";
    let (file, errors) = parser::parse(src);
    assert!(errors.is_empty());
    let output = file.to_string();
    assert!(output.contains("while ("), "output: {output}");
}

#[test]
fn display_component_declaration() {
    let src = "template T() {\n    component c = OtherT();\n}\n";
    let (file, errors) = parser::parse(src);
    assert!(errors.is_empty());
    let output = file.to_string();
    assert!(
        output.contains("component c = OtherT();"),
        "output: {output}"
    );
}

#[test]
fn display_assignment_ops() {
    let src = "template T() {\n    signal input a;\n    signal output b;\n    b <== a;\n    b <-- a;\n}\n";
    let (file, errors) = parser::parse(src);
    assert!(errors.is_empty());
    let output = file.to_string();
    assert!(output.contains("b <== a;"), "output: {output}");
    assert!(output.contains("b <-- a;"), "output: {output}");
}

#[test]
fn display_expression_statement() {
    let src = "template T() {\n    var x = 1;\n    x;\n}\n";
    let (file, errors) = parser::parse(src);
    assert!(errors.is_empty());
    let output = file.to_string();
    assert!(output.contains("    x;\n"), "output: {output}");
}

#[test]
fn display_ternary_and_binary() {
    let src = "template T() {\n    var x = 1;\n    var y = x > 0 ? x + 1 : x - 1;\n}\n";
    let (file, errors) = parser::parse(src);
    assert!(errors.is_empty());
    let output = file.to_string();
    assert!(output.contains("x > 0 ? x + 1 : x - 1"), "output: {output}");
}

#[test]
fn display_multiple_var_dimensions() {
    let src = "template T() {\n    var x[2][3];\n}\n";
    let (file, errors) = parser::parse(src);
    assert!(errors.is_empty());
    let output = file.to_string();
    assert!(output.contains("var x[2][3];"), "output: {output}");
}

#[test]
fn display_signal_with_init() {
    let src = "template T() {\n    signal input a;\n    signal output b <== a;\n}\n";
    let (file, errors) = parser::parse(src);
    assert!(errors.is_empty());
    let output = file.to_string();
    assert!(
        output.contains("signal output b <== a;"),
        "output: {output}"
    );
}

#[test]
fn display_include_escape() {
    let src = "include \"path/to/lib.circom\";\n";
    let (file, errors) = parser::parse(src);
    assert!(errors.is_empty());
    let output = file.to_string();
    assert!(
        output.contains("include \"path/to/lib.circom\";"),
        "output: {output}"
    );
}

#[test]
fn display_main_component() {
    let src =
        "pragma circom 2.0.0;\ntemplate T() {\n    signal input a;\n}\ncomponent main = T();\n";
    let (file, errors) = parser::parse(src);
    assert!(errors.is_empty());
    let output = file.to_string();
    assert!(output.contains("component main = T();"), "output: {output}");
}

#[test]
fn display_main_component_public_signals() {
    let src = "pragma circom 2.0.0;\ntemplate T() {\n    signal input a;\n}\ncomponent main {public [a]} = T();\n";
    let (file, errors) = parser::parse(src);
    assert!(errors.is_empty());
    let output = file.to_string();
    assert!(
        output.contains("component main {public [a]} = T();"),
        "output: {output}"
    );
}

#[test]
fn display_function_def() {
    let src = "function f(a, b) {\n    return a + b;\n}\n";
    let (file, errors) = parser::parse(src);
    assert!(errors.is_empty());
    let output = file.to_string();
    assert!(output.contains("function f(a, b)"), "output: {output}");
}

#[test]
fn display_access_expression() {
    let src = "template T() {\n    signal input a[3];\n    var x = a[0];\n}\n";
    let (file, errors) = parser::parse(src);
    assert!(errors.is_empty());
    let output = file.to_string();
    assert!(output.contains("a[0]"), "output: {output}");
}

#[test]
fn display_member_access() {
    let src = "template T() {\n    component c = OtherT();\n    var x = c.out;\n}\n";
    let (file, errors) = parser::parse(src);
    assert!(errors.is_empty());
    let output = file.to_string();
    assert!(output.contains("c.out"), "output: {output}");
}

#[test]
fn display_bitwise_ops() {
    let src = "template T() {\n    var x = 1;\n    var a = ~x;\n    var b = x & 3;\n    var c = x | 2;\n    var d = x ^ 1;\n    var e = x << 2;\n    var f = x >> 1;\n}\n";
    let (file, errors) = parser::parse(src);
    assert!(errors.is_empty());
    let output = file.to_string();
    assert!(output.contains("~x"), "output: {output}");
    assert!(output.contains("x & 3"), "output: {output}");
    assert!(output.contains("x | 2"), "output: {output}");
    assert!(output.contains("x ^ 1"), "output: {output}");
    assert!(output.contains("x << 2"), "output: {output}");
    assert!(output.contains("x >> 1"), "output: {output}");
}

#[test]
fn display_logical_ops() {
    let src = "template T() {\n    var x = 1;\n    var a = x && 1;\n    var b = x || 0;\n    var c = x == 1;\n    var d = x != 0;\n    var e = x <= 1;\n    var f = x >= 0;\n}\n";
    let (file, errors) = parser::parse(src);
    assert!(errors.is_empty());
    let output = file.to_string();
    assert!(output.contains("x && 1"), "output: {output}");
    assert!(output.contains("x || 0"), "output: {output}");
    assert!(output.contains("x == 1"), "output: {output}");
    assert!(output.contains("x != 0"), "output: {output}");
    assert!(output.contains("x <= 1"), "output: {output}");
    assert!(output.contains("x >= 0"), "output: {output}");
}

#[test]
fn display_power_and_div_ops() {
    let src = "template T() {\n    var x = 2;\n    var a = x ** 3;\n    var b = x % 2;\n    var c = x \\ 3;\n}\n";
    let (file, errors) = parser::parse(src);
    assert!(errors.is_empty());
    let output = file.to_string();
    assert!(output.contains("x ** 3"), "output: {output}");
    assert!(output.contains("x % 2"), "output: {output}");
    assert!(output.contains("x \\ 3"), "output: {output}");
}

#[test]
fn display_for_with_decrement() {
    let src =
        "template T() {\n    for (var i = 10; i > 0; i--) {\n        var x = i;\n    }\n}\n";
    let (file, errors) = parser::parse(src);
    assert!(errors.is_empty());
    let output = file.to_string();
    assert!(output.contains("i--"), "output: {output}");
}

#[test]
fn display_for_with_compound() {
    let src =
        "template T() {\n    for (var i = 0; i < 10; i += 2) {\n        var x = i;\n    }\n}\n";
    let (file, errors) = parser::parse(src);
    assert!(errors.is_empty());
    let output = file.to_string();
    assert!(output.contains("i += 2"), "output: {output}");
}

#[test]
fn display_log_with_string() {
    let src = "template T() {\n    log(\"hello\");\n}\n";
    let (file, errors) = parser::parse(src);
    assert!(errors.is_empty());
    let output = file.to_string();
    assert!(output.contains("log(\"hello\")"), "output: {output}");
}

#[test]
fn display_nested_parentheses() {
    let src = "template T() {\n    var x = (1 + 2) * 3;\n}\n";
    let (file, errors) = parser::parse(src);
    assert!(errors.is_empty());
    let output = file.to_string();
    assert!(output.contains("(1 + 2) * 3"), "output: {output}");
}

#[test]
fn display_signal_intermediate() {
    let src = "template T() {\n    signal s;\n}\n";
    let (file, errors) = parser::parse(src);
    assert!(errors.is_empty());
    let output = file.to_string();
    assert!(output.contains("signal s;"), "output: {output}");
}

#[test]
fn display_multiple_signals() {
    let src = "template T() {\n    signal input a, b;\n}\n";
    let (file, errors) = parser::parse(src);
    assert!(errors.is_empty());
    let output = file.to_string();
    assert!(output.contains("signal input a, b;"), "output: {output}");
}

#[test]
fn display_signal_with_tags() {
    let src = "template T() {\n    signal input {binary} a;\n}\n";
    let (file, errors) = parser::parse(src);
    if errors.is_empty() {
        let output = file.to_string();
        assert!(output.contains("{binary}"), "output: {output}");
    }
}

#[test]
fn display_component_array() {
    let src = "template T() {\n    component c[3];\n}\n";
    let (file, errors) = parser::parse(src);
    assert!(errors.is_empty());
    let output = file.to_string();
    assert!(output.contains("component c[3];"), "output: {output}");
}

#[test]
fn display_multiple_includes() {
    let src = "include \"a.circom\";\ninclude \"b.circom\";\n";
    let (file, errors) = parser::parse(src);
    assert!(errors.is_empty());
    let output = file.to_string();
    assert!(
        output.contains("include \"a.circom\";\n"),
        "output: {output}"
    );
    assert!(
        output.contains("include \"b.circom\";\n"),
        "output: {output}"
    );
}

#[test]
fn display_right_arrow_assign() {
    let src = "template T() {\n    signal input a;\n    signal output b;\n    a ==> b;\n}\n";
    let (file, errors) = parser::parse(src);
    assert!(errors.is_empty());
    let output = file.to_string();
    assert!(output.contains("a ==> b;"), "output: {output}");
}

#[test]
fn display_unsafe_right_assign() {
    let src = "template T() {\n    signal input a;\n    signal output b;\n    a --> b;\n}\n";
    let (file, errors) = parser::parse(src);
    assert!(errors.is_empty());
    let output = file.to_string();
    assert!(output.contains("a --> b;"), "output: {output}");
}

#[test]
fn display_bus_def() {
    let src = "pragma circom 2.0.0;\nbus MyBus() {\n    signal input a;\n}\n";
    let (file, errors) = parser::parse(src);
    if errors.is_empty() {
        let output = file.to_string();
        assert!(output.contains("bus MyBus()"), "output: {output}");
    }
}

#[test]
fn display_include_with_escape() {
    // Test escaped characters in include path
    let src = "include \"path\\\\to\\nfile.circom\";\n";
    let (file, errors) = parser::parse(src);
    if errors.is_empty() {
        let output = file.to_string();
        assert!(output.contains("include \""), "output: {output}");
    }
}

#[test]
fn display_anonymous_comp() {
    let src = "template T() {\n    signal input a;\n    signal output b;\n    b <== AnotherT()(a);\n}\n";
    let (file, errors) = parser::parse(src);
    if errors.is_empty() {
        let output = file.to_string();
        assert!(output.contains("AnotherT()"), "output: {output}");
    }
}

#[test]
fn display_custom_templates() {
    let src = "pragma custom_templates;\n";
    let (file, errors) = parser::parse(src);
    assert!(errors.is_empty());
    let output = file.to_string();
    assert!(
        output.contains("pragma custom_templates;"),
        "output: {output}"
    );
}

#[test]
fn display_multi_compound_ops() {
    let src = "template T() {\n    var x = 10;\n    x -= 1;\n    x *= 2;\n    x /= 3;\n    x %= 4;\n    x **= 2;\n    x \\= 3;\n    x <<= 1;\n    x >>= 1;\n    x &= 7;\n    x |= 3;\n    x ^= 5;\n}\n";
    let (file, errors) = parser::parse(src);
    assert!(errors.is_empty());
    let output = file.to_string();
    assert!(output.contains("x -= 1;"), "output: {output}");
    assert!(output.contains("x *= 2;"), "output: {output}");
    assert!(output.contains("x /= 3;"), "output: {output}");
    assert!(output.contains("x %= 4;"), "output: {output}");
    assert!(output.contains("x **= 2;"), "output: {output}");
    assert!(output.contains("x \\= 3;"), "output: {output}");
    assert!(output.contains("x <<= 1;"), "output: {output}");
    assert!(output.contains("x >>= 1;"), "output: {output}");
    assert!(output.contains("x &= 7;"), "output: {output}");
    assert!(output.contains("x |= 3;"), "output: {output}");
    assert!(output.contains("x ^= 5;"), "output: {output}");
}

#[test]
fn trivia_bus_def() {
    let src = "pragma circom 2.0.0;\n// bus comment\nbus MyBus() {\n    signal input a;\n}\n";
    let (_, errors) = parser::parse(src);
    if errors.is_empty() {
        let output = format_trivia(src);
        assert!(output.contains("bus MyBus()"), "output: {output}");
        assert!(output.contains("// bus comment"), "output: {output}");
    }
}

#[test]
fn display_log_with_multiple_args() {
    let src = "template T() {\n    var x = 1;\n    log(x, \"val=\", x);\n}\n";
    let (file, errors) = parser::parse(src);
    if errors.is_empty() {
        let output = file.to_string();
        assert!(output.contains("log("), "output: {output}");
    }
}

#[test]
fn trivia_bus_decl_statement() {
    let src = "pragma circom 2.0.0;\nbus MyBus() {\n    signal input a;\n}\n// hdr\ntemplate T() {\n    MyBus input b;\n}\n";
    let (_, errors) = parser::parse(src);
    if errors.is_empty() {
        let output = format_trivia(src);
        assert!(output.contains("MyBus"), "output: {output}");
    }
}

#[test]
fn display_bus_instance() {
    let src = "pragma circom 2.0.0;\nbus MyBus() {\n    signal input a;\n}\ntemplate T() {\n    MyBus input b;\n}\n";
    let (file, errors) = parser::parse(src);
    if errors.is_empty() {
        let output = file.to_string();
        assert!(output.contains("MyBus"), "output: {output}");
    }
}

#[test]
fn display_for_with_assignment_step() {
    let src = "template T() {\n    for (var i = 0; i < 10; i = i + 1) {\n        var x = i;\n    }\n}\n";
    let (file, errors) = parser::parse(src);
    assert!(errors.is_empty());
    let output = file.to_string();
    assert!(output.contains("i = i + 1"), "output: {output}");
}

#[test]
fn trivia_for_with_decrement_step() {
    let src = "// hdr\ntemplate T() {\n    for (var i = 10; i > 0; i--) {\n        var x = i;\n    }\n}\n";
    let output = format_trivia(src);
    assert!(output.contains("i--"), "output: {output}");
}

#[test]
fn trivia_for_with_compound_step() {
    let src = "// hdr\ntemplate T() {\n    for (var i = 0; i < 10; i += 2) {\n        var x = i;\n    }\n}\n";
    let output = format_trivia(src);
    assert!(output.contains("i += 2"), "output: {output}");
}

#[test]
fn display_escaped_string_in_include() {
    // Verify that the escaped string writer handles backslash and quotes
    let file = File {
        span: Span { start: 0, end: 0 },
        items: vec![Item::Include(Include {
            span: Span { start: 0, end: 0 },
            path: "hello\\world\"test\nfoo".to_string(),
        })],
    };
    let buf = file.to_string();
    assert!(buf.contains("\\\\"), "should escape backslash: {buf}");
    assert!(buf.contains("\\\""), "should escape quote: {buf}");
    assert!(buf.contains("\\n"), "should escape newline: {buf}");
}

#[test]
fn trivia_trailing_then_leading_comment() {
    // Trailing comment on one stmt, then leading comment on next
    let src = "// hdr\ntemplate T() {\n    var x = 1; // trailing\n    // leading\n    var y = 2;\n}\n";
    let output = format_trivia(src);
    assert!(
        output.contains("var x = 1; // trailing"),
        "output: {output}"
    );
    assert!(output.contains("// leading"), "output: {output}");
    assert!(output.contains("var y = 2;"), "output: {output}");
}

#[test]
fn format_config_with_max_line_length() {
    let config = FormatConfig::default().with_max_line_length(80);
    assert_eq!(config.max_line_length, Some(80));
}

#[test]
fn trivia_extern_template() {
    let src = "// hdr\ntemplate extern T() {\n    signal input x;\n}\n";
    let (_, errors) = parser::parse(src);
    if errors.is_empty() {
        let output = format_trivia(src);
        assert!(output.contains("extern"), "output: {output}");
    }
}

#[test]
fn trivia_if_without_else() {
    let src =
        "// hdr\ntemplate T() {\n    var x = 1;\n    if (x) {\n        x = 2;\n    }\n}\n";
    let output = format_trivia(src);
    assert!(output.contains("if (x)"), "output: {output}");
    assert!(!output.contains("else"), "no else in output: {output}");
}

#[test]
fn trivia_multiple_var_names() {
    let src = "// hdr\ntemplate T() {\n    var a, b, c;\n}\n";
    let output = format_trivia(src);
    assert!(output.contains("var a, b, c;"), "output: {output}");
}

#[test]
fn trivia_signal_init_with_op() {
    let src = "// hdr\ntemplate T() {\n    signal input a;\n    signal output b <== a;\n}\n";
    let output = format_trivia(src);
    assert!(
        output.contains("signal output b <== a;"),
        "output: {output}"
    );
}

#[test]
fn trivia_component_array_init() {
    let src = "// hdr\ntemplate T() {\n    component c[3];\n}\n";
    let output = format_trivia(src);
    assert!(output.contains("component c[3];"), "output: {output}");
}

#[test]
fn trivia_nested_index_member() {
    let src = "// hdr\ntemplate T() {\n    component c = OtherT();\n    var x = c.out[0];\n}\n";
    let output = format_trivia(src);
    assert!(output.contains("c.out[0]"), "output: {output}");
}

#[test]
fn parse_lex_error_coverage() {
    // Exercise lex error and parse error paths for coverage
    let src = "template T() {\n    var x = @;\n}\n";
    let (file, errors) = parser::parse(src);
    // Expected: parse/lex errors
    assert!(!errors.is_empty());
    // Should still produce a partial AST
    let _ = file.to_string();
}

#[test]
fn parse_error_recovery() {
    // More parse error paths
    let src = "template T( {\n}\n";
    let (file, errors) = parser::parse(src);
    assert!(!errors.is_empty());
    let _ = file.to_string();
}

#[test]
fn parse_empty_file() {
    let (file, errors) = parser::parse("");
    assert!(errors.is_empty());
    let output = file.to_string();
    assert!(output.is_empty());
}

#[test]
fn trivia_trailing_comments_on_statements() {
    let src = "// hdr\ntemplate T() {\n    var x = 1; // init x\n    signal input a; // the input\n    x = x + a; // update\n}\n";
    let output = format_trivia(src);
    assert!(output.contains("var x = 1; // init x"), "output: {output}");
    assert!(
        output.contains("signal input a; // the input"),
        "output: {output}"
    );
    assert!(output.contains("x = x + a; // update"), "output: {output}");
}

#[test]
fn trivia_leading_comment_on_function() {
    let src = "// a function\nfunction f() {\n    return 0;\n}\n";
    let output = format_trivia(src);
    assert!(
        output.contains("// a function\nfunction f()"),
        "leading comment should be before function, output: {output}"
    );
}

#[test]
fn trivia_comment_inside_block() {
    let src = "template T() {\n    // inner comment\n    var x = 1;\n}\n";
    let output = format_trivia(src);
    assert!(
        output.contains("// inner comment"),
        "comment inside block should be preserved, output: {output}"
    );
}

#[test]
fn trivia_trailing_comment_on_statement() {
    let src = "template T() {\n    var x = 1; // init\n}\n";
    let output = format_trivia(src);
    assert!(
        output.contains("var x = 1; // init"),
        "trailing comment on statement should be preserved, output: {output}"
    );
}

#[test]
fn trivia_end_of_file_comment() {
    let src = "pragma circom 2.0.0;\n// end of file\n";
    let output = format_trivia(src);
    assert!(
        output.contains("// end of file"),
        "end-of-file comment should be preserved, output: {output}"
    );
}

#[test]
fn format_with_trivia_idempotent() {
    let src = "pragma circom 2.0.0;\n\ntemplate T() {\n    signal input a;\n    signal output b;\n    b <== a;\n}\n\ncomponent main = T();\n";
    let config = FormatConfig::default();
    let (ast, errors) = parser::parse(src);
    assert!(errors.is_empty());
    let first = format_with_trivia(src, &ast, &config);
    let (ast2, errors2) = parser::parse(&first);
    assert!(errors2.is_empty());
    let second = format_with_trivia(&first, &ast2, &config);
    assert_eq!(first, second, "formatting should be idempotent");
}

#[test]
fn measure_comma_sep_idents_empty() {
    assert_eq!(measure_comma_sep_idents(&[]), 0);
}

#[test]
fn measure_comma_sep_idents_single() {
    let idents = vec![Identifier {
        name: "abc".to_string(),
        span: Span { start: 0, end: 3 },
    }];
    assert_eq!(measure_comma_sep_idents(&idents), 3);
}

#[test]
fn measure_comma_sep_idents_multiple() {
    let idents = vec![
        Identifier {
            name: "a".to_string(),
            span: Span { start: 0, end: 1 },
        },
        Identifier {
            name: "bb".to_string(),
            span: Span { start: 3, end: 5 },
        },
    ];
    // "a, bb" = 1 + 2 + 2 = 5
    assert_eq!(measure_comma_sep_idents(&idents), 5);
}

#[test]
fn trivia_trailing_comment_on_bus_member() {
    let src = "pragma circom 2.0.0;\nbus MyBus() {\n    signal input a; // important\n}\n";
    let (_, errors) = parser::parse(src);
    if errors.is_empty() {
        let output = format_trivia(src);
        assert!(
            output.contains("signal input a; // important"),
            "trailing comment on bus member should be preserved, output: {output}"
        );
    }
}

#[test]
fn trivia_trailing_comment_on_if_else() {
    let src = "// hdr\ntemplate T() {\n    var x = 1;\n    if (x) {\n        x = 2;\n    } // check x\n}\n";
    let output = format_trivia(src);
    assert!(
        output.contains("} // check x"),
        "trailing comment on if statement should be preserved, output: {output}"
    );
}

#[test]
fn trivia_trailing_comment_on_for_loop() {
    let src = "// hdr\ntemplate T() {\n    for (var i = 0; i < 10; i++) {\n        var x = i;\n    } // loop\n}\n";
    let output = format_trivia(src);
    assert!(
        output.contains("} // loop"),
        "trailing comment on for loop should be preserved, output: {output}"
    );
}

#[test]
fn trivia_trailing_comment_on_while_loop() {
    let src = "// hdr\ntemplate T() {\n    var i = 0;\n    while (i < 10) {\n        i = i + 1;\n    } // while\n}\n";
    let output = format_trivia(src);
    assert!(
        output.contains("} // while"),
        "trailing comment on while loop should be preserved, output: {output}"
    );
}

#[test]
fn trivia_multiline_block_comment_indentation() {
    let src = "template T() {\n    /* line1\n       line2 */\n    var x = 1;\n}\n";
    let output = format_trivia(src);
    // Each continuation line should be re-indented to match the block level.
    assert!(
        output.contains("    /* line1\n"),
        "first line should be indented, output: {output}"
    );
    // Continuation line should have indent + space + trimmed content
    assert!(
        output.contains("     line2 */"),
        "continuation line should be re-indented, output: {output}"
    );
}

#[test]
fn trivia_else_if_chain_is_flat() {
    let src = "template T() {\n    var x = 1;\n    if (x) {\n        x = 2;\n    } else {\n        if (x) {\n            x = 3;\n        }\n    }\n}\n";
    let (file, errors) = parser::parse(src);
    assert!(errors.is_empty(), "parse errors: {errors:?}");
    let output = file.to_string();
    assert!(
        output.contains("} else if (x) {"),
        "else-if should be flattened, output: {output}"
    );
    assert!(
        !output.contains("} else {\n        if"),
        "should not have nested else-if, output: {output}"
    );
}

#[test]
fn trivia_else_if_chain_with_trivia() {
    let src = "// hdr\ntemplate T() {\n    var x = 1;\n    if (x) {\n        x = 2;\n    } else {\n        if (x) {\n            x = 3;\n        }\n    }\n}\n";
    let output = format_trivia(src);
    assert!(
        output.contains("} else if (x) {"),
        "trivia else-if should be flattened, output: {output}"
    );
}

#[test]
fn trivia_block_comment_preservation() {
    let src = "/* file header */\npragma circom 2.0.0;\n\n/* template doc */\ntemplate T() {\n    signal input a;\n}\n";
    let output = format_trivia(src);
    assert!(
        output.contains("/* file header */"),
        "block comment should be preserved, output: {output}"
    );
    assert!(
        output.contains("/* template doc */"),
        "block comment before template should be preserved, output: {output}"
    );
}
