use cinccino::formatter::{FormatConfig, format_source};
fn cfg() -> FormatConfig {
    FormatConfig::default()
}

#[test]
fn formats_simple_template() {
    let src = "pragma circom 2.0.0;\ntemplate T(){signal input x;signal output y;y<==x;}\n";
    let out = format_source(src, &cfg()).unwrap();
    assert!(out.contains("pragma circom 2.0.0;"));
    assert!(out.contains("template T() {"));
    assert!(out.contains("    signal input x;"));
    assert!(out.contains("    y <== x;"));
}

#[test]
fn idempotent_on_simple_template() {
    let src = "pragma circom 2.0.0;\ntemplate T() {\n    signal input x;\n    signal output y;\n    y <== x;\n}\n";
    let once = format_source(src, &cfg()).unwrap();
    let twice = format_source(&once, &cfg()).unwrap();
    assert_eq!(once, twice, "formatter should be idempotent");
}

#[test]
fn preserves_line_comment_before_statement() {
    let src = "template T() {\n    // doc for x\n    signal input x;\n}\n";
    let out = format_source(src, &cfg()).unwrap();
    assert!(out.contains("// doc for x"), "missing comment: {out}");
    // Comment must appear before the signal decl.
    let comment_pos = out.find("// doc for x").unwrap();
    let signal_pos = out.find("signal input x").unwrap();
    assert!(comment_pos < signal_pos, "comment after signal:\n{out}");
}

#[test]
fn preserves_trailing_line_comment() {
    let src = "template T() {\n    signal input x; // inline\n}\n";
    let out = format_source(src, &cfg()).unwrap();
    // The comment should stay on the same line as the signal decl.
    let line = out
        .lines()
        .find(|l| l.contains("signal input x"))
        .expect("signal line");
    assert!(line.contains("// inline"), "line was: {line}\n{out}");
}

#[test]
fn preserves_block_comment() {
    let src = "/* header */\ntemplate T() {\n    signal input x;\n}\n";
    let out = format_source(src, &cfg()).unwrap();
    assert!(out.contains("/* header */"));
}

#[test]
fn preserves_eof_comment() {
    let src = "template T() {\n    signal input x;\n}\n// end\n";
    let out = format_source(src, &cfg()).unwrap();
    assert!(out.contains("// end"));
}

#[test]
fn wraps_long_call_arguments() {
    let src = "template T() {\n    signal output z;\n    z <== SomeReallyLongFunctionName(aaaaaaaa, bbbbbbbb, cccccccc, dddddddd, eeeeeeee, ffffffff);\n}\n";
    let cfg = FormatConfig {
        max_line_length: 60,
        indent_width: 4,
    };
    let out = format_source(src, &cfg).unwrap();
    // At least one line should break the args across lines.
    let has_wrapped = out
        .lines()
        .any(|l| l.trim() == "aaaaaaaa," || l.trim().starts_with("aaaaaaaa,"));
    assert!(has_wrapped, "expected wrapped args:\n{out}");
    for line in out.lines() {
        assert!(
            line.len() <= 80,
            "line still too long after wrap: {line:?}\n{out}"
        );
    }
}

#[test]
fn respects_custom_max_line_length() {
    let src = "template T() {\n    signal output z;\n    z <== Foo(aaaa, bbbb, cccc);\n}\n";
    let wide = format_source(
        src,
        &FormatConfig {
            max_line_length: 200,
            indent_width: 4,
        },
    )
    .unwrap();
    assert!(wide.contains("z <== Foo(aaaa, bbbb, cccc)"));

    let narrow = format_source(
        src,
        &FormatConfig {
            max_line_length: 24,
            indent_width: 4,
        },
    )
    .unwrap();
    // Narrow config must break the Foo call.
    let any_short_arg_line = narrow.lines().any(|l| l.trim() == "aaaa,");
    assert!(any_short_arg_line, "expected wrap:\n{narrow}");
}

#[test]
fn wrap_does_not_break_strings() {
    let src = "template T() {\n    log(\"this is a string that should never be split even if the line is very long\");\n}\n";
    let cfg = FormatConfig {
        max_line_length: 40,
        indent_width: 4,
    };
    let out = format_source(src, &cfg).unwrap();
    // The log arg string must remain intact on one line.
    let has_full = out
        .lines()
        .any(|l| l.contains("this is a string that should never be split"));
    assert!(has_full, "string was split:\n{out}");
}

#[test]
fn formatted_text_ends_with_one_newline() {
    let out = format_source("template T() { signal input a; }\n\n\n", &cfg()).unwrap();
    assert!(out.ends_with('\n'));
    assert!(!out.ends_with("\n\n"));
    let safe = cinccino::formatter::format_source_safe("template T( {", &cfg());
    assert_eq!(safe, "template T( {");
}
