use cinccino::parser;
use cinccino::server::signature_help::{CallSite, build_signature, builtin_signature_help, find_call_site, signature_help};
use cinccino::symbol_table::SymbolTable;
/// Helper: find call site at the position marked by `|`.
fn call_site_at(src_with_cursor: &str) -> Option<CallSite> {
    let cursor_pos = src_with_cursor.find('|').expect("source must contain '|'");
    let source: String = src_with_cursor.chars().filter(|&c| c != '|').collect();
    find_call_site(&source, cursor_pos)
}

#[test]
fn template_instantiation_first_param() {
    let site = call_site_at("template T() { component c = Poseidon(|); }");
    assert_eq!(
        site,
        Some(CallSite {
            name: "Poseidon".to_string(),
            active_param: 0,
        })
    );
}

#[test]
fn function_call_first_param() {
    let site = call_site_at("function f() { return nbits(|); }");
    assert_eq!(
        site,
        Some(CallSite {
            name: "nbits".to_string(),
            active_param: 0,
        })
    );
}

#[test]
fn active_param_advances_on_comma() {
    let site = call_site_at("template T() { component c = Foo(1, |); }");
    assert_eq!(
        site,
        Some(CallSite {
            name: "Foo".to_string(),
            active_param: 1,
        })
    );
}

#[test]
fn active_param_third() {
    let site = call_site_at("template T() { component c = Foo(1, 2, |); }");
    assert_eq!(
        site,
        Some(CallSite {
            name: "Foo".to_string(),
            active_param: 2,
        })
    );
}

#[test]
fn builtin_log() {
    let site = call_site_at("template T() { log(|); }");
    assert_eq!(
        site,
        Some(CallSite {
            name: "log".to_string(),
            active_param: 0,
        })
    );
}

#[test]
fn builtin_assert() {
    let site = call_site_at("template T() { assert(|); }");
    assert_eq!(
        site,
        Some(CallSite {
            name: "assert".to_string(),
            active_param: 0,
        })
    );
}

#[test]
fn no_signature_outside_call() {
    let site = call_site_at("template T() { var x = |1; }");
    assert_eq!(site, None);
}

#[test]
fn no_signature_after_closing_paren() {
    let site = call_site_at("template T() { var x = foo(1)|; }");
    assert_eq!(site, None);
}

#[test]
fn build_signature_formats_correctly() {
    let (label, params) = build_signature("Poseidon", &vec!["nInputs".to_string()]);
    assert_eq!(label, "Poseidon(nInputs)");
    assert_eq!(params.len(), 1);
    assert_eq!(params[0], "nInputs".to_string());
}

#[test]
fn build_signature_multiple_params() {
    let (label, params) = build_signature(
        "MyFunc",
        &vec!["a".to_string(), "b".to_string(), "c".to_string()],
    );
    assert_eq!(label, "MyFunc(a, b, c)");
    assert_eq!(params.len(), 3);
}

#[test]
fn builtin_signature_help_log() {
    let help = builtin_signature_help("log", 0).unwrap();
    assert_eq!(help.label, "log(expr, ...)");
    assert_eq!(help.active_parameter, 0);
}

#[test]
fn builtin_signature_help_assert() {
    let help = builtin_signature_help("assert", 0).unwrap();
    assert_eq!(help.label, "assert(condition)");
}

#[test]
fn builtin_signature_help_numbits() {
    let help = builtin_signature_help("NumBits", 0).unwrap();
    assert_eq!(help.label, "NumBits(n)");
    assert_eq!(help.active_parameter, 0);
}

#[test]
fn builtin_signature_help_unknown() {
    assert!(builtin_signature_help("unknown", 0).is_none());
}

#[test]
fn signature_help_with_symbol_table() {
    let source = r#"
function nbits(n) {
    return n;
}
template T() {
    var x = nbits(1);
}
"#;
    let (ast, _) = parser::parse(source);
    let mut st = SymbolTable::new();
    st.index_file("test.circom", &ast);

    // Cursor inside nbits(|1)
    // "nbits(" is at some offset; let's find it
    let call_pos = source.find("nbits(1").unwrap() + 6; // right after '('
    let help = signature_help(source, call_pos, &st, "test.circom");
    let help = help.unwrap();
    assert_eq!(help.label, "nbits(n)");
    assert_eq!(help.active_parameter, 0);
}

#[test]
fn signature_help_template_with_params() {
    let source = r#"
template Poseidon(nInputs) {
    signal input in;
}
template T() {
    component c = Poseidon(2);
}
"#;
    let (ast, _) = parser::parse(source);
    let mut st = SymbolTable::new();
    st.index_file("test.circom", &ast);

    let call_pos = source.find("Poseidon(2").unwrap() + 9; // after '('
    let help = signature_help(source, call_pos, &st, "test.circom");
    let help = help.unwrap();
    assert_eq!(help.label, "Poseidon(nInputs)");
    assert_eq!(help.active_parameter, 0);
}

#[test]
fn no_signature_help_outside_call() {
    let source = "template T() { var x = 1; }";
    let (ast, _) = parser::parse(source);
    let mut st = SymbolTable::new();
    st.index_file("test.circom", &ast);

    // Cursor at `1`
    let pos = source.find("1;").unwrap();
    let help = signature_help(source, pos, &st, "test.circom");
    assert!(help.is_none());
}
