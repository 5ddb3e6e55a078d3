use cinccino::server::code_action::{
    EnclosingKind, FixRequest, change_unsafe_assign_action, code_actions, declare_missing_symbol_action,
    extract_quoted_name, find_enclosing_context,
};
#[test]
fn extracts_quoted_name() {
    assert_eq!(
        extract_quoted_name("undeclared symbol 'foo'", "undeclared symbol"),
        Some("foo".to_string())
    );
    assert_eq!(
        extract_quoted_name("other message", "undeclared symbol"),
        None
    );
}

#[test]
fn finds_template_context() {
    let text = "template Foo() {\n    bar;\n}\n";
    // Position of `bar` (line 1, col 4)
    let offset = text.find("bar").unwrap();
    let ctx = find_enclosing_context(text, offset).unwrap();
    assert_eq!(ctx.kind, EnclosingKind::Template);
}

#[test]
fn finds_function_context() {
    let text = "function foo() {\n    x = y;\n}\n";
    let offset = text.find("x = y").unwrap();
    let ctx = find_enclosing_context(text, offset).unwrap();
    assert_eq!(ctx.kind, EnclosingKind::Function);
}

#[test]
fn declares_missing_signal() {
    let text = "template Foo() {\n    c <== a;\n}\n";
    let action = declare_missing_symbol_action(text, "undeclared symbol 'a'", 1, 9).unwrap();
    assert!(action.title.contains("signal"));
    assert!(action.title.contains('a'));
    assert!(action.new_text.contains("signal a;"));
}

#[test]
fn declares_missing_variable_in_function() {
    let text = "function f() {\n    return x;\n}\n";
    let action = declare_missing_symbol_action(text, "undeclared symbol 'x'", 1, 11).unwrap();
    assert!(action.title.contains("variable"));
    assert!(action.new_text.contains("var x;"));
}

#[test]
fn changes_unsafe_assign() {
    let text = "template T() {\n    b <-- a;\n}\n";
    let action = change_unsafe_assign_action(text, true, 1, 4, 1, 11).unwrap();
    assert!(action.title.contains("<=="));
    assert_eq!(action.new_text, "<==");
}

#[test]
fn ignores_non_warning_for_unsafe_assign() {
    let text = "template T() {\n    b <-- a;\n}\n";
    assert!(change_unsafe_assign_action(text, false, 1, 4, 1, 11).is_none());
}

#[test]
fn code_actions_empty_for_no_matching_diagnostics() {
    let text = "template T() { signal input a; }";
    let none: Vec<FixRequest> = Vec::new();
    let actions = code_actions(text, &none);
    assert!(actions.is_empty());
}
