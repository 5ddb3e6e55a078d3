use cinccino::parser;
use cinccino::server::document_symbol::{DocumentSymbol, OutlineKind, document_symbols};
fn symbols_for(src: &str) -> Vec<DocumentSymbol> {
    let (file, errors) = parser::parse(src);
    assert!(errors.is_empty(), "parse errors: {errors:?}");
    document_symbols(&file, src)
}

#[test]
fn template_with_nested_signals() {
    let symbols = symbols_for(
        r#"
            template Adder(n) {
                signal input a;
                signal input b;
                signal output c;
                c <== a + b;
            }
        "#,
    );

    assert_eq!(symbols.len(), 1);
    let adder = &symbols[0];
    assert_eq!(adder.name, "Adder");
    assert_eq!(adder.kind, OutlineKind::Class);
    assert_eq!(adder.detail.as_deref(), Some("template"));

    let children = adder.children.as_ref().unwrap();
    // parameter n + 3 signals = 4
    assert_eq!(children.len(), 4);

    assert_eq!(children[0].name, "n");
    assert_eq!(children[0].detail.as_deref(), Some("parameter"));
    assert_eq!(children[0].kind, OutlineKind::Variable);

    assert_eq!(children[1].name, "a");
    assert_eq!(children[1].detail.as_deref(), Some("signal input"));
    assert_eq!(children[1].kind, OutlineKind::Field);

    assert_eq!(children[2].name, "b");
    assert_eq!(children[2].detail.as_deref(), Some("signal input"));

    assert_eq!(children[3].name, "c");
    assert_eq!(children[3].detail.as_deref(), Some("signal output"));
}

#[test]
fn function_with_parameters() {
    let symbols = symbols_for(
        r#"
            function add(a, b) {
                var result;
                return a + b;
            }
        "#,
    );

    assert_eq!(symbols.len(), 1);
    let func = &symbols[0];
    assert_eq!(func.name, "add");
    assert_eq!(func.kind, OutlineKind::Function);
    assert_eq!(func.detail.as_deref(), Some("function"));

    let children = func.children.as_ref().unwrap();
    // 2 params + 1 var = 3
    assert_eq!(children.len(), 3);
    assert_eq!(children[0].name, "a");
    assert_eq!(children[0].detail.as_deref(), Some("parameter"));
    assert_eq!(children[1].name, "b");
    assert_eq!(children[1].detail.as_deref(), Some("parameter"));
    assert_eq!(children[2].name, "result");
    assert_eq!(children[2].detail.as_deref(), Some("var"));
}

#[test]
fn bus_with_fields() {
    let symbols = symbols_for(
        r#"
            pragma circom 2.2.0;
            bus Point() {
                signal input x;
                signal input y;
            }
        "#,
    );

    // pragma is skipped, only bus
    assert_eq!(symbols.len(), 1);
    let bus = &symbols[0];
    assert_eq!(bus.name, "Point");
    assert_eq!(bus.kind, OutlineKind::Struct);
    assert_eq!(bus.detail.as_deref(), Some("bus"));

    let children = bus.children.as_ref().unwrap();
    assert_eq!(children.len(), 2);
    assert_eq!(children[0].name, "x");
    assert_eq!(children[0].detail.as_deref(), Some("signal input"));
    assert_eq!(children[1].name, "y");
    assert_eq!(children[1].detail.as_deref(), Some("signal input"));
}

#[test]
fn multiple_templates() {
    let symbols = symbols_for(
        r#"
            pragma circom 2.0.0;
            template A() { signal input x; }
            template B() { signal output y; }
            function f() { return 1; }
        "#,
    );

    assert_eq!(symbols.len(), 3);
    assert_eq!(symbols[0].name, "A");
    assert_eq!(symbols[0].kind, OutlineKind::Class);
    assert_eq!(symbols[1].name, "B");
    assert_eq!(symbols[1].kind, OutlineKind::Class);
    assert_eq!(symbols[2].name, "f");
    assert_eq!(symbols[2].kind, OutlineKind::Function);
}

#[test]
fn empty_file() {
    let symbols = symbols_for("");
    assert!(symbols.is_empty());
}

#[test]
fn main_component_shown() {
    let symbols = symbols_for(
        r#"
            pragma circom 2.0.0;
            template Foo() { signal input x; }
            component main { public [x] } = Foo();
        "#,
    );

    assert_eq!(symbols.len(), 2);
    let main = &symbols[1];
    assert_eq!(main.name, "main");
    assert_eq!(main.kind, OutlineKind::Constant);
    assert!(main.detail.as_deref().unwrap().contains("public: x"));
}

#[test]
fn template_with_components() {
    let symbols = symbols_for(
        r#"
            template Circuit() {
                signal input in;
                signal output out;
                component hasher = Poseidon(2);
                out <== hasher.out;
            }
        "#,
    );

    let circuit = &symbols[0];
    let children = circuit.children.as_ref().unwrap();
    // 2 signals + 1 component
    assert_eq!(children.len(), 3);

    let hasher = &children[2];
    assert_eq!(hasher.name, "hasher");
    assert_eq!(hasher.kind, OutlineKind::Object);
    assert_eq!(hasher.detail.as_deref(), Some("component Poseidon"));
}

#[test]
fn template_with_variables() {
    let symbols = symbols_for(
        r#"
            template T() {
                var x = 0;
                var y;
                signal input a;
            }
        "#,
    );

    let t = &symbols[0];
    let children = t.children.as_ref().unwrap();
    assert_eq!(children.len(), 3);
    assert_eq!(children[0].name, "x");
    assert_eq!(children[0].detail.as_deref(), Some("var"));
    assert_eq!(children[0].kind, OutlineKind::Variable);
    assert_eq!(children[1].name, "y");
    assert_eq!(children[1].detail.as_deref(), Some("var"));
    assert_eq!(children[2].name, "a");
    assert_eq!(children[2].kind, OutlineKind::Field);
}

#[test]
fn intermediate_signal() {
    let symbols = symbols_for(
        r#"
            template T() {
                signal x;
            }
        "#,
    );

    let children = symbols[0].children.as_ref().unwrap();
    assert_eq!(children[0].detail.as_deref(), Some("signal intermediate"));
}

#[test]
fn pragma_and_include_are_skipped() {
    let symbols = symbols_for(
        r#"
            pragma circom 2.0.0;
            include "other.circom";
        "#,
    );
    assert!(symbols.is_empty());
}

#[test]
fn component_assignment_in_loop() {
    let symbols = symbols_for(
        r#"
            template Circuit(n) {
                signal input in;
                signal output out;
                component mux[n];
                for (var i = 0; i < n; i++) {
                    mux[i] = MultiMux1(2);
                }
                out <== in;
            }
        "#,
    );

    let circuit = &symbols[0];
    let children = circuit.children.as_ref().unwrap();

    // Find all OBJECT children (component decl + assignment)
    let components: Vec<&DocumentSymbol> = children
        .iter()
        .filter(|c| c.kind == OutlineKind::Object)
        .collect();

    // Should have the declaration (mux) AND the assignment (mux from loop)
    assert!(
        components.len() >= 2,
        "expected at least 2 component symbols, got {}",
        components.len()
    );

    // The loop assignment should have detail "component MultiMux1"
    let has_mux1 = components
        .iter()
        .any(|c| c.detail.as_deref() == Some("component MultiMux1"));
    assert!(
        has_mux1,
        "expected a component with detail 'component MultiMux1'"
    );
}

#[test]
fn component_assignment_in_if() {
    let symbols = symbols_for(
        r#"
            template T() {
                signal input sel;
                component h;
                if (sel == 1) {
                    h = Poseidon(2);
                }
            }
        "#,
    );

    let t = &symbols[0];
    let children = t.children.as_ref().unwrap();
    let components: Vec<&DocumentSymbol> = children
        .iter()
        .filter(|c| c.kind == OutlineKind::Object)
        .collect();

    let has_poseidon = components
        .iter()
        .any(|c| c.detail.as_deref() == Some("component Poseidon"));
    assert!(has_poseidon, "expected component Poseidon from if body");
}
