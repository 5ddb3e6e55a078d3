use cinccino::parser;
use cinccino::server::call_hierarchy::{CallerKind, caller_at_offset, outgoing_calls_for};
fn outgoing_names(src: &str, caller: &str, kind: CallerKind) -> Vec<String> {
    let (file, _errors) = parser::parse(src);
    outgoing_calls_for(&file, caller, kind)
        .iter()
        .map(|o| o.callee_name.clone())
        .collect()
}

#[test]
fn template_component_instantiation_yields_callee() {
    let src =
        "template Circuit() {\n    component h = Poseidon(2);\n    component v = MiMC();\n}";
    let callees = outgoing_names(src, "Circuit", CallerKind::Template);
    assert_eq!(callees, vec!["Poseidon".to_string(), "MiMC".to_string()]);
}

#[test]
fn function_body_direct_calls_yield_edges() {
    // Mirrors the sha256compression_function.circom shape that
    // motivated #383.
    let src = "function sha256compression(hin, inp) {\n\
            for (var i=0; i<64; i++) {\n\
                var T1 = (h + bsigma1(e) + Ch(e,f,g) + sha256K(i));\n\
                var T2 = (bsigma0(a) + Maj(a,b,c));\n\
            }\n\
            return bsigma1(e);\n\
        }";
    let callees = outgoing_names(src, "sha256compression", CallerKind::Function);
    assert_eq!(
        callees,
        vec![
            "bsigma1".to_string(),
            "Ch".to_string(),
            "sha256K".to_string(),
            "bsigma0".to_string(),
            "Maj".to_string(),
        ]
    );
}

#[test]
fn repeated_calls_dedupe_to_one_entry_with_multiple_ranges() {
    let src = "function g(x) {\n\
            var a = Foo(x);\n\
            var b = Foo(x+1);\n\
            return Foo(a+b);\n\
        }";
    let (file, _errors) = parser::parse(src);
    let outgoing = outgoing_calls_for(&file, "g", CallerKind::Function);
    assert_eq!(outgoing.len(), 1);
    assert_eq!(outgoing[0].callee_name, "Foo");
    assert_eq!(outgoing[0].from_ranges.len(), 3);
}

#[test]
fn anonymous_component_call_is_recorded() {
    // Poseidon(2)(x) — template instantiated as an anonymous
    // component. Record "Poseidon" once.
    let src = "template Outer() {\n\
            signal input x;\n\
            signal output y;\n\
            y <== Poseidon(2)(x);\n\
        }";
    let callees = outgoing_names(src, "Outer", CallerKind::Template);
    assert!(callees.contains(&"Poseidon".to_string()));
}

#[test]
fn caller_at_offset_returns_enclosing_template() {
    let src = "template A() {\n    signal x;\n}\nfunction f() {\n    return 1;\n}";
    let (file, _errors) = parser::parse(src);
    // Offset inside template A's body.
    let caller = caller_at_offset(&file, 15).expect("no caller found inside A");
    assert_eq!(caller.name, "A");
    assert_eq!(caller.kind, CallerKind::Template);
    // Offset inside function f's body.
    let caller = caller_at_offset(&file, 55).expect("no caller found inside f");
    assert_eq!(caller.name, "f");
    assert_eq!(caller.kind, CallerKind::Function);
}

#[test]
fn no_calls_means_no_outgoing() {
    let src = "function f() {\n    return 1;\n}";
    let callees = outgoing_names(src, "f", CallerKind::Function);
    assert!(callees.is_empty());
}
