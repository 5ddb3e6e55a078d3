use cinccino::parser::{ParseError, Parser, parse, parse_number_literal_u32};
use cinccino::ast::{AnonCompInput, AnonymousComp, AssignOp, BinaryOp, BusDef, BusMember, ComponentDecl, CompoundOp, Expression, ExpressionKind, File, FunctionDef, IfElse, Include, Item, LogArg, MainComponent, Pragma, PragmaKind, SignalDecl, SignalKind, StatementKind, TemplateDef, UnaryOp, VarDecl, Version};
fn parse_ok(src: &str) -> File {
    let (file, errors) = parse(src);
    assert!(errors.is_empty(), "unexpected errors: {:#?}", errors);
    file
}

fn parse_with_errors(src: &str) -> (File, Vec<ParseError>) {
    parse(src)
}

const RESERVED_KEYWORDS: [&str; 14] = [
    "signal",
    "template",
    "function",
    "component",
    "var",
    "bus",
    "input",
    "output",
    "public",
    "custom",
    "parallel",
    "extern",
    "log",
    "assert",
];

// ── Pragma tests ────────────────────────────────────────────

#[test]
fn test_pragma_version() {
    let file = parse_ok("pragma circom 2.2.3;");
    assert_eq!(file.items.len(), 1);
    match &file.items[0] {
        Item::Pragma(p) => match &p.kind {
            PragmaKind::Version(v) => {
                assert_eq!(v.major, 2);
                assert_eq!(v.minor, 2);
                assert_eq!(v.patch, 3);
            }
            _ => panic!("expected version pragma"),
        },
        _ => panic!("expected pragma item"),
    }
}

#[test]
fn test_duplicate_pragma_error() {
    let (_, errors) = parse_with_errors("pragma circom 2.0.0; pragma circom 2.1.0;");
    assert!(
        errors.iter().any(|e| e.message.contains("duplicate")),
        "should report error for duplicate pragma, got: {:?}",
        errors
    );
}

#[test]
fn test_pragma_custom_templates() {
    let file = parse_ok("pragma custom_templates;");
    match &file.items[0] {
        Item::Pragma(p) => assert_eq!(p.kind, PragmaKind::CustomTemplates),
        _ => panic!("expected pragma"),
    }
}

#[test]
fn test_pragma_version_overflow() {
    let (_, errors) = parse_with_errors("pragma circom 99999999999.0.0;");
    assert!(
        errors.iter().any(|e| e.message.contains("overflows")),
        "expected overflow error, got: {:?}",
        errors
    );
}

// ── Include tests ───────────────────────────────────────────

#[test]
fn test_include() {
    let file = parse_ok(r#"include "circomlib/poseidon.circom";"#);
    match &file.items[0] {
        Item::Include(i) => assert_eq!(i.path, "circomlib/poseidon.circom"),
        _ => panic!("expected include"),
    }
}

// ── Template tests ──────────────────────────────────────────

#[test]
fn test_template_basic() {
    let file = parse_ok("template Multiplier2() { signal input a; signal input b; signal output c; c <== a * b; }");
    match &file.items[0] {
        Item::TemplateDef(t) => {
            assert_eq!(t.name.name, "Multiplier2");
            assert_eq!(t.params.len(), 0);
            assert!(!t.is_custom);
            assert!(!t.is_parallel);
        }
        _ => panic!("expected template"),
    }
}

#[test]
fn test_template_with_params() {
    let file = parse_ok("template Bits2Num(n) { signal input in[n]; signal output out; }");
    match &file.items[0] {
        Item::TemplateDef(t) => {
            assert_eq!(t.name.name, "Bits2Num");
            assert_eq!(t.params.len(), 1);
            assert_eq!(t.params[0].name, "n");
        }
        _ => panic!("expected template"),
    }
}

#[test]
fn test_template_parallel() {
    let file = parse_ok("template parallel ParallelMul() {}");
    match &file.items[0] {
        Item::TemplateDef(t) => {
            assert!(t.is_parallel);
        }
        _ => panic!("expected template"),
    }
}

#[test]
fn test_template_custom() {
    let file = parse_ok("pragma custom_templates; template custom MyCustom() {}");
    match &file.items[1] {
        Item::TemplateDef(t) => {
            assert!(t.is_custom);
        }
        _ => panic!("expected template"),
    }
}

// ── Function tests ──────────────────────────────────────────

#[test]
fn test_function_basic() {
    let file = parse_ok("function nbits(a) { var n = 1; var r = 0; while (n - 1 < a) { r++; n *= 2; } return r; }");
    match &file.items[0] {
        Item::FunctionDef(f) => {
            assert_eq!(f.name.name, "nbits");
            assert_eq!(f.params.len(), 1);
            assert_eq!(f.params[0].name, "a");
        }
        _ => panic!("expected function"),
    }
}

// ── Bus tests ───────────────────────────────────────────────

#[test]
fn test_bus_simple() {
    let file = parse_ok("bus Point() { signal x; signal y; }");
    match &file.items[0] {
        Item::BusDef(b) => {
            assert_eq!(b.name.name, "Point");
            assert_eq!(b.body.len(), 2);
        }
        _ => panic!("expected bus"),
    }
}

#[test]
fn test_bus_with_params() {
    let file = parse_ok("bus PointN(dim) { signal x[dim]; }");
    match &file.items[0] {
        Item::BusDef(b) => {
            assert_eq!(b.name.name, "PointN");
            assert_eq!(b.params.len(), 1);
        }
        _ => panic!("expected bus"),
    }
}

#[test]
fn test_bus_nested() {
    let src = "bus Point() { signal x; signal y; } bus Line() { Point() start; Point() end; }";
    let file = parse_ok(src);
    assert_eq!(file.items.len(), 2);
    match &file.items[1] {
        Item::BusDef(b) => {
            assert_eq!(b.name.name, "Line");
            assert_eq!(b.body.len(), 2);
            assert!(matches!(&b.body[0], BusMember::Bus(_)));
        }
        _ => panic!("expected bus"),
    }
}

// ── Main component tests ────────────────────────────────────

#[test]
fn test_main_component_no_public() {
    let file = parse_ok("component main = Multiplier2();");
    match &file.items[0] {
        Item::MainComponent(m) => {
            assert!(m.public_signals.is_empty());
        }
        _ => panic!("expected main component"),
    }
}

#[test]
fn test_main_component_with_public() {
    let file = parse_ok("component main {public [in1, in2]} = Multiplier2();");
    match &file.items[0] {
        Item::MainComponent(m) => {
            assert_eq!(m.public_signals.len(), 2);
            assert_eq!(m.public_signals[0].name, "in1");
            assert_eq!(m.public_signals[1].name, "in2");
        }
        _ => panic!("expected main component"),
    }
}

// ── Signal declaration tests ────────────────────────────────

#[test]
fn test_signal_input() {
    let src = "template T() { signal input a; }";
    let file = parse_ok(src);
    match &file.items[0] {
        Item::TemplateDef(t) => match &t.body.stmts[0].kind {
            StatementKind::SignalDecl(s) => {
                assert_eq!(s.kind, SignalKind::Input);
                assert_eq!(s.names[0].name.name, "a");
            }
            _ => panic!("expected signal decl"),
        },
        _ => panic!("expected template"),
    }
}

#[test]
fn test_signal_with_tags() {
    let src = "template T() { signal input {binary} in[n]; }";
    let file = parse_ok(src);
    match &file.items[0] {
        Item::TemplateDef(t) => match &t.body.stmts[0].kind {
            StatementKind::SignalDecl(s) => {
                assert_eq!(s.tags.len(), 1);
                assert_eq!(s.tags[0].name, "binary");
                assert!(!s.names[0].dimensions.is_empty());
            }
            _ => panic!("expected signal decl"),
        },
        _ => panic!("expected template"),
    }
}

#[test]
fn test_signal_init_on_decl() {
    let src = "template T() { signal output out <== in1 * in2; }";
    let file = parse_ok(src);
    match &file.items[0] {
        Item::TemplateDef(t) => match &t.body.stmts[0].kind {
            StatementKind::SignalDecl(s) => {
                assert!(s.names[0].init.is_some());
            }
            _ => panic!("expected signal decl"),
        },
        _ => panic!("expected template"),
    }
}

// ── Variable declaration tests ──────────────────────────────

#[test]
fn test_var_decl() {
    let src = "function f() { var x = 5; return x; }";
    let file = parse_ok(src);
    match &file.items[0] {
        Item::FunctionDef(f) => match &f.body.stmts[0].kind {
            StatementKind::VarDecl(v) => {
                assert_eq!(v.names[0].name.name, "x");
                assert!(v.names[0].init.is_some());
            }
            _ => panic!("expected var decl"),
        },
        _ => panic!("expected function"),
    }
}

#[test]
fn test_var_decl_array() {
    let src = "function f() { var x[3]; return x; }";
    let file = parse_ok(src);
    match &file.items[0] {
        Item::FunctionDef(f) => match &f.body.stmts[0].kind {
            StatementKind::VarDecl(v) => {
                assert_eq!(v.names[0].dimensions.len(), 1);
            }
            _ => panic!("expected var decl"),
        },
        _ => panic!("expected function"),
    }
}

// ── Component declaration tests ─────────────────────────────

#[test]
fn test_component_decl() {
    let src = "template T() { component c = Multiplier2(); }";
    let file = parse_ok(src);
    match &file.items[0] {
        Item::TemplateDef(t) => match &t.body.stmts[0].kind {
            StatementKind::ComponentDecl(c) => {
                assert_eq!(c.names[0].name.name, "c");
                assert!(c.names[0].init.is_some());
            }
            _ => panic!("expected component decl"),
        },
        _ => panic!("expected template"),
    }
}

#[test]
fn test_component_array() {
    let src = "template T() { component ands[2]; }";
    let file = parse_ok(src);
    match &file.items[0] {
        Item::TemplateDef(t) => match &t.body.stmts[0].kind {
            StatementKind::ComponentDecl(c) => {
                assert_eq!(c.names[0].dimensions.len(), 1);
                assert!(c.names[0].init.is_none());
            }
            _ => panic!("expected component decl"),
        },
        _ => panic!("expected template"),
    }
}

// ── Assignment tests ────────────────────────────────────────

#[test]
fn test_signal_assign_left() {
    let src = "template T() { signal input a; signal output b; b <== a; }";
    let file = parse_ok(src);
    match &file.items[0] {
        Item::TemplateDef(t) => match &t.body.stmts[2].kind {
            StatementKind::Assignment(a) => {
                assert_eq!(a.op, AssignOp::SafeLeft);
            }
            _ => panic!("expected assignment, got {:?}", t.body.stmts[2].kind),
        },
        _ => panic!("expected template"),
    }
}

#[test]
fn test_constraint_eq() {
    let src = "template T() { signal a; signal b; a === b; }";
    let file = parse_ok(src);
    match &file.items[0] {
        Item::TemplateDef(t) => {
            assert!(matches!(
                &t.body.stmts[2].kind,
                StatementKind::ConstraintEq(_)
            ));
        }
        _ => panic!("expected template"),
    }
}

#[test]
fn test_compound_assign() {
    let src = "function f() { var x = 0; x += 1; return x; }";
    let file = parse_ok(src);
    match &file.items[0] {
        Item::FunctionDef(f) => match &f.body.stmts[1].kind {
            StatementKind::CompoundAssign(c) => {
                assert_eq!(c.op, CompoundOp::AddAssign);
            }
            _ => panic!("expected compound assign"),
        },
        _ => panic!("expected function"),
    }
}

// ── Control flow tests ──────────────────────────────────────

#[test]
fn test_if_else() {
    let src = "function f(x) { if (x >= 0) { return x; } else { return 0; } }";
    let file = parse_ok(src);
    match &file.items[0] {
        Item::FunctionDef(f) => match &f.body.stmts[0].kind {
            StatementKind::IfElse(ie) => {
                assert!(ie.else_body.is_some());
            }
            _ => panic!("expected if/else"),
        },
        _ => panic!("expected function"),
    }
}

#[test]
fn test_for_loop() {
    let src = "function f() { var y = 0; for (var i = 0; i < 100; i++) { y++; } return y; }";
    let file = parse_ok(src);
    match &file.items[0] {
        Item::FunctionDef(f) => {
            assert!(matches!(&f.body.stmts[1].kind, StatementKind::For(_)));
        }
        _ => panic!("expected function"),
    }
}

#[test]
fn test_while_loop() {
    let src = "function f() { var i = 0; while (i < 100) { i++; } return i; }";
    let file = parse_ok(src);
    match &file.items[0] {
        Item::FunctionDef(f) => {
            assert!(matches!(&f.body.stmts[1].kind, StatementKind::While(_)));
        }
        _ => panic!("expected function"),
    }
}

#[test]
fn test_return_stmt() {
    let src = "function f() { return 42; }";
    let file = parse_ok(src);
    match &file.items[0] {
        Item::FunctionDef(f) => match &f.body.stmts[0].kind {
            StatementKind::Return(r) => {
                assert!(matches!(*r.value.kind, ExpressionKind::Number(_)));
            }
            _ => panic!("expected return"),
        },
        _ => panic!("expected function"),
    }
}

// ── Expression tests ────────────────────────────────────────

#[test]
fn test_operator_precedence() {
    // a + b * c should parse as a + (b * c)
    let src = "function f() { return a + b * c; }";
    let file = parse_ok(src);
    match &file.items[0] {
        Item::FunctionDef(f) => match &f.body.stmts[0].kind {
            StatementKind::Return(r) => match r.value.kind.as_ref() {
                ExpressionKind::Binary(_, BinaryOp::Add, rhs) => {
                    assert!(matches!(
                        *rhs.kind,
                        ExpressionKind::Binary(_, BinaryOp::Mul, _)
                    ));
                }
                other => panic!("expected Add at top level, got {:?}", other),
            },
            _ => panic!("expected return"),
        },
        _ => panic!("expected function"),
    }
}

#[test]
fn test_power_right_associative() {
    // a ** b ** c should parse as a ** (b ** c)
    let src = "function f() { return a ** b ** c; }";
    let file = parse_ok(src);
    match &file.items[0] {
        Item::FunctionDef(f) => match &f.body.stmts[0].kind {
            StatementKind::Return(r) => match r.value.kind.as_ref() {
                ExpressionKind::Binary(_, BinaryOp::Pow, rhs) => {
                    assert!(matches!(
                        *rhs.kind,
                        ExpressionKind::Binary(_, BinaryOp::Pow, _)
                    ));
                }
                other => panic!("expected Pow at top, got {:?}", other),
            },
            _ => panic!("expected return"),
        },
        _ => panic!("expected function"),
    }
}

#[test]
fn test_ternary() {
    let src = "function f(x) { return x > 0 ? x : 0; }";
    let file = parse_ok(src);
    match &file.items[0] {
        Item::FunctionDef(f) => match &f.body.stmts[0].kind {
            StatementKind::Return(r) => {
                assert!(matches!(*r.value.kind, ExpressionKind::Ternary(_, _, _)));
            }
            _ => panic!("expected return"),
        },
        _ => panic!("expected function"),
    }
}

#[test]
fn test_unary_neg() {
    let src = "function f() { return -x; }";
    let file = parse_ok(src);
    match &file.items[0] {
        Item::FunctionDef(f) => match &f.body.stmts[0].kind {
            StatementKind::Return(r) => {
                assert!(matches!(
                    *r.value.kind,
                    ExpressionKind::Unary(UnaryOp::Neg, _)
                ));
            }
            _ => panic!("expected return"),
        },
        _ => panic!("expected function"),
    }
}

#[test]
fn test_array_index() {
    let src = "function f() { return x[0]; }";
    let file = parse_ok(src);
    match &file.items[0] {
        Item::FunctionDef(f) => match &f.body.stmts[0].kind {
            StatementKind::Return(r) => {
                assert!(matches!(*r.value.kind, ExpressionKind::Index(_, _)));
            }
            _ => panic!("expected return"),
        },
        _ => panic!("expected function"),
    }
}

#[test]
fn test_member_access() {
    let src = "template T() { signal a; a.tag = 5; }";
    let file = parse_ok(src);
    match &file.items[0] {
        Item::TemplateDef(t) => match &t.body.stmts[1].kind {
            StatementKind::Assignment(a) => {
                assert!(matches!(*a.lhs.kind, ExpressionKind::Member(_, _)));
            }
            _ => panic!("expected assignment, got {:?}", t.body.stmts[1].kind),
        },
        _ => panic!("expected template"),
    }
}

#[test]
fn test_function_call() {
    let src = "function f() { return nbits(32); }";
    let file = parse_ok(src);
    match &file.items[0] {
        Item::FunctionDef(f) => match &f.body.stmts[0].kind {
            StatementKind::Return(r) => {
                assert!(matches!(*r.value.kind, ExpressionKind::Call(_, _)));
            }
            _ => panic!("expected return"),
        },
        _ => panic!("expected function"),
    }
}

#[test]
fn test_array_literal() {
    let src = "function f() { return [1, 2, 3]; }";
    let file = parse_ok(src);
    match &file.items[0] {
        Item::FunctionDef(f) => match &f.body.stmts[0].kind {
            StatementKind::Return(r) => match r.value.kind.as_ref() {
                ExpressionKind::ArrayLit(elems) => {
                    assert_eq!(elems.len(), 3);
                }
                _ => panic!("expected array literal"),
            },
            _ => panic!("expected return"),
        },
        _ => panic!("expected function"),
    }
}

#[test]
fn test_hex_number_literal_in_array() {
    // Regression: circomlib's sha256/constants.circom uses hex
    // literals; pre-fix the lexer split `0x6a09e667` into
    // `0` + `x6a09e667` and the parser reported
    // `expected RBracket, found Ident(...)`.
    let src = r#"
            template H() {
                signal output out;
                var c[8] = [0x6a09e667, 0xbb67ae85, 0x3c6ef372, 0xa54ff53a,
                            0x510e527f, 0x9b05688c, 0x1f83d9ab, 0x5be0cd19];
                out <== c[0];
            }
        "#;
    let file = parse_ok(src);
    match &file.items[0] {
        Item::TemplateDef(t) => {
            // The `var c[8] = [...];` is statement 1 (after the signal
            // output decl); validate it parsed as an array of 8 numbers.
            let stmts = &t.body.stmts;
            let init = stmts
                .iter()
                .find_map(|s| match &s.kind {
                    StatementKind::VarDecl(v) => v.names[0].init.clone(),
                    _ => None,
                })
                .expect("expected a var with initializer");
            match init.kind.as_ref() {
                ExpressionKind::ArrayLit(elems) => {
                    assert_eq!(elems.len(), 8);
                    for (i, e) in elems.iter().enumerate() {
                        match e.kind.as_ref() {
                            ExpressionKind::Number(n) => {
                                assert!(
                                    n.starts_with("0x"),
                                    "elem {} not hex: {n}",
                                    i
                                );
                            }
                            other => panic!("elem {i} not a Number: {other:?}"),
                        }
                    }
                }
                other => panic!("expected array literal, got {other:?}"),
            }
        }
        _ => panic!("expected template"),
    }
}

#[test]
fn test_parse_number_literal_u32_hex_and_decimal() {
    assert_eq!(parse_number_literal_u32("42"), Some(42));
    assert_eq!(parse_number_literal_u32("0x6a09e667"), Some(0x6a09e667));
    assert_eq!(parse_number_literal_u32("0X6A09E667"), Some(0x6a09e667));
    // Overflow:
    assert_eq!(parse_number_literal_u32("99999999999"), None);
}

// ── Tuple assignment tests ──────────────────────────────────

#[test]
fn test_tuple_assign() {
    let src =
        "template T() { signal output a; signal output b; (a, b) <== SomeTemplate()(inp); }";
    let file = parse_ok(src);
    match &file.items[0] {
        Item::TemplateDef(t) => match &t.body.stmts[2].kind {
            StatementKind::TupleAssign(ta) => {
                assert_eq!(ta.targets.len(), 2);
                assert_eq!(ta.op, AssignOp::SafeLeft);
            }
            _ => panic!("expected tuple assign, got {:?}", t.body.stmts[2].kind),
        },
        _ => panic!("expected template"),
    }
}

#[test]
fn test_tuple_with_underscore() {
    let src = "template T() { signal output a; (_, a) <== SomeTemplate()(inp); }";
    let file = parse_ok(src);
    match &file.items[0] {
        Item::TemplateDef(t) => match &t.body.stmts[1].kind {
            StatementKind::TupleAssign(ta) => {
                assert!(ta.targets[0].is_none());
                assert!(ta.targets[1].is_some());
            }
            _ => panic!("expected tuple assign"),
        },
        _ => panic!("expected template"),
    }
}

// ── Log and Assert tests ────────────────────────────────────

#[test]
fn test_log_stmt() {
    let src = r#"template T() { log("value:", x); }"#;
    let file = parse_ok(src);
    match &file.items[0] {
        Item::TemplateDef(t) => match &t.body.stmts[0].kind {
            StatementKind::Log(l) => {
                assert_eq!(l.args.len(), 2);
                assert!(matches!(&l.args[0], LogArg::String(s) if s == "value:"));
                assert!(matches!(&l.args[1], LogArg::Expr(_)));
            }
            _ => panic!("expected log"),
        },
        _ => panic!("expected template"),
    }
}

#[test]
fn test_assert_stmt() {
    let src = "template T() { assert(x > 0); }";
    let file = parse_ok(src);
    match &file.items[0] {
        Item::TemplateDef(t) => {
            assert!(matches!(&t.body.stmts[0].kind, StatementKind::Assert(_)));
        }
        _ => panic!("expected template"),
    }
}

// ── Anonymous component tests ───────────────────────────────

#[test]
fn test_anonymous_component() {
    let src = "template T() { signal output out; out <== Multiplier2()(a, b); }";
    let file = parse_ok(src);
    match &file.items[0] {
        Item::TemplateDef(t) => match &t.body.stmts[1].kind {
            StatementKind::Assignment(a) => {
                assert!(matches!(*a.rhs.kind, ExpressionKind::AnonymousComp(_)));
            }
            _ => panic!("expected assignment"),
        },
        _ => panic!("expected template"),
    }
}

#[test]
fn test_anonymous_component_named_inputs() {
    let src = "template T() { signal output out; out <== A(n)(b <== in1, a <== in0); }";
    let file = parse_ok(src);
    match &file.items[0] {
        Item::TemplateDef(t) => match &t.body.stmts[1].kind {
            StatementKind::Assignment(a) => match a.rhs.kind.as_ref() {
                ExpressionKind::AnonymousComp(ac) => {
                    assert_eq!(ac.inputs.len(), 2);
                    assert!(
                        matches!(&ac.inputs[0], AnonCompInput::Named(n, _) if n.name == "b")
                    );
                }
                _ => panic!("expected anonymous comp"),
            },
            _ => panic!("expected assignment"),
        },
        _ => panic!("expected template"),
    }
}

// ── Increment / Decrement tests ─────────────────────────────

#[test]
fn test_increment() {
    let src = "function f() { var i = 0; i++; return i; }";
    let file = parse_ok(src);
    match &file.items[0] {
        Item::FunctionDef(f) => {
            assert!(matches!(&f.body.stmts[1].kind, StatementKind::Increment(_)));
        }
        _ => panic!("expected function"),
    }
}

#[test]
fn test_decrement() {
    let src = "function f() { var i = 10; i--; return i; }";
    let file = parse_ok(src);
    match &file.items[0] {
        Item::FunctionDef(f) => {
            assert!(matches!(&f.body.stmts[1].kind, StatementKind::Decrement(_)));
        }
        _ => panic!("expected function"),
    }
}

// ── Error recovery tests ────────────────────────────────────

#[test]
fn test_error_recovery_missing_semicolon() {
    let (file, errors) = parse_with_errors("template T() { signal input a signal output b; }");
    // Should still parse despite the missing semicolon
    assert!(!errors.is_empty());
    // The template itself should be parsed
    assert_eq!(file.items.len(), 1);
}

#[test]
fn test_error_recovery_unclosed_brace() {
    let (_file, errors) = parse_with_errors("template T() { signal input a; ");
    assert!(!errors.is_empty());
}

#[test]
fn test_error_recovery_multiple_errors() {
    let (_file, errors) = parse_with_errors("template T() { signal a signal b signal c; }");
    // Parser should report multiple errors, not just the first
    assert!(!errors.is_empty());
}

#[test]
fn test_signal_named_as_keyword() {
    // Reserved keywords must not be accepted as signal names
    for kw in RESERVED_KEYWORDS {
        let src = format!("template T() {{ signal input {}; }}", kw);
        let (_file, errors) = parse_with_errors(&src);
        assert!(
            !errors.is_empty(),
            "expected error for signal named `{}`, but got none",
            kw,
        );
    }
}

#[test]
fn test_var_named_as_keyword() {
    for kw in RESERVED_KEYWORDS {
        let src = format!("template T() {{ var {}; }}", kw);
        let (_file, errors) = parse_with_errors(&src);
        assert!(
            !errors.is_empty(),
            "expected error for var named `{}`, but got none",
            kw,
        );
    }
}

#[test]
fn test_component_named_as_keyword() {
    for kw in RESERVED_KEYWORDS {
        let src = format!("template T() {{ component {} = Foo(); }}", kw);
        let (_file, errors) = parse_with_errors(&src);
        assert!(
            !errors.is_empty(),
            "expected error for component named `{}`, but got none",
            kw,
        );
    }
}

#[test]
fn test_bus_instance_named_as_keyword() {
    for kw in RESERVED_KEYWORDS {
        let src = format!(
            "pragma circom 2.2.0; template T() {{ signal input MyBus() {}; }}",
            kw
        );
        let (_file, errors) = parse_with_errors(&src);
        assert!(
            !errors.is_empty(),
            "expected error for bus instance named `{}`, but got none",
            kw,
        );
    }
}

#[test]
fn test_main_allowed_as_identifier() {
    // `main` is a contextual keyword — allowed as a signal, var, and bus
    // instance name. Note: `component main` is excluded because it has
    // special top-level semantics in circom (`component main = ...`).
    let src = "template T() { signal input main; }";
    let _file = parse_ok(src);

    let src = "template T() { var main; }";
    let _file = parse_ok(src);

    let src = "pragma circom 2.2.0; template T() { signal input MyBus() main; }";
    let _file = parse_ok(src);
}

#[test]
fn test_template_named_as_keyword() {
    for kw in RESERVED_KEYWORDS {
        let src = format!("template {}() {{}}", kw);
        let (_file, errors) = parse_with_errors(&src);
        assert!(
            !errors.is_empty(),
            "expected error for template named `{}`, but got none",
            kw,
        );
    }
}

#[test]
fn test_function_named_as_keyword() {
    for kw in RESERVED_KEYWORDS {
        let src = format!("function {}() {{ return 0; }}", kw);
        let (_file, errors) = parse_with_errors(&src);
        assert!(
            !errors.is_empty(),
            "expected error for function named `{}`, but got none",
            kw,
        );
    }
}

#[test]
fn test_bus_def_named_as_keyword() {
    for kw in RESERVED_KEYWORDS {
        let src = format!("pragma circom 2.2.0; bus {}() {{}}", kw);
        let (_file, errors) = parse_with_errors(&src);
        assert!(
            !errors.is_empty(),
            "expected error for bus named `{}`, but got none",
            kw,
        );
    }
}

#[test]
fn test_bus_field_named_as_keyword() {
    for kw in RESERVED_KEYWORDS {
        let src = format!("pragma circom 2.2.0; bus B() {{ MyBus() {}; }}", kw);
        let (_file, errors) = parse_with_errors(&src);
        assert!(
            !errors.is_empty(),
            "expected error for bus field named `{}`, but got none",
            kw,
        );
    }
}

// ── Complex integration tests ───────────────────────────────

#[test]
fn test_full_multiplier_circuit() {
    let src = r#"
            pragma circom 2.0.0;

            template Multiplier2() {
                signal input a;
                signal input b;
                signal output c;

                c <== a * b;
            }

            component main {public [a]} = Multiplier2();
        "#;
    let file = parse_ok(src);
    assert_eq!(file.items.len(), 3); // pragma + template + main
}

#[test]
fn test_full_bits2num() {
    let src = r#"
            pragma circom 2.1.0;

            template Bits2Num(n) {
                signal input {binary} in[n];
                signal output {maxbit} out;

                var lc1 = 0;
                var e2 = 1;
                for (var i = 0; i < n; i++) {
                    lc1 += in[i] * e2;
                    e2 = e2 + e2;
                }

                out.maxbit = n;
                lc1 ==> out;
            }
        "#;
    let file = parse_ok(src);
    assert_eq!(file.items.len(), 2);
}

#[test]
fn test_extern_custom_template() {
    let src = r#"
            pragma circom 2.2.3;
            pragma custom_templates;

            template custom extern A() {
                signal input in;
                signal output out;
            }
        "#;
    let file = parse_ok(src);
    match &file.items[2] {
        Item::TemplateDef(t) => {
            assert!(t.is_custom);
            assert!(t.is_extern);
            assert_eq!(t.name.name, "A");
        }
        _ => panic!("expected template"),
    }
}

#[test]
fn test_bitwise_operations() {
    let src = "function f(x) { return (x >> 3) & 1; }";
    let file = parse_ok(src);
    match &file.items[0] {
        Item::FunctionDef(f) => match &f.body.stmts[0].kind {
            StatementKind::Return(r) => {
                assert!(matches!(
                    *r.value.kind,
                    ExpressionKind::Binary(_, BinaryOp::BitAnd, _)
                ));
            }
            _ => panic!("expected return"),
        },
        _ => panic!("expected function"),
    }
}

#[test]
fn test_multidimensional_array() {
    let src = "template T() { signal input matrix[3][4]; }";
    let file = parse_ok(src);
    match &file.items[0] {
        Item::TemplateDef(t) => match &t.body.stmts[0].kind {
            StatementKind::SignalDecl(s) => {
                assert_eq!(s.names[0].dimensions.len(), 2);
            }
            _ => panic!("expected signal decl"),
        },
        _ => panic!("expected template"),
    }
}

#[test]
fn test_nested_if_else() {
    let src = "function f(x) { if (x > 0) { if (x > 10) { return 2; } else { return 1; } } else { return 0; } }";
    let file = parse_ok(src);
    match &file.items[0] {
        Item::FunctionDef(f) => match &f.body.stmts[0].kind {
            StatementKind::IfElse(ie) => {
                assert!(ie.else_body.is_some());
                match &ie.then_body.stmts[0].kind {
                    StatementKind::IfElse(inner) => {
                        assert!(inner.else_body.is_some());
                    }
                    _ => panic!("expected nested if/else"),
                }
            }
            _ => panic!("expected if/else"),
        },
        _ => panic!("expected function"),
    }
}

#[test]
fn test_dot_access_on_component() {
    let src = "template T() { component c = Mul(); c.a <== 5; c.b <== 3; signal output out; out <== c.c; }";
    let file = parse_ok(src);
    match &file.items[0] {
        Item::TemplateDef(t) => {
            // c.a <== 5
            match &t.body.stmts[1].kind {
                StatementKind::Assignment(a) => {
                    assert!(matches!(*a.lhs.kind, ExpressionKind::Member(_, _)));
                    assert_eq!(a.op, AssignOp::SafeLeft);
                }
                _ => panic!("expected assignment, got {:?}", t.body.stmts[1].kind),
            }
        }
        _ => panic!("expected template"),
    }
}

#[test]
fn test_parallel_component_instantiation() {
    let src = "template T() { component c = parallel Heavy(); }";
    let file = parse_ok(src);
    match &file.items[0] {
        Item::TemplateDef(t) => match &t.body.stmts[0].kind {
            StatementKind::ComponentDecl(c) => {
                assert!(c.is_parallel);
            }
            _ => panic!("expected component decl"),
        },
        _ => panic!("expected template"),
    }
}

#[test]
fn test_boolean_operators_precedence() {
    // a && b || c should parse as (a && b) || c
    let src = "function f() { return a && b || c; }";
    let file = parse_ok(src);
    match &file.items[0] {
        Item::FunctionDef(f) => match &f.body.stmts[0].kind {
            StatementKind::Return(r) => match r.value.kind.as_ref() {
                ExpressionKind::Binary(_, BinaryOp::Or, _) => {}
                other => panic!("expected Or at top, got {:?}", other),
            },
            _ => panic!("expected return"),
        },
        _ => panic!("expected function"),
    }
}

#[test]
fn test_complex_expression() {
    let src = "function f() { return (a + b) * c - d / e % f; }";
    let file = parse_ok(src);
    assert_eq!(file.items.len(), 1);
}

#[test]
fn test_bus_with_tagged_signals() {
    let src = "bus Book() { signal {maxvalue} title[50]; signal {maxvalue} year; }";
    let file = parse_ok(src);
    match &file.items[0] {
        Item::BusDef(b) => {
            assert_eq!(b.name.name, "Book");
            assert_eq!(b.body.len(), 2);
            match &b.body[0] {
                BusMember::Signal(s) => {
                    assert_eq!(s.tags.len(), 1);
                    assert_eq!(s.tags[0].name, "maxvalue");
                }
                _ => panic!("expected signal member"),
            }
        }
        _ => panic!("expected bus"),
    }
}

#[test]
fn test_multiple_var_decl() {
    let src = "function f() { var a, b, c; return a; }";
    let file = parse_ok(src);
    match &file.items[0] {
        Item::FunctionDef(f) => match &f.body.stmts[0].kind {
            StatementKind::VarDecl(v) => {
                assert_eq!(v.names.len(), 3);
            }
            _ => panic!("expected var decl"),
        },
        _ => panic!("expected function"),
    }
}

#[test]
fn test_var_decl_per_variable_init() {
    let src = "function f() { var a = 1, b = 2; return a + b; }";
    let file = parse_ok(src);
    match &file.items[0] {
        Item::FunctionDef(f) => match &f.body.stmts[0].kind {
            StatementKind::VarDecl(v) => {
                assert_eq!(v.names.len(), 2);
                assert!(v.names[0].init.is_some(), "a should have init");
                assert!(v.names[1].init.is_some(), "b should have init");
            }
            _ => panic!("expected var decl"),
        },
        _ => panic!("expected function"),
    }
}

// ── Version gate tests ──────────────────────────────────────

#[test]
fn test_tags_accepted_with_version_2_1_0() {
    let src = "pragma circom 2.1.0; template T() { signal input {binary} x; }";
    let file = parse_ok(src);
    match &file.items[1] {
        Item::TemplateDef(t) => match &t.body.stmts[0].kind {
            StatementKind::SignalDecl(s) => {
                assert_eq!(s.tags.len(), 1);
                assert_eq!(s.tags[0].name, "binary");
            }
            _ => panic!("expected signal decl"),
        },
        _ => panic!("expected template"),
    }
}

#[test]
fn test_tags_rejected_before_version_2_1_0() {
    let src = "pragma circom 2.0.0; template T() { signal input {binary} x; }";
    let (_, errors) = parse_with_errors(src);
    assert!(
        errors.iter().any(|e| e.message.contains("tags")),
        "expected version gate error for tags, got: {:?}",
        errors
    );
}

#[test]
fn test_tags_accepted_with_higher_version() {
    let src = "pragma circom 2.2.0; template T() { signal input {binary} x; }";
    let file = parse_ok(src);
    match &file.items[1] {
        Item::TemplateDef(t) => match &t.body.stmts[0].kind {
            StatementKind::SignalDecl(s) => {
                assert_eq!(s.tags.len(), 1);
            }
            _ => panic!("expected signal decl"),
        },
        _ => panic!("expected template"),
    }
}

#[test]
fn test_bus_def_accepted_with_version_2_2_0() {
    let src = "pragma circom 2.2.0; bus Point() { signal x; signal y; }";
    let file = parse_ok(src);
    assert_eq!(file.items.len(), 2);
    assert!(matches!(&file.items[1], Item::BusDef(_)));
}

#[test]
fn test_bus_def_rejected_before_version_2_2_0() {
    let src = "pragma circom 2.1.0; bus Point() { signal x; signal y; }";
    let (_, errors) = parse_with_errors(src);
    assert!(
        errors.iter().any(|e| e.message.contains("bus")),
        "expected version gate error for bus, got: {:?}",
        errors
    );
}

#[test]
fn test_bus_instance_rejected_before_version_2_2_0() {
    let src =
        "pragma circom 2.1.0; bus Point() { signal x; } template T() { signal input Point() p; }";
    let (_, errors) = parse_with_errors(src);
    assert!(
        errors.iter().any(|e| e.message.contains("bus")),
        "expected version gate error for bus instance, got: {:?}",
        errors
    );
}

#[test]
fn test_bus_accepted_with_version_2_2_3() {
    let src = "pragma circom 2.2.3; bus Point() { signal x; }";
    let file = parse_ok(src);
    assert!(matches!(&file.items[1], Item::BusDef(_)));
}

#[test]
fn test_no_pragma_allows_all_features() {
    // Without a pragma, no version gate errors
    let src = "bus Point() { signal x; }";
    let file = parse_ok(src);
    assert!(matches!(&file.items[0], Item::BusDef(_)));
}

#[test]
fn test_tags_in_bus_rejected_before_2_1_0() {
    let src = "pragma circom 2.0.0; bus Book() { signal {maxvalue} title[50]; }";
    let (_, errors) = parse_with_errors(src);
    assert!(
        errors
            .iter()
            .any(|e| e.message.contains("tags") || e.message.contains("bus")),
        "expected version gate error, got: {:?}",
        errors
    );
}

#[test]
fn test_extern_template_accepted_with_version_2_2_3() {
    let src = r#"
            pragma circom 2.2.3;
            pragma custom_templates;
            template custom extern A() { signal input in; signal output out; }
        "#;
    let file = parse_ok(src);
    match &file.items[2] {
        Item::TemplateDef(t) => {
            assert!(t.is_extern);
            assert!(t.is_custom);
        }
        _ => panic!("expected template"),
    }
}

#[test]
fn test_extern_template_rejected_before_version_2_2_3() {
    let src = r#"
            pragma circom 2.2.0;
            pragma custom_templates;
            template custom extern A() { signal input in; signal output out; }
        "#;
    let (_, errors) = parse_with_errors(src);
    assert!(
        errors.iter().any(|e| e.message.contains("extern")),
        "expected version gate error for extern templates, got: {:?}",
        errors
    );
}

#[test]
fn test_extern_template_rejected_with_version_2_1_0() {
    let src = r#"
            pragma circom 2.1.0;
            pragma custom_templates;
            template custom extern B() { signal input in; }
        "#;
    let (_, errors) = parse_with_errors(src);
    assert!(
        errors.iter().any(|e| e.message.contains("extern")),
        "expected version gate error for extern templates, got: {:?}",
        errors
    );
}

#[test]
fn test_no_pragma_allows_extern_template() {
    let src = r#"
            pragma custom_templates;
            template custom extern A() { signal input in; signal output out; }
        "#;
    let file = parse_ok(src);
    match &file.items[1] {
        Item::TemplateDef(t) => {
            assert!(t.is_extern);
        }
        _ => panic!("expected template"),
    }
}
