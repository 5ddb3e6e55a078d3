use cinccino::parser;
use cinccino::constraint_checker::{check_constraints};
use cinccino::symbol::{DiagnosticKind, SymbolDiagnostic};
use cinccino::symbol_table::{SymbolTable};
fn parse_and_check(src: &str) -> Vec<SymbolDiagnostic> {
    let (ast, errors) = parser::parse(src);
    assert!(errors.is_empty(), "parse errors: {errors:?}");
    let mut table = SymbolTable::new();
    table.index_file("main.circom", &ast);
    check_constraints(&table, "main.circom", &ast)
}

fn diags_of_kind(diags: &[SymbolDiagnostic], kind: DiagnosticKind) -> Vec<&SymbolDiagnostic> {
    diags.iter().filter(|d| d.kind == kind).collect()
}

// ── Valid constraint forms ──────────────────────────────────────

#[test]
fn allows_linear_constraint() {
    let diags = parse_and_check(
        r#"
            template T() {
                signal input a;
                signal output b;
                b <== a + 1;
            }
            "#,
    );
    let errors = diags_of_kind(&diags, DiagnosticKind::NonQuadraticConstraint);
    assert!(errors.is_empty());
}

#[test]
fn allows_quadratic_constraint() {
    let diags = parse_and_check(
        r#"
            template T() {
                signal input a;
                signal input b;
                signal output c;
                c <== a * b;
            }
            "#,
    );
    let errors = diags_of_kind(&diags, DiagnosticKind::NonQuadraticConstraint);
    assert!(errors.is_empty());
}

#[test]
fn allows_quadratic_constraint_eq() {
    let diags = parse_and_check(
        r#"
            template T() {
                signal input a;
                signal input b;
                signal output c;
                c <-- a * b;
                c === a * b;
            }
            "#,
    );
    let errors = diags_of_kind(&diags, DiagnosticKind::NonQuadraticConstraint);
    assert!(errors.is_empty());
}

// ── Invalid constraint forms ───────────────────────────────────

#[test]
fn detects_cubic_constraint() {
    let diags = parse_and_check(
        r#"
            template T() {
                signal input a;
                signal input b;
                signal input c;
                signal output d;
                d <== a * b * c;
            }
            "#,
    );
    let errors = diags_of_kind(&diags, DiagnosticKind::NonQuadraticConstraint);
    assert_eq!(errors.len(), 1);
    assert!(errors[0].message.contains("not quadratic"));
}

#[test]
fn detects_cubic_via_power() {
    let diags = parse_and_check(
        r#"
            template T() {
                signal input a;
                signal output b;
                b <== a ** 3;
            }
            "#,
    );
    let errors = diags_of_kind(&diags, DiagnosticKind::NonQuadraticConstraint);
    assert_eq!(errors.len(), 1);
}

#[test]
fn allows_quadratic_via_power() {
    let diags = parse_and_check(
        r#"
            template T() {
                signal input a;
                signal output b;
                b <== a ** 2;
            }
            "#,
    );
    let errors = diags_of_kind(&diags, DiagnosticKind::NonQuadraticConstraint);
    assert!(errors.is_empty());
}

#[test]
fn detects_signal_division() {
    let diags = parse_and_check(
        r#"
            template T() {
                signal input a;
                signal input b;
                signal output c;
                c <== a / b;
            }
            "#,
    );
    let errors = diags_of_kind(&diags, DiagnosticKind::NonQuadraticConstraint);
    assert_eq!(errors.len(), 1);
}

#[test]
fn allows_constant_division() {
    let diags = parse_and_check(
        r#"
            template T() {
                signal input a;
                signal output b;
                b <== a / 2;
            }
            "#,
    );
    let errors = diags_of_kind(&diags, DiagnosticKind::NonQuadraticConstraint);
    assert!(errors.is_empty());
}

// ── Unsafe signal assignment warnings ──────────────────────────

#[test]
fn warns_unsafe_assign_without_constraint() {
    let diags = parse_and_check(
        r#"
            template T() {
                signal input a;
                signal output b;
                b <-- a;
            }
            "#,
    );
    let warnings = diags_of_kind(&diags, DiagnosticKind::UnsafeSignalAssignment);
    assert_eq!(warnings.len(), 1);
    assert!(warnings[0].message.contains("'b'"));
    assert!(warnings[0].message.contains("<--"));
}

#[test]
fn no_warning_when_constraint_exists() {
    let diags = parse_and_check(
        r#"
            template T() {
                signal input a;
                signal output b;
                b <-- a;
                b === a;
            }
            "#,
    );
    let warnings = diags_of_kind(&diags, DiagnosticKind::UnsafeSignalAssignment);
    assert!(warnings.is_empty());
}

#[test]
fn no_warning_for_safe_assign() {
    let diags = parse_and_check(
        r#"
            template T() {
                signal input a;
                signal output b;
                b <== a;
            }
            "#,
    );
    let warnings = diags_of_kind(&diags, DiagnosticKind::UnsafeSignalAssignment);
    assert!(warnings.is_empty());
}

// ── Constraint with variables (valid — degree 0) ───────────────

#[test]
fn allows_variable_in_constraint() {
    let diags = parse_and_check(
        r#"
            template T() {
                signal input a;
                signal output b;
                var x = 5;
                b <== a * x;
            }
            "#,
    );
    let errors = diags_of_kind(&diags, DiagnosticKind::NonQuadraticConstraint);
    assert!(errors.is_empty());
}

// ── Bitwise ops on signals are non-linear ──────────────────────

#[test]
fn detects_bitwise_on_signals() {
    let diags = parse_and_check(
        r#"
            template T() {
                signal input a;
                signal input b;
                signal output c;
                c <== a & b;
            }
            "#,
    );
    let errors = diags_of_kind(&diags, DiagnosticKind::NonQuadraticConstraint);
    assert_eq!(errors.len(), 1);
}
