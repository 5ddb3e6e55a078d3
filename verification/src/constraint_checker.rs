//! Constraint checking for Circom semantic analysis.
//!
//! Validates that constraints (`===`, `<==`) produce valid R1CS quadratic form
//! (A * B + C = 0) and warns on unsafe signal assignments (`<--`) without
//! a corresponding constraint (`===`).

use vstd::prelude::*;
use vstd::string::StringSliceAdditionalSpecFns;
use vstd::utf8::encode_utf8;

use crate::ast::{
    AssignOp, AssignStmt, BinaryOp, Block, Expression, ExpressionKind, File, Item, Statement,
    StatementKind, TemplateDef,
};
use crate::parser::{parse_radix_u32, spec_radix_u32};
use crate::span::Span;
use crate::symbol::{DiagnosticKind, ScopeId, SymbolDiagnostic, SymbolKind};
use crate::scope::chain_lookup;
use crate::symbol_table::SymbolTable;

verus! {

/// The diagnostics that the constraint checks can report for `file`.
pub open spec fn constraint_diags_ok(diags: Seq<SymbolDiagnostic>, file: Seq<char>) -> bool {
    forall|k: int|
        0 <= k < diags.len() ==> {
            &&& (#[trigger] diags[k]).file@ == file
            &&& (diags[k].kind == DiagnosticKind::NonQuadraticConstraint || diags[k].kind
                == DiagnosticKind::UnsafeSignalAssignment)
        }
}

/// Run constraint checks on a file's AST using the populated symbol table.
///
/// Returns diagnostics for any constraint errors or warnings found.
pub fn check_constraints(table: &SymbolTable, file_path: &str, ast: &File) -> (diags: Vec<SymbolDiagnostic>)
    requires
        table.wf(),
    ensures
        table.file_root(file_path@) is None ==> diags@.len() == 0,
        constraint_diags_ok(diags@, file_path@),
        match table.file_root(file_path@) {
            Some(root) => items_decided(*table, root, ast.items@) ==> diag_marks(diags@) == items_marks(
                *table,
                root,
                ast.items@,
            ),
            None => true,
        },
{
    let file_scope = match table.file_scope(file_path) {
        Some(s) => s,
        None => {
            return Vec::new();
        },
    };
    let mut checker = ConstraintChecker {
        file: String::from_str(file_path),
        current_scope: file_scope,
        diagnostics: Vec::new(),
    };
    let mut i: usize = 0;
    while i < ast.items.len()
        invariant
            i <= ast.items@.len(),
            table.wf(),
            checker.file@ == file_path@,
            checker.current_scope == file_scope,
            file_scope == table.file_root(file_path@)->0,
            constraint_diags_ok(checker.diagnostics@, file_path@),
            items_decided(*table, file_scope, ast.items@) ==> diag_marks(checker.diagnostics@) == items_marks(
                *table,
                file_scope,
                ast.items@.subrange(0, i as int),
            ),
        decreases ast.items@.len() - i,
    {
        let ghost its = ast.items@;
        proof {
            assert(its.subrange(0, i + 1).drop_last() =~= its.subrange(0, i as int));
            assert(its.subrange(0, i + 1).last() == its[i as int]);
        }
        match &ast.items[i] {
            Item::TemplateDef(t) => {
                assert(items_decided(*table, file_scope, its) ==> template_decided(*table, file_scope, *t));
                checker.check_template(table, t);
            },
            _ => {},
        }
        i += 1;
    }
    assert(ast.items@.subrange(0, ast.items@.len() as int) =~= ast.items@);
    checker.diagnostics
}

struct ConstraintChecker {
    file: String,
    current_scope: ScopeId,
    diagnostics: Vec<SymbolDiagnostic>,
}

/// The "degree" of an expression in the signal domain.
///
/// In R1CS, constraints must be at most quadratic (degree 2) in signals.
/// - Constants and variables have degree 0.
/// - A single signal reference has degree 1.
/// - signal * signal has degree 2 (quadratic — allowed).
/// - signal * signal * signal has degree 3+ (not allowed).
#[derive(Debug, Clone, Copy, PartialEq, Eq, Structural)]
pub enum Degree {
    /// Constant or variable expression (degree 0).
    Constant,
    /// Linear in signals (degree 1).
    Linear,
    /// Quadratic in signals (degree 2) — maximum for R1CS.
    Quadratic,
    /// Cubic or higher (degree 3+) — invalid for R1CS.
    NonQuadratic,
}

/// The degree as a number, 3 standing for every degree above 2.
pub open spec fn degree_num(d: Degree) -> nat {
    match d {
        Degree::Constant => 0,
        Degree::Linear => 1,
        Degree::Quadratic => 2,
        Degree::NonQuadratic => 3,
    }
}

/// The degree of a number, every number above 2 standing for 3.
pub open spec fn degree_of_num(n: int) -> Degree {
    if n <= 0 {
        Degree::Constant
    } else if n == 1 {
        Degree::Linear
    } else if n == 2 {
        Degree::Quadratic
    } else {
        Degree::NonQuadratic
    }
}

/// The larger of two degrees.
pub open spec fn max_degree(a: Degree, b: Degree) -> Degree {
    if degree_num(a) >= degree_num(b) {
        a
    } else {
        b
    }
}

/// The degree of `l ** r`, given the degrees of its operands: a signal
/// base raised to a number literal multiplies its degree by the number
/// (capped at `u32::MAX`); any other exponent of a signal base, or a
/// signal exponent, is non-quadratic.
pub open spec fn pow_degree_of(ld: Degree, r: Expression, rd: Degree) -> Degree {
    if degree_num(ld) > 0 && rd == Degree::Constant {
        match *r.kind {
            ExpressionKind::Number(n) => match spec_radix_u32(encode_utf8(n@), false) {
                Some(exp) => degree_of_num(
                    if degree_num(ld) * exp <= u32::MAX {
                        degree_num(ld) * exp
                    } else {
                        u32::MAX as int
                    },
                ),
                None => Degree::NonQuadratic,
            },
            _ => Degree::NonQuadratic,
        }
    } else if degree_num(ld) > 0 && degree_num(rd) > 0 {
        Degree::NonQuadratic
    } else {
        max_degree(ld, rd)
    }
}

/// The degree of `l op r`, given the degrees of its operands.
pub open spec fn binary_degree_of(ld: Degree, op: BinaryOp, r: Expression, rd: Degree) -> Degree {
    match op {
        BinaryOp::Mul => degree_of_num((degree_num(ld) + degree_num(rd)) as int),
        BinaryOp::Pow => pow_degree_of(ld, r, rd),
        BinaryOp::Add | BinaryOp::Sub => max_degree(ld, rd),
        BinaryOp::Div | BinaryOp::IntDiv | BinaryOp::Mod => if degree_num(rd) > 0 {
            Degree::NonQuadratic
        } else {
            ld
        },
        _ => if degree_num(ld) > 0 || degree_num(rd) > 0 {
            Degree::NonQuadratic
        } else {
            Degree::Constant
        },
    }
}

/// Whether the scope chain of `scope` decides what `name` is, without
/// included files.
pub open spec fn decided(table: SymbolTable, scope: ScopeId, name: Seq<char>) -> bool {
    chain_lookup(table.scope_seq(), scope.0 as int, name) is Some
}

/// `name`, found through the scope chain of `scope`, is a signal.
pub open spec fn chain_signal(table: SymbolTable, scope: ScopeId, name: Seq<char>) -> bool {
    table.chain_symbol(scope.0 as int, name) matches Some(s) && s.kind is Signal
}

/// `name`, found through the scope chain of `scope`, is a signal or a
/// component.
pub open spec fn chain_signal_or_component(table: SymbolTable, scope: ScopeId, name: Seq<char>) -> bool {
    table.chain_symbol(scope.0 as int, name) matches Some(s) && (s.kind is Signal || s.kind is Component)
}

/// The signal degree of `e`, its names resolved through the scope chain
/// of `scope`.
pub open spec fn degree_of(table: SymbolTable, scope: ScopeId, e: Expression) -> Degree
    decreases e,
{
    match *e.kind {
        ExpressionKind::Number(_) => Degree::Constant,
        ExpressionKind::Ident(n) => if chain_signal(table, scope, n@) {
            Degree::Linear
        } else {
            Degree::Constant
        },
        ExpressionKind::Unary(_, x) => degree_of(table, scope, x),
        ExpressionKind::Binary(l, op, r) => binary_degree_of(
            degree_of(table, scope, l),
            op,
            r,
            degree_of(table, scope, r),
        ),
        ExpressionKind::Ternary(c, t, f) => if degree_of(table, scope, c) == Degree::Constant && degree_of(
            table,
            scope,
            t,
        ) == Degree::Constant && degree_of(table, scope, f) == Degree::Constant {
            Degree::Constant
        } else {
            Degree::NonQuadratic
        },
        ExpressionKind::Index(b, _) => degree_of(table, scope, b),
        ExpressionKind::Member(b, _) => match base_name(b) {
            Some(n) => if chain_signal_or_component(table, scope, n) {
                Degree::Linear
            } else {
                Degree::Constant
            },
            None => degree_of(table, scope, b),
        },
        ExpressionKind::Paren(x) => degree_of(table, scope, x),
        _ => Degree::Constant,
    }
}

/// Whether the scope chain of `scope` decides every name that the degree
/// of `e` depends on.
pub open spec fn names_decided(table: SymbolTable, scope: ScopeId, e: Expression) -> bool
    decreases e,
{
    match *e.kind {
        ExpressionKind::Ident(n) => decided(table, scope, n@),
        ExpressionKind::Unary(_, x) => names_decided(table, scope, x),
        ExpressionKind::Binary(l, _, r) => names_decided(table, scope, l) && names_decided(table, scope, r),
        ExpressionKind::Ternary(c, t, f) => names_decided(table, scope, c) && names_decided(table, scope, t)
            && names_decided(table, scope, f),
        ExpressionKind::Index(b, _) => names_decided(table, scope, b),
        ExpressionKind::Member(b, _) => match base_name(b) {
            Some(n) => decided(table, scope, n),
            None => names_decided(table, scope, b),
        },
        ExpressionKind::Paren(x) => names_decided(table, scope, x),
        _ => true,
    }
}

/// Where each diagnostic points and what kind it is.
pub open spec fn diag_marks(ds: Seq<SymbolDiagnostic>) -> Seq<(Span, DiagnosticKind)> {
    ds.map_values(|d: SymbolDiagnostic| (d.span, d.kind))
}

/// The names held by a list of strings, as a predicate.
pub open spec fn in_list(c: Seq<String>) -> spec_fn(Seq<char>) -> bool {
    |n: Seq<char>| crate::symbol_table::list_has(c, n)
}

/// What a constraint `lhs` = `rhs` at `span` reports: that it is not
/// quadratic, when the larger degree of its sides is above 2.
pub open spec fn quad_marks(table: SymbolTable, scope: ScopeId, lhs: Expression, rhs: Expression, span: Span) -> Seq<
    (Span, DiagnosticKind),
> {
    if max_degree(degree_of(table, scope, lhs), degree_of(table, scope, rhs)) == Degree::NonQuadratic {
        seq![(span, DiagnosticKind::NonQuadraticConstraint)]
    } else {
        Seq::empty()
    }
}

/// What an unchecked assignment to `target` at `span` reports: that a
/// signal is assigned without a constraint, when `target` names a signal
/// that no constraint of the template mentions.
pub open spec fn unsafe_marks(
    table: SymbolTable,
    scope: ScopeId,
    constrained: spec_fn(Seq<char>) -> bool,
    target: Expression,
    span: Span,
) -> Seq<(Span, DiagnosticKind)> {
    match base_name(target) {
        Some(n) => if !constrained(n) && chain_signal(table, scope, n) {
            seq![(span, DiagnosticKind::UnsafeSignalAssignment)]
        } else {
            Seq::empty()
        },
        None => Seq::empty(),
    }
}

/// Whether the scope chain decides what [`unsafe_marks`] depends on.
pub open spec fn unsafe_decided(
    table: SymbolTable,
    scope: ScopeId,
    constrained: spec_fn(Seq<char>) -> bool,
    target: Expression,
) -> bool {
    match base_name(target) {
        Some(n) => !constrained(n) ==> decided(table, scope, n),
        None => true,
    }
}

/// What an assignment statement at `span` reports.
pub open spec fn assign_marks(
    table: SymbolTable,
    scope: ScopeId,
    constrained: spec_fn(Seq<char>) -> bool,
    a: AssignStmt,
    span: Span,
) -> Seq<(Span, DiagnosticKind)> {
    match a.op {
        AssignOp::SafeLeft => quad_marks(table, scope, a.lhs, a.rhs, span),
        AssignOp::SafeRight => quad_marks(table, scope, a.rhs, a.lhs, span),
        AssignOp::UnsafeLeft => unsafe_marks(table, scope, constrained, a.lhs, span),
        AssignOp::UnsafeRight => unsafe_marks(table, scope, constrained, a.rhs, span),
        _ => Seq::empty(),
    }
}

/// Whether the scope chain decides what [`assign_marks`] depends on.
pub open spec fn assign_decided(
    table: SymbolTable,
    scope: ScopeId,
    constrained: spec_fn(Seq<char>) -> bool,
    a: AssignStmt,
) -> bool {
    match a.op {
        AssignOp::SafeLeft | AssignOp::SafeRight => names_decided(table, scope, a.lhs) && names_decided(
            table,
            scope,
            a.rhs,
        ),
        AssignOp::UnsafeLeft => unsafe_decided(table, scope, constrained, a.lhs),
        AssignOp::UnsafeRight => unsafe_decided(table, scope, constrained, a.rhs),
        _ => true,
    }
}

/// What the constraint checks report for a statement, nested blocks
/// included, in order.
pub open spec fn stmt_marks(
    table: SymbolTable,
    scope: ScopeId,
    constrained: spec_fn(Seq<char>) -> bool,
    st: Statement,
) -> Seq<(Span, DiagnosticKind)>
    decreases st,
{
    match st.kind {
        StatementKind::ConstraintEq(c) => quad_marks(table, scope, c.lhs, c.rhs, st.span),
        StatementKind::Assignment(a) => assign_marks(table, scope, constrained, a, st.span),
        StatementKind::For(f) => stmts_marks(table, scope, constrained, f.body.stmts@),
        StatementKind::While(w) => stmts_marks(table, scope, constrained, w.body.stmts@),
        StatementKind::IfElse(ie) => stmts_marks(table, scope, constrained, ie.then_body.stmts@) + match ie.else_body {
            Some(eb) => stmts_marks(table, scope, constrained, eb.stmts@),
            None => Seq::empty(),
        },
        StatementKind::Block(b) => stmts_marks(table, scope, constrained, b.stmts@),
        _ => Seq::empty(),
    }
}

/// What the constraint checks report for a list of statements, in order.
pub open spec fn stmts_marks(
    table: SymbolTable,
    scope: ScopeId,
    constrained: spec_fn(Seq<char>) -> bool,
    ss: Seq<Statement>,
) -> Seq<(Span, DiagnosticKind)>
    decreases ss,
{
    if ss.len() == 0 {
        Seq::empty()
    } else {
        stmts_marks(table, scope, constrained, ss.subrange(0, ss.len() - 1)) + stmt_marks(
            table,
            scope,
            constrained,
            ss[ss.len() - 1],
        )
    }
}

/// Whether the scope chain decides every name that the checks of a
/// statement depend on.
pub open spec fn stmt_decided(
    table: SymbolTable,
    scope: ScopeId,
    constrained: spec_fn(Seq<char>) -> bool,
    st: Statement,
) -> bool
    decreases st,
{
    match st.kind {
        StatementKind::ConstraintEq(c) => names_decided(table, scope, c.lhs) && names_decided(table, scope, c.rhs),
        StatementKind::Assignment(a) => assign_decided(table, scope, constrained, a),
        StatementKind::For(f) => stmts_decided(table, scope, constrained, f.body.stmts@),
        StatementKind::While(w) => stmts_decided(table, scope, constrained, w.body.stmts@),
        StatementKind::IfElse(ie) => stmts_decided(table, scope, constrained, ie.then_body.stmts@) && match ie.else_body {
            Some(eb) => stmts_decided(table, scope, constrained, eb.stmts@),
            None => true,
        },
        StatementKind::Block(b) => stmts_decided(table, scope, constrained, b.stmts@),
        _ => true,
    }
}

/// Whether the scope chain decides every name that the checks of a list
/// of statements depend on.
pub open spec fn stmts_decided(
    table: SymbolTable,
    scope: ScopeId,
    constrained: spec_fn(Seq<char>) -> bool,
    ss: Seq<Statement>,
) -> bool
    decreases ss,
{
    if ss.len() == 0 {
        true
    } else {
        stmts_decided(table, scope, constrained, ss.subrange(0, ss.len() - 1)) && stmt_decided(
            table,
            scope,
            constrained,
            ss[ss.len() - 1],
        )
    }
}

impl Degree {
    /// Combine degrees under multiplication: the degrees add up.
    pub fn mul(self, other: Degree) -> (d: Degree)
        ensures
            d == degree_of_num((degree_num(self) + degree_num(other)) as int),
    {
        Degree::from_u32(self.as_u32() + other.as_u32())
    }

    /// Combine degrees under addition (max of the two).
    pub fn combined(self, other: Degree) -> (d: Degree)
        ensures
            d == max_degree(self, other),
    {
        if self.as_u32() >= other.as_u32() {
            self
        } else {
            other
        }
    }

    pub fn as_u32(self) -> (n: u32)
        ensures
            n == degree_num(self),
    {
        match self {
            Degree::Constant => 0,
            Degree::Linear => 1,
            Degree::Quadratic => 2,
            Degree::NonQuadratic => 3,
        }
    }

    pub fn from_u32(n: u32) -> (d: Degree)
        ensures
            d == degree_of_num(n as int),
    {
        match n {
            0 => Degree::Constant,
            1 => Degree::Linear,
            2 => Degree::Quadratic,
            _ => Degree::NonQuadratic,
        }
    }
}

/// The identifier at the base of an lvalue, through indexing and member
/// access.
pub open spec fn base_name(e: Expression) -> Option<Seq<char>>
    decreases e,
{
    match *e.kind {
        ExpressionKind::Ident(n) => Some(n@),
        ExpressionKind::Index(base, _) => base_name(base),
        ExpressionKind::Member(base, _) => base_name(base),
        _ => None,
    }
}

/// The name of the signal or variable an lvalue refers to: an identifier,
/// through any indexing and member access.
pub fn extract_base_name(expr: &Expression) -> (r: Option<String>)
    ensures
        match base_name(*expr) {
            Some(n) => r matches Some(s) && s@ == n,
            None => r is None,
        },
    decreases expr,
{
    match &*expr.kind {
        ExpressionKind::Ident(name) => Some(String::from_str(name.as_str())),
        ExpressionKind::Index(base, _) => extract_base_name(base),
        ExpressionKind::Member(base, _) => extract_base_name(base),
        _ => None,
    }
}

/// Whether `st` constrains the signal named `n`: `n` is the base of
/// either side of a `===`, or of the constrained side of a `<==` or
/// `==>`, in `st` or in a block nested in it.
pub open spec fn stmt_constrains(st: Statement, n: Seq<char>) -> bool
    decreases st,
{
    match st.kind {
        StatementKind::ConstraintEq(c) => base_name(c.lhs) == Some(n) || base_name(c.rhs) == Some(n),
        StatementKind::Assignment(a) => (a.op == AssignOp::SafeLeft && base_name(a.lhs) == Some(n)) || (a.op
            == AssignOp::SafeRight && base_name(a.rhs) == Some(n)),
        StatementKind::For(f) => stmts_constrain(f.body.stmts@, n),
        StatementKind::While(w) => stmts_constrain(w.body.stmts@, n),
        StatementKind::IfElse(ie) => stmts_constrain(ie.then_body.stmts@, n) || match ie.else_body {
            Some(eb) => stmts_constrain(eb.stmts@, n),
            None => false,
        },
        StatementKind::Block(b) => stmts_constrain(b.stmts@, n),
        _ => false,
    }
}

/// Whether one of `ss` constrains the signal named `n`.
pub open spec fn stmts_constrain(ss: Seq<Statement>, n: Seq<char>) -> bool
    decreases ss,
{
    if ss.len() == 0 {
        false
    } else {
        stmts_constrain(ss.subrange(0, ss.len() - 1), n) || stmt_constrains(ss[ss.len() - 1], n)
    }
}

/// The names the statements `ss` constrain, as a predicate.
pub open spec fn constrained_in(ss: Seq<Statement>) -> spec_fn(Seq<char>) -> bool {
    |n: Seq<char>| stmts_constrain(ss, n)
}

/// What the constraint checks report for a template: its name, looked up
/// through the scope chain of `scope`, must name a template, whose body
/// is then checked in the template's own scope.
pub open spec fn template_marks(table: SymbolTable, scope: ScopeId, t: TemplateDef) -> Seq<(Span, DiagnosticKind)> {
    match table.chain_symbol(scope.0 as int, t.name.name@) {
        Some(sym) => match sym.kind {
            SymbolKind::Template(ts) => stmts_marks(
                table,
                ts.body_scope,
                constrained_in(t.body.stmts@),
                t.body.stmts@,
            ),
            _ => Seq::empty(),
        },
        None => Seq::empty(),
    }
}

/// Whether the scope chain decides every name the checks of a template
/// depend on.
pub open spec fn template_decided(table: SymbolTable, scope: ScopeId, t: TemplateDef) -> bool {
    match table.chain_symbol(scope.0 as int, t.name.name@) {
        Some(sym) => match sym.kind {
            SymbolKind::Template(ts) => stmts_decided(
                table,
                ts.body_scope,
                constrained_in(t.body.stmts@),
                t.body.stmts@,
            ),
            _ => true,
        },
        None => true,
    }
}

/// What the constraint checks report for a file's items, in order: the
/// reports of each template.
pub open spec fn items_marks(table: SymbolTable, scope: ScopeId, items: Seq<Item>) -> Seq<(Span, DiagnosticKind)>
    decreases items.len(),
{
    if items.len() == 0 {
        Seq::empty()
    } else {
        items_marks(table, scope, items.drop_last()) + match items.last() {
            Item::TemplateDef(t) => template_marks(table, scope, t),
            _ => Seq::empty(),
        }
    }
}

/// Whether the scope chain decides every name the checks of a file's
/// templates depend on.
pub open spec fn items_decided(table: SymbolTable, scope: ScopeId, items: Seq<Item>) -> bool {
    forall|k: int|
        0 <= k < items.len() ==> match #[trigger] items[k] {
            Item::TemplateDef(t) => template_decided(table, scope, t),
            _ => true,
        }
}

/// Whether `set` holds `s`.
fn set_has(set: &Vec<String>, s: &str) -> (r: bool)
    ensures
        r == crate::symbol_table::list_has(set@, s@),
{
    let mut i: usize = 0;
    while i < set.len()
        invariant
            i <= set@.len(),
            forall|k: int| 0 <= k < i ==> (#[trigger] set@[k])@ != s@,
        decreases set@.len() - i,
    {
        if crate::scope::string_eq(&set[i], s) {
            return true;
        }
        i += 1;
    }
    false
}

/// Add `s` to `set` unless it is there already.
fn set_insert(set: &mut Vec<String>, s: String)
    ensures
        forall|x: Seq<char>|
            crate::symbol_table::list_has(final(set)@, x) <==> (crate::symbol_table::list_has(old(set)@, x)
                || x == s@),
{
    if !set_has(set, s.as_str()) {
        let ghost v = s@;
        set.push(s);
        proof {
            assert forall|x: Seq<char>|
                crate::symbol_table::list_has(set@, x) <==> (crate::symbol_table::list_has(old(set)@, x)
                    || x == v) by {
                if crate::symbol_table::list_has(set@, x) {
                    let k = choose|k: int| 0 <= k < set@.len() && (#[trigger] set@[k])@ == x;
                    if k < old(set)@.len() {
                        assert(old(set)@[k] == set@[k]);
                    }
                }
                if crate::symbol_table::list_has(old(set)@, x) {
                    let k = choose|k: int| 0 <= k < old(set)@.len() && (#[trigger] old(set)@[k])@ == x;
                    assert(set@[k] == old(set)@[k]);
                }
                if x == v {
                    assert(set@[old(set)@.len() as int]@ == v);
                }
            }
        }
    }
}

/// Add the base name of `e`, if it has one.
fn insert_base_name(set: &mut Vec<String>, e: &Expression)
    ensures
        forall|x: Seq<char>|
            crate::symbol_table::list_has(final(set)@, x) <==> (crate::symbol_table::list_has(old(set)@, x)
                || base_name(*e) == Some(x)),
{
    match extract_base_name(e) {
        Some(name) => set_insert(set, name),
        None => {},
    }
}

/// Collect all signal names on either side of `===` constraints, and on
/// the constrained side of `<==` / `==>`, in a block.
fn collect_constrained_in_block(block: &Block, constrained: &mut Vec<String>)
    ensures
        forall|x: Seq<char>|
            crate::symbol_table::list_has(final(constrained)@, x) <==> (crate::symbol_table::list_has(
                old(constrained)@,
                x,
            ) || stmts_constrain(block.stmts@, x)),
    decreases block, 1nat,
{
    let mut i: usize = 0;
    while i < block.stmts.len()
        invariant
            i <= block.stmts@.len(),
            forall|x: Seq<char>|
                crate::symbol_table::list_has(constrained@, x) <==> (crate::symbol_table::list_has(
                    old(constrained)@,
                    x,
                ) || stmts_constrain(block.stmts@.subrange(0, i as int), x)),
        decreases block.stmts@.len() - i,
    {
        assert(decreases_to!(block => block.stmts@[i as int]));
        let ghost ss = block.stmts@;
        assert(ss.subrange(0, i + 1).subrange(0, i as int) =~= ss.subrange(0, i as int));
        let ghost mid = constrained@;
        collect_constrained_in_stmt(&block.stmts[i], &mut *constrained);
        assert forall|x: Seq<char>|
            crate::symbol_table::list_has(constrained@, x) <==> (crate::symbol_table::list_has(
                old(constrained)@,
                x,
            ) || stmts_constrain(ss.subrange(0, i + 1), x)) by {
            assert(ss.subrange(0, i + 1)[i as int] == ss[i as int]);
            assert(crate::symbol_table::list_has(mid, x) <==> (crate::symbol_table::list_has(
                old(constrained)@,
                x,
            ) || stmts_constrain(ss.subrange(0, i as int), x)));
            assert(crate::symbol_table::list_has(constrained@, x) <==> (crate::symbol_table::list_has(mid, x)
                || stmt_constrains(ss[i as int], x)));
        }
        i += 1;
    }
    assert(block.stmts@.subrange(0, block.stmts@.len() as int) =~= block.stmts@);
}

fn collect_constrained_in_stmt(stmt: &Statement, constrained: &mut Vec<String>)
    ensures
        forall|x: Seq<char>|
            #![trigger crate::symbol_table::list_has(final(constrained)@, x)]
            #![trigger crate::symbol_table::list_has(old(constrained)@, x)]
            #![trigger stmt_constrains(*stmt, x)]
            crate::symbol_table::list_has(final(constrained)@, x) <==> (crate::symbol_table::list_has(
                old(constrained)@,
                x,
            ) || stmt_constrains(*stmt, x)),
    decreases stmt, 0nat,
{
    match &stmt.kind {
        StatementKind::ConstraintEq(c) => {
            insert_base_name(constrained, &c.lhs);
            insert_base_name(constrained, &c.rhs);
        },
        StatementKind::Assignment(a) => {
            // <== also generates a constraint
            if a.op == AssignOp::SafeLeft {
                insert_base_name(constrained, &a.lhs);
            } else if a.op == AssignOp::SafeRight {
                insert_base_name(constrained, &a.rhs);
            }
        },
        StatementKind::For(f) => collect_constrained_in_block(&f.body, constrained),
        StatementKind::While(w) => collect_constrained_in_block(&w.body, constrained),
        StatementKind::IfElse(ie) => {
            collect_constrained_in_block(&ie.then_body, constrained);
            match &ie.else_body {
                Some(eb) => collect_constrained_in_block(eb, constrained),
                None => {},
            }
        },
        StatementKind::Block(b) => collect_constrained_in_block(b, constrained),
        _ => {},
    }
}

/// Each statement of a list whose checks the scope chain decides is
/// decided too, and so is each prefix of the list.
proof fn lemma_stmts_decided_at(
    table: SymbolTable,
    scope: ScopeId,
    constrained: spec_fn(Seq<char>) -> bool,
    ss: Seq<Statement>,
    i: int,
)
    requires
        0 <= i < ss.len(),
    ensures
        stmts_decided(table, scope, constrained, ss) ==> stmt_decided(table, scope, constrained, ss[i]),
        stmts_decided(table, scope, constrained, ss) ==> stmts_decided(table, scope, constrained, ss.subrange(0, i)),
    decreases ss.len(),
{
    if i < ss.len() - 1 {
        let pre = ss.subrange(0, ss.len() - 1);
        lemma_stmts_decided_at(table, scope, constrained, pre, i);
        assert(pre[i] == ss[i]);
        assert(pre.subrange(0, i) =~= ss.subrange(0, i));
    } else {
        assert(ss.subrange(0, i) =~= ss.subrange(0, ss.len() - 1));
    }
}

impl ConstraintChecker {
    spec fn ok(self, file: Seq<char>) -> bool {
        self.file@ == file && constraint_diags_ok(self.diagnostics@, file)
    }

    fn check_template(&mut self, table: &SymbolTable, node: &TemplateDef)
        requires
            table.wf(),
            constraint_diags_ok(old(self).diagnostics@, old(self).file@),
        ensures
            final(self).file == old(self).file,
            final(self).current_scope == old(self).current_scope,
            constraint_diags_ok(final(self).diagnostics@, final(self).file@),
            template_decided(*table, old(self).current_scope, *node) ==> diag_marks(final(self).diagnostics@)
                == diag_marks(old(self).diagnostics@) + template_marks(*table, old(self).current_scope, *node),
    {
        match table.lookup(self.current_scope, node.name.name.as_str()) {
            Some(sym) => match &sym.kind {
                SymbolKind::Template(t) => {
                    let outer_scope = self.current_scope;
                    self.current_scope = t.body_scope;
                    // Collect signals that have a `===` constraint.
                    let mut constrained: Vec<String> = Vec::new();
                    collect_constrained_in_block(&node.body, &mut constrained);
                    assert(in_list(constrained@) =~= constrained_in(node.body.stmts@));
                    self.check_block_constraints(table, &node.body, &constrained);
                    self.current_scope = outer_scope;
                },
                _ => {},
            },
            None => {},
        }
    }

    fn check_block_constraints(&mut self, table: &SymbolTable, block: &Block, constrained: &Vec<String>)
        requires
            table.wf(),
            constraint_diags_ok(old(self).diagnostics@, old(self).file@),
        ensures
            final(self).file == old(self).file,
            final(self).current_scope == old(self).current_scope,
            constraint_diags_ok(final(self).diagnostics@, final(self).file@),
            stmts_decided(*table, old(self).current_scope, in_list(constrained@), block.stmts@) ==> diag_marks(
                final(self).diagnostics@,
            ) == diag_marks(old(self).diagnostics@) + stmts_marks(
                *table,
                old(self).current_scope,
                in_list(constrained@),
                block.stmts@,
            ),
        decreases block, 1nat,
    {
        let mut i: usize = 0;
        while i < block.stmts.len()
            invariant
                i <= block.stmts@.len(),
                table.wf(),
                self.file == old(self).file,
                self.current_scope == old(self).current_scope,
                constraint_diags_ok(self.diagnostics@, self.file@),
                stmts_decided(*table, old(self).current_scope, in_list(constrained@), block.stmts@) ==> diag_marks(
                    self.diagnostics@,
                ) == diag_marks(old(self).diagnostics@) + stmts_marks(
                    *table,
                    old(self).current_scope,
                    in_list(constrained@),
                    block.stmts@.subrange(0, i as int),
                ),
            decreases block.stmts@.len() - i,
        {
            assert(decreases_to!(block => block.stmts@[i as int]));
            let ghost ss = block.stmts@;
            let ghost c = in_list(constrained@);
            let ghost sc = old(self).current_scope;
            proof {
                lemma_stmts_decided_at(*table, sc, c, ss, i as int);
                assert(ss.subrange(0, i + 1).subrange(0, i as int) =~= ss.subrange(0, i as int));
            }
            self.check_stmt_constraints(table, &block.stmts[i], constrained);
            proof {
                if stmts_decided(*table, sc, c, ss) {
                    assert(diag_marks(old(self).diagnostics@) + stmts_marks(*table, sc, c, ss.subrange(0, i + 1))
                        =~= diag_marks(old(self).diagnostics@) + stmts_marks(*table, sc, c, ss.subrange(0, i as int))
                        + stmt_marks(*table, sc, c, ss[i as int]));
                }
            }
            i += 1;
        }
        assert(block.stmts@.subrange(0, block.stmts@.len() as int) =~= block.stmts@);
    }

    fn push_diag(&mut self, span: Span, message: String, kind: DiagnosticKind)
        requires
            constraint_diags_ok(old(self).diagnostics@, old(self).file@),
            kind == DiagnosticKind::NonQuadraticConstraint || kind == DiagnosticKind::UnsafeSignalAssignment,
        ensures
            final(self).file == old(self).file,
            final(self).current_scope == old(self).current_scope,
            constraint_diags_ok(final(self).diagnostics@, final(self).file@),
            diag_marks(final(self).diagnostics@) == diag_marks(old(self).diagnostics@).push((span, kind)),
    {
        let file = String::from_str(self.file.as_str());
        self.diagnostics.push(SymbolDiagnostic { span, message, kind, file });
        assert(diag_marks(self.diagnostics@) =~= diag_marks(old(self).diagnostics@).push((span, kind)));
    }

    fn warn_unsafe_assignment(&mut self, table: &SymbolTable, target: &Expression, constrained: &Vec<String>, span: Span, op_str: &str)
        requires
            table.wf(),
            constraint_diags_ok(old(self).diagnostics@, old(self).file@),
        ensures
            final(self).file == old(self).file,
            final(self).current_scope == old(self).current_scope,
            constraint_diags_ok(final(self).diagnostics@, final(self).file@),
            unsafe_decided(*table, old(self).current_scope, in_list(constrained@), *target) ==> diag_marks(
                final(self).diagnostics@,
            ) == diag_marks(old(self).diagnostics@) + unsafe_marks(
                *table,
                old(self).current_scope,
                in_list(constrained@),
                *target,
                span,
            ),
    {
        match extract_base_name(target) {
            Some(name) => {
                if !set_has(constrained, name.as_str()) && self.is_signal(table, name.as_str()) {
                    let mut message = String::from_str("signal '");
                    message.append(name.as_str());
                    message.append("' assigned with '");
                    message.append(op_str);
                    message.append("' without a corresponding '===' constraint");
                    self.push_diag(span, message, DiagnosticKind::UnsafeSignalAssignment);
                }
            },
            None => {},
        }
    }

    fn check_assignment_constraint(&mut self, table: &SymbolTable, a: &AssignStmt, constrained: &Vec<String>, span: Span)
        requires
            table.wf(),
            constraint_diags_ok(old(self).diagnostics@, old(self).file@),
        ensures
            final(self).file == old(self).file,
            final(self).current_scope == old(self).current_scope,
            constraint_diags_ok(final(self).diagnostics@, final(self).file@),
            assign_decided(*table, old(self).current_scope, in_list(constrained@), *a) ==> diag_marks(
                final(self).diagnostics@,
            ) == diag_marks(old(self).diagnostics@) + assign_marks(
                *table,
                old(self).current_scope,
                in_list(constrained@),
                *a,
                span,
            ),
    {
        match a.op {
            AssignOp::SafeLeft => {
                // <== generates a constraint: check quadratic form
                self.check_quadratic_constraint(table, &a.lhs, &a.rhs, span);
            },
            AssignOp::SafeRight => {
                self.check_quadratic_constraint(table, &a.rhs, &a.lhs, span);
            },
            AssignOp::UnsafeLeft => {
                self.warn_unsafe_assignment(table, &a.lhs, constrained, span, "<--");
            },
            AssignOp::UnsafeRight => {
                self.warn_unsafe_assignment(table, &a.rhs, constrained, span, "-->");
            },
            _ => {},
        }
    }

    fn check_stmt_constraints(&mut self, table: &SymbolTable, stmt: &Statement, constrained: &Vec<String>)
        requires
            table.wf(),
            constraint_diags_ok(old(self).diagnostics@, old(self).file@),
        ensures
            final(self).file == old(self).file,
            final(self).current_scope == old(self).current_scope,
            constraint_diags_ok(final(self).diagnostics@, final(self).file@),
            stmt_decided(*table, old(self).current_scope, in_list(constrained@), *stmt) ==> diag_marks(
                final(self).diagnostics@,
            ) == diag_marks(old(self).diagnostics@) + stmt_marks(
                *table,
                old(self).current_scope,
                in_list(constrained@),
                *stmt,
            ),
        decreases stmt, 0nat,
    {
        match &stmt.kind {
            StatementKind::ConstraintEq(c) => {
                self.check_quadratic_constraint(table, &c.lhs, &c.rhs, stmt.span);
            },
            StatementKind::Assignment(a) => {
                self.check_assignment_constraint(table, a, constrained, stmt.span);
            },
            StatementKind::For(f) => self.check_block_constraints(table, &f.body, constrained),
            StatementKind::While(w) => self.check_block_constraints(table, &w.body, constrained),
            StatementKind::IfElse(ie) => {
                self.check_block_constraints(table, &ie.then_body, constrained);
                match &ie.else_body {
                    Some(eb) => self.check_block_constraints(table, eb, constrained),
                    None => {},
                }
            },
            StatementKind::Block(b) => self.check_block_constraints(table, b, constrained),
            _ => {},
        }
    }

    /// Check that a constraint (lhs === rhs or lhs <== rhs) is quadratic:
    /// `lhs - rhs = 0` must be expressible as A * B + C = 0 with A, B, C
    /// linear combinations of signals, so the overall degree is at most 2.
    fn check_quadratic_constraint(&mut self, table: &SymbolTable, lhs: &Expression, rhs: &Expression, span: Span)
        requires
            table.wf(),
            constraint_diags_ok(old(self).diagnostics@, old(self).file@),
        ensures
            final(self).file == old(self).file,
            final(self).current_scope == old(self).current_scope,
            constraint_diags_ok(final(self).diagnostics@, final(self).file@),
            names_decided(*table, old(self).current_scope, *lhs) && names_decided(
                *table,
                old(self).current_scope,
                *rhs,
            ) ==> diag_marks(final(self).diagnostics@) == diag_marks(old(self).diagnostics@) + quad_marks(
                *table,
                old(self).current_scope,
                *lhs,
                *rhs,
                span,
            ),
    {
        let lhs_deg = self.expr_degree(table, lhs);
        let rhs_deg = self.expr_degree(table, rhs);
        let overall = lhs_deg.combined(rhs_deg);
        if overall == Degree::NonQuadratic {
            self.push_diag(
                span,
                String::from_str("constraint is not quadratic; R1CS requires at most degree-2 expressions"),
                DiagnosticKind::NonQuadraticConstraint,
            );
        }
    }

    /// `signal ** constant` has the degree of the signal times the
    /// exponent; an unknown exponent or a signal exponent is taken as
    /// non-quadratic.
    fn pow_degree(&self, ld: Degree, r: &Expression, rd: Degree) -> (d: Degree)
        ensures
            d == pow_degree_of(ld, *r, rd),
    {
        if ld.as_u32() > 0 && rd == Degree::Constant {
            // If the exponent is a known number, compute the degree.
            match &*r.kind {
                ExpressionKind::Number(n) => {
                    let nb = n.as_str().as_bytes();
                    assert(nb@.subrange(0, nb@.len() as int) =~= encode_utf8(n@));
                    match parse_radix_u32(nb, 0, false) {
                        Some(exp) => {
                            let prod = match ld.as_u32().checked_mul(exp) {
                                Some(p) => p,
                                None => u32::MAX,
                            };
                            return Degree::from_u32(prod);
                        },
                        None => {},
                    }
                },
                _ => {},
            }
            // Unknown exponent with signal base — assume non-quadratic
            Degree::NonQuadratic
        } else if ld.as_u32() > 0 && rd.as_u32() > 0 {
            Degree::NonQuadratic
        } else {
            ld.combined(rd)
        }
    }

    /// The degree of `l op r`, given the degrees of its operands.
    fn binary_degree(&self, ld: Degree, op: BinaryOp, r: &Expression, rd: Degree) -> (d: Degree)
        ensures
            d == binary_degree_of(ld, op, *r, rd),
    {
        match op {
            BinaryOp::Mul => ld.mul(rd),
            BinaryOp::Pow => self.pow_degree(ld, r, rd),
            BinaryOp::Add | BinaryOp::Sub => ld.combined(rd),
            BinaryOp::Div | BinaryOp::IntDiv | BinaryOp::Mod => {
                // Division by a signal is non-linear
                if rd.as_u32() > 0 {
                    Degree::NonQuadratic
                } else {
                    ld
                }
            },
            // Comparison, logical and bitwise operators produce constants
            _ => {
                if ld.as_u32() > 0 || rd.as_u32() > 0 {
                    Degree::NonQuadratic
                } else {
                    Degree::Constant
                }
            },
        }
    }

    /// Compute the signal degree of an expression.
    fn expr_degree(&self, table: &SymbolTable, expr: &Expression) -> (d: Degree)
        requires
            table.wf(),
        ensures
            names_decided(*table, self.current_scope, *expr) ==> d == degree_of(*table, self.current_scope, *expr),
        decreases expr, 1nat,
    {
        match &*expr.kind {
            ExpressionKind::Number(_) => Degree::Constant,
            ExpressionKind::Ident(name) => {
                if self.is_signal(table, name.as_str()) {
                    Degree::Linear
                } else {
                    Degree::Constant
                }
            },
            ExpressionKind::Unary(_, e) => self.expr_degree(table, e),
            ExpressionKind::Binary(l, op, r) => {
                let ld = self.expr_degree(table, l);
                let rd = self.expr_degree(table, r);
                self.binary_degree(ld, *op, r, rd)
            },
            ExpressionKind::Ternary(cond, then_expr, else_expr) => {
                let cd = self.expr_degree(table, cond);
                let td = self.expr_degree(table, then_expr);
                let ed = self.expr_degree(table, else_expr);
                if cd == Degree::Constant && td == Degree::Constant && ed == Degree::Constant {
                    Degree::Constant
                } else {
                    Degree::NonQuadratic
                }
            },
            ExpressionKind::Index(base, _) => self.expr_degree(table, base),
            ExpressionKind::Member(base, _) => {
                // Member access on a component signal — treat as linear
                match extract_base_name(expr) {
                    Some(name) => {
                        if self.is_signal_or_component(table, name.as_str()) {
                            Degree::Linear
                        } else {
                            Degree::Constant
                        }
                    },
                    None => self.expr_degree(table, base),
                }
            },
            // Function calls return runtime values (degree 0 for constraint purposes)
            ExpressionKind::Call(_, _) => Degree::Constant,
            ExpressionKind::Paren(e) => self.expr_degree(table, e),
            _ => Degree::Constant,
        }
    }

    fn is_signal(&self, table: &SymbolTable, name: &str) -> (r: bool)
        requires
            table.wf(),
        ensures
            decided(*table, self.current_scope, name@) ==> r == chain_signal(*table, self.current_scope, name@),
    {
        match table.lookup_with_includes(self.current_scope, name, self.file.as_str()) {
            Some(s) => matches!(s.kind, SymbolKind::Signal(_)),
            None => false,
        }
    }

    fn is_signal_or_component(&self, table: &SymbolTable, name: &str) -> (r: bool)
        requires
            table.wf(),
        ensures
            decided(*table, self.current_scope, name@) ==> r == chain_signal_or_component(
                *table,
                self.current_scope,
                name@,
            ),
    {
        match table.lookup_with_includes(self.current_scope, name, self.file.as_str()) {
            Some(s) => matches!(s.kind, SymbolKind::Signal(_) | SymbolKind::Component(_)),
            None => false,
        }
    }
}

} // verus!
