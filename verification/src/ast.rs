//! AST node types for Circom v2.2.3.
//!
//! Every node carries a [`Span`] for source-location tracking.

use vstd::prelude::*;

use crate::span::Span;

verus! {

// ── Top-level file ──────────────────────────────────────────────────

/// A complete `.circom` source file.
#[derive(Debug, PartialEq)]
pub struct File {
    pub span: Span,
    pub items: Vec<Item>,
}

/// A top-level item in a circom file.
#[derive(Debug, PartialEq)]
pub enum Item {
    Pragma(Pragma),
    Include(Include),
    TemplateDef(TemplateDef),
    FunctionDef(FunctionDef),
    BusDef(BusDef),
    MainComponent(MainComponent),
}

// ── Pragma & Include ────────────────────────────────────────────────

#[derive(Debug, PartialEq)]
pub struct Pragma {
    pub span: Span,
    pub kind: PragmaKind,
}

#[derive(Debug, PartialEq)]
pub enum PragmaKind {
    /// `pragma circom "2.2.3";`  — stored as the version string
    Version(Version),
    /// `pragma custom_templates;`
    CustomTemplates,
}

#[derive(Debug, Clone, Copy, PartialEq, Eq, Structural, PartialOrd, Ord)]
pub struct Version {
    pub major: u32,
    pub minor: u32,
    pub patch: u32,
}

#[derive(Debug, PartialEq)]
pub struct Include {
    pub span: Span,
    pub path: String,
}

// ── Template ────────────────────────────────────────────────────────

#[derive(Debug, PartialEq)]
pub struct TemplateDef {
    pub span: Span,
    pub name: Identifier,
    pub params: Vec<Identifier>,
    pub body: Block,
    pub is_custom: bool,
    pub is_parallel: bool,
    pub is_extern: bool,
}

// ── Function ────────────────────────────────────────────────────────

#[derive(Debug, PartialEq)]
pub struct FunctionDef {
    pub span: Span,
    pub name: Identifier,
    pub params: Vec<Identifier>,
    pub body: Block,
}

// ── Bus ─────────────────────────────────────────────────────────────

#[derive(Debug, PartialEq)]
pub struct BusDef {
    pub span: Span,
    pub name: Identifier,
    pub params: Vec<Identifier>,
    pub body: Vec<BusMember>,
}

#[derive(Debug, PartialEq)]
pub enum BusMember {
    Signal(SignalDecl),
    Bus(BusFieldDecl),
}

#[derive(Debug, PartialEq)]
pub struct BusFieldDecl {
    pub span: Span,
    pub bus_type: BusType,
    pub tags: Vec<Identifier>,
    pub name: Identifier,
    pub dimensions: Vec<Expression>,
}

// ── Main component ──────────────────────────────────────────────────

#[derive(Debug, PartialEq)]
pub struct MainComponent {
    pub span: Span,
    pub public_signals: Vec<Identifier>,
    pub expr: Expression,
}

// ── Statements ──────────────────────────────────────────────────────

#[derive(Debug, PartialEq)]
pub struct Block {
    pub span: Span,
    pub stmts: Vec<Statement>,
}

#[derive(Debug, PartialEq)]
pub struct Statement {
    pub span: Span,
    pub kind: StatementKind,
}

#[derive(Debug, PartialEq)]
pub enum StatementKind {
    VarDecl(VarDecl),
    SignalDecl(SignalDecl),
    ComponentDecl(ComponentDecl),
    BusDecl(BusInstanceDecl),

    /// `expr <op> expr` where op is =, <==, ==>, <--, -->, ===
    Assignment(AssignStmt),
    /// Compound assignment: +=, -=, etc.
    CompoundAssign(CompoundAssignStmt),
    /// Constraint equality: `expr === expr`
    ConstraintEq(ConstraintEqStmt),

    /// Tuple assignment: `(a, b, _) <== expr`
    TupleAssign(TupleAssignStmt),

    IfElse(IfElse),
    For(ForLoop),
    While(WhileLoop),
    Return(ReturnStmt),
    Log(LogStmt),
    Assert(AssertStmt),

    /// `expr++` or `expr--`
    Increment(Expression),
    Decrement(Expression),

    /// A bare expression statement (e.g., function call).
    Expression(Expression),

    /// Block statement `{ ... }`
    Block(Block),

    /// Error recovery placeholder.
    Error,
}

// ── Declarations ────────────────────────────────────────────────────

#[derive(Debug, PartialEq)]
pub struct VarDecl {
    pub span: Span,
    pub names: Vec<VarDeclEntry>,
}

#[derive(Debug, PartialEq)]
pub struct VarDeclEntry {
    pub name: Identifier,
    pub dimensions: Vec<Expression>,
    pub init: Option<Expression>,
}

#[derive(Debug, PartialEq)]
pub struct SignalDecl {
    pub span: Span,
    pub kind: SignalKind,
    pub tags: Vec<Identifier>,
    pub names: Vec<SignalDeclEntry>,
}

#[derive(Debug, PartialEq)]
pub struct SignalDeclEntry {
    pub name: Identifier,
    pub dimensions: Vec<Expression>,
    pub init: Option<(SignalAssignOp, Expression)>,
}

#[derive(Debug, Clone, Copy, PartialEq, Eq, Structural)]
pub enum SignalKind {
    Input,
    Output,
    Intermediate,
}

#[derive(Debug, Clone, Copy, PartialEq, Eq, Structural)]
pub enum SignalAssignOp {
    SafeLeft,   // <==
    UnsafeLeft, // <--
}

#[derive(Debug, PartialEq)]
pub struct ComponentDecl {
    pub span: Span,
    pub is_parallel: bool,
    pub names: Vec<ComponentDeclEntry>,
}

#[derive(Debug, PartialEq)]
pub struct ComponentDeclEntry {
    pub name: Identifier,
    pub dimensions: Vec<Expression>,
    pub init: Option<Expression>,
}

#[derive(Debug, PartialEq)]
pub struct BusInstanceDecl {
    pub span: Span,
    pub bus_type: BusType,
    pub signal_kind: SignalKind,
    pub tags: Vec<Identifier>,
    pub name: Identifier,
    pub dimensions: Vec<Expression>,
    pub init: Option<(SignalAssignOp, Expression)>,
}

#[derive(Debug, PartialEq)]
pub struct BusType {
    pub span: Span,
    pub name: Identifier,
    pub args: Vec<Expression>,
}

// ── Assignment statements ───────────────────────────────────────────

#[derive(Debug, PartialEq)]
pub struct AssignStmt {
    pub lhs: Expression,
    pub op: AssignOp,
    pub rhs: Expression,
}

#[derive(Debug, Clone, Copy, PartialEq, Eq, Structural)]
pub enum AssignOp {
    Eq,          // =
    SafeLeft,    // <==
    SafeRight,   // ==>
    UnsafeLeft,  // <--
    UnsafeRight, // -->
}

#[derive(Debug, PartialEq)]
pub struct CompoundAssignStmt {
    pub lhs: Expression,
    pub op: CompoundOp,
    pub rhs: Expression,
}

#[derive(Debug, Clone, Copy, PartialEq, Eq, Structural)]
pub enum CompoundOp {
    AddAssign,
    SubAssign,
    MulAssign,
    PowAssign,
    DivAssign,
    IntDivAssign,
    ModAssign,
    ShlAssign,
    ShrAssign,
    BitAndAssign,
    BitOrAssign,
    BitXorAssign,
}

#[derive(Debug, PartialEq)]
pub struct ConstraintEqStmt {
    pub lhs: Expression,
    pub rhs: Expression,
}

#[derive(Debug, PartialEq)]
pub struct TupleAssignStmt {
    /// Each element is either Some(expr) or None (underscore placeholder).
    pub targets: Vec<Option<Expression>>,
    pub op: AssignOp,
    pub rhs: Expression,
}

// ── Control flow ────────────────────────────────────────────────────

#[derive(Debug, PartialEq)]
pub struct IfElse {
    pub cond: Expression,
    pub then_body: Block,
    pub else_body: Option<Block>,
}

#[derive(Debug, PartialEq)]
pub struct ForLoop {
    pub init: Box<Statement>,
    pub cond: Expression,
    pub step: Box<Statement>,
    pub body: Block,
}

#[derive(Debug, PartialEq)]
pub struct WhileLoop {
    pub cond: Expression,
    pub body: Block,
}

#[derive(Debug, PartialEq)]
pub struct ReturnStmt {
    pub value: Expression,
}

#[derive(Debug, PartialEq)]
pub struct LogStmt {
    pub args: Vec<LogArg>,
}

#[derive(Debug, PartialEq)]
pub enum LogArg {
    Expr(Expression),
    String(String),
}

#[derive(Debug, PartialEq)]
pub struct AssertStmt {
    pub expr: Expression,
}

// ── Expressions ─────────────────────────────────────────────────────

#[derive(Debug, PartialEq)]
pub struct Expression {
    pub span: Span,
    pub kind: Box<ExpressionKind>,
}

#[derive(Debug, PartialEq)]
pub enum ExpressionKind {
    /// Numeric literal
    Number(String),

    /// Identifier
    Ident(String),

    /// Unary operator
    Unary(UnaryOp, Expression),

    /// Binary operator
    Binary(Expression, BinaryOp, Expression),

    /// Ternary `cond ? then : else`
    Ternary(Expression, Expression, Expression),

    /// Array index: `expr[index]`
    Index(Expression, Expression),

    /// Member access: `expr.field`
    Member(Expression, Identifier),

    /// Function / template call: `name(args)`
    Call(Expression, Vec<Expression>),

    /// Anonymous component invocation: `Template(params)(inputs)`
    AnonymousComp(AnonymousComp),

    /// Array literal `[a, b, c]`
    ArrayLit(Vec<Expression>),

    /// Parenthesized expression
    Paren(Expression),

    /// `parallel expr`
    Parallel(Expression),

    /// Underscore placeholder `_`
    Underscore,

    /// Error recovery placeholder.
    Error,
}

#[derive(Debug, PartialEq)]
pub struct AnonymousComp {
    /// The template expression (name or call)
    pub template: Expression,
    /// Template arguments
    pub template_args: Vec<Expression>,
    /// Input signal assignments
    pub inputs: Vec<AnonCompInput>,
}

#[derive(Debug, PartialEq)]
pub enum AnonCompInput {
    /// Positional input
    Positional(Expression),
    /// Named input: `name <== expr`
    Named(Identifier, Expression),
}

#[derive(Debug, Clone, Copy, PartialEq, Eq, Structural)]
pub enum UnaryOp {
    Neg,    // -
    Not,    // !
    BitNot, // ~
}

#[derive(Debug, Clone, Copy, PartialEq, Eq, Structural)]
pub enum BinaryOp {
    Add,
    Sub,
    Mul,
    Div,
    IntDiv,
    Mod,
    Pow,
    Shl,
    Shr,
    BitAnd,
    BitOr,
    BitXor,
    And,
    Or,
    Eq,
    Ne,
    Lt,
    Gt,
    Le,
    Ge,
}

// ── Common types ────────────────────────────────────────────────────

#[derive(Debug, PartialEq)]
pub struct Identifier {
    pub span: Span,
    pub name: String,
}

pub open spec fn spec_item_span(item: Item) -> Span {
    match item {
        Item::Pragma(p) => p.span,
        Item::Include(i) => i.span,
        Item::TemplateDef(t) => t.span,
        Item::FunctionDef(f) => f.span,
        Item::BusDef(b) => b.span,
        Item::MainComponent(m) => m.span,
    }
}

/// The span of a top-level item.
pub fn item_span(item: &Item) -> (s: Span)
    ensures
        s == spec_item_span(*item),
{
    match item {
        Item::Pragma(p) => p.span,
        Item::Include(i) => i.span,
        Item::TemplateDef(t) => t.span,
        Item::FunctionDef(f) => f.span,
        Item::BusDef(b) => b.span,
        Item::MainComponent(m) => m.span,
    }
}

/// `a < b` in (major, minor, patch) order.
pub open spec fn version_lt(a: Version, b: Version) -> bool {
    a.major < b.major || (a.major == b.major && (a.minor < b.minor || (a.minor == b.minor
        && a.patch < b.patch)))
}

impl Version {
    /// Whether `self` is an older version than `other`.
    pub fn older_than(&self, other: &Version) -> (r: bool)
        ensures
            r == version_lt(*self, *other),
    {
        self.major < other.major || (self.major == other.major && (self.minor < other.minor || (
        self.minor == other.minor && self.patch < other.patch)))
    }
}


// ── Deep copies ─────────────────────────────────────────────────────

/// A copy of a string.
fn copy_string(s: &String) -> (r: String)
    ensures
        r@ == s@,
{
    String::from_str(s.as_str())
}

fn clone_file(x: &File) -> File
    decreases x, 0nat,
{
    File { span: x.span, items: clone_vec_item(&x.items) }
}

/// A copy of a top-level item that is alike at the top: the same kind of
/// item, at the same span, with the same name or path.
pub open spec fn item_alike(a: Item, b: Item) -> bool {
    &&& spec_item_span(a) == spec_item_span(b)
    &&& match (a, b) {
        (Item::Pragma(x), Item::Pragma(y)) => x == y,
        (Item::Include(x), Item::Include(y)) => x.path@ == y.path@,
        (Item::TemplateDef(x), Item::TemplateDef(y)) => x.name.name@ == y.name.name@,
        (Item::FunctionDef(x), Item::FunctionDef(y)) => x.name.name@ == y.name.name@,
        (Item::BusDef(x), Item::BusDef(y)) => x.name.name@ == y.name.name@,
        (Item::MainComponent(x), Item::MainComponent(y)) => true,
        _ => false,
    }
}

fn clone_item(x: &Item) -> (r: Item)
    ensures
        item_alike(r, *x),
    decreases x, 0nat,
{
    match x {
        Item::Pragma(a0) => Item::Pragma(clone_pragma(a0)),
        Item::Include(a0) => Item::Include(clone_include(a0)),
        Item::TemplateDef(a0) => Item::TemplateDef(clone_template_def(a0)),
        Item::FunctionDef(a0) => Item::FunctionDef(clone_function_def(a0)),
        Item::BusDef(a0) => Item::BusDef(clone_bus_def(a0)),
        Item::MainComponent(a0) => Item::MainComponent(clone_main_component(a0)),
    }
}

fn clone_pragma(x: &Pragma) -> (r: Pragma)
    ensures
        r == *x,
    decreases x, 0nat,
{
    Pragma { span: x.span, kind: clone_pragma_kind(&x.kind) }
}

fn clone_pragma_kind(x: &PragmaKind) -> (r: PragmaKind)
    ensures
        r == *x,
    decreases x, 0nat,
{
    match x {
        PragmaKind::Version(a0) => PragmaKind::Version(*a0),
        PragmaKind::CustomTemplates => PragmaKind::CustomTemplates,
    }
}

fn clone_include(x: &Include) -> (r: Include)
    ensures
        r.span == x.span,
        r.path@ == x.path@,
    decreases x, 0nat,
{
    Include { span: x.span, path: copy_string(&x.path) }
}

fn clone_template_def(x: &TemplateDef) -> (r: TemplateDef)
    ensures
        r.span == x.span,
        r.name.name@ == x.name.name@,
    decreases x, 0nat,
{
    TemplateDef { span: x.span, name: clone_identifier(&x.name), params: clone_vec_identifier(&x.params), body: clone_block(&x.body), is_custom: x.is_custom, is_parallel: x.is_parallel, is_extern: x.is_extern }
}

fn clone_function_def(x: &FunctionDef) -> (r: FunctionDef)
    ensures
        r.span == x.span,
        r.name.name@ == x.name.name@,
    decreases x, 0nat,
{
    FunctionDef { span: x.span, name: clone_identifier(&x.name), params: clone_vec_identifier(&x.params), body: clone_block(&x.body) }
}

fn clone_bus_def(x: &BusDef) -> (r: BusDef)
    ensures
        r.span == x.span,
        r.name.name@ == x.name.name@,
    decreases x, 0nat,
{
    BusDef { span: x.span, name: clone_identifier(&x.name), params: clone_vec_identifier(&x.params), body: clone_vec_bus_member(&x.body) }
}

fn clone_bus_member(x: &BusMember) -> BusMember
    decreases x, 0nat,
{
    match x {
        BusMember::Signal(a0) => BusMember::Signal(clone_signal_decl(a0)),
        BusMember::Bus(a0) => BusMember::Bus(clone_bus_field_decl(a0)),
    }
}

fn clone_bus_field_decl(x: &BusFieldDecl) -> BusFieldDecl
    decreases x, 0nat,
{
    BusFieldDecl { span: x.span, bus_type: clone_bus_type(&x.bus_type), tags: clone_vec_identifier(&x.tags), name: clone_identifier(&x.name), dimensions: clone_vec_expression(&x.dimensions) }
}

fn clone_main_component(x: &MainComponent) -> (r: MainComponent)
    ensures
        r.span == x.span,
    decreases x, 0nat,
{
    MainComponent { span: x.span, public_signals: clone_vec_identifier(&x.public_signals), expr: clone_expression(&x.expr) }
}

fn clone_block(x: &Block) -> Block
    decreases x, 0nat,
{
    Block { span: x.span, stmts: clone_vec_statement(&x.stmts) }
}

fn clone_statement(x: &Statement) -> Statement
    decreases x, 0nat,
{
    Statement { span: x.span, kind: clone_statement_kind(&x.kind) }
}

fn clone_statement_kind(x: &StatementKind) -> StatementKind
    decreases x, 0nat,
{
    match x {
        StatementKind::VarDecl(a0) => StatementKind::VarDecl(clone_var_decl(a0)),
        StatementKind::SignalDecl(a0) => StatementKind::SignalDecl(clone_signal_decl(a0)),
        StatementKind::ComponentDecl(a0) => StatementKind::ComponentDecl(clone_component_decl(a0)),
        StatementKind::BusDecl(a0) => StatementKind::BusDecl(clone_bus_instance_decl(a0)),
        StatementKind::Assignment(a0) => StatementKind::Assignment(clone_assign_stmt(a0)),
        StatementKind::CompoundAssign(a0) => StatementKind::CompoundAssign(clone_compound_assign_stmt(a0)),
        StatementKind::ConstraintEq(a0) => StatementKind::ConstraintEq(clone_constraint_eq_stmt(a0)),
        StatementKind::TupleAssign(a0) => StatementKind::TupleAssign(clone_tuple_assign_stmt(a0)),
        StatementKind::IfElse(a0) => StatementKind::IfElse(clone_if_else(a0)),
        StatementKind::For(a0) => StatementKind::For(clone_for_loop(a0)),
        StatementKind::While(a0) => StatementKind::While(clone_while_loop(a0)),
        StatementKind::Return(a0) => StatementKind::Return(clone_return_stmt(a0)),
        StatementKind::Log(a0) => StatementKind::Log(clone_log_stmt(a0)),
        StatementKind::Assert(a0) => StatementKind::Assert(clone_assert_stmt(a0)),
        StatementKind::Increment(a0) => StatementKind::Increment(clone_expression(a0)),
        StatementKind::Decrement(a0) => StatementKind::Decrement(clone_expression(a0)),
        StatementKind::Expression(a0) => StatementKind::Expression(clone_expression(a0)),
        StatementKind::Block(a0) => StatementKind::Block(clone_block(a0)),
        StatementKind::Error => StatementKind::Error,
    }
}

fn clone_var_decl(x: &VarDecl) -> VarDecl
    decreases x, 0nat,
{
    VarDecl { span: x.span, names: clone_vec_var_decl_entry(&x.names) }
}

fn clone_var_decl_entry(x: &VarDeclEntry) -> VarDeclEntry
    decreases x, 0nat,
{
    VarDeclEntry { name: clone_identifier(&x.name), dimensions: clone_vec_expression(&x.dimensions), init: (match &x.init { Some(x) => Some(clone_expression(x)), None => None }) }
}

fn clone_signal_decl(x: &SignalDecl) -> SignalDecl
    decreases x, 0nat,
{
    SignalDecl { span: x.span, kind: x.kind, tags: clone_vec_identifier(&x.tags), names: clone_vec_signal_decl_entry(&x.names) }
}

fn clone_signal_decl_entry(x: &SignalDeclEntry) -> SignalDeclEntry
    decreases x, 0nat,
{
    SignalDeclEntry { name: clone_identifier(&x.name), dimensions: clone_vec_expression(&x.dimensions), init: (match &x.init { Some(x) => Some((x.0, clone_expression(&x.1))), None => None }) }
}

fn clone_component_decl(x: &ComponentDecl) -> ComponentDecl
    decreases x, 0nat,
{
    ComponentDecl { span: x.span, is_parallel: x.is_parallel, names: clone_vec_component_decl_entry(&x.names) }
}

fn clone_component_decl_entry(x: &ComponentDeclEntry) -> ComponentDeclEntry
    decreases x, 0nat,
{
    ComponentDeclEntry { name: clone_identifier(&x.name), dimensions: clone_vec_expression(&x.dimensions), init: (match &x.init { Some(x) => Some(clone_expression(x)), None => None }) }
}

fn clone_bus_instance_decl(x: &BusInstanceDecl) -> BusInstanceDecl
    decreases x, 0nat,
{
    BusInstanceDecl { span: x.span, bus_type: clone_bus_type(&x.bus_type), signal_kind: x.signal_kind, tags: clone_vec_identifier(&x.tags), name: clone_identifier(&x.name), dimensions: clone_vec_expression(&x.dimensions), init: (match &x.init { Some(x) => Some((x.0, clone_expression(&x.1))), None => None }) }
}

fn clone_bus_type(x: &BusType) -> BusType
    decreases x, 0nat,
{
    BusType { span: x.span, name: clone_identifier(&x.name), args: clone_vec_expression(&x.args) }
}

fn clone_assign_stmt(x: &AssignStmt) -> AssignStmt
    decreases x, 0nat,
{
    AssignStmt { lhs: clone_expression(&x.lhs), op: x.op, rhs: clone_expression(&x.rhs) }
}

fn clone_compound_assign_stmt(x: &CompoundAssignStmt) -> CompoundAssignStmt
    decreases x, 0nat,
{
    CompoundAssignStmt { lhs: clone_expression(&x.lhs), op: x.op, rhs: clone_expression(&x.rhs) }
}

fn clone_constraint_eq_stmt(x: &ConstraintEqStmt) -> ConstraintEqStmt
    decreases x, 0nat,
{
    ConstraintEqStmt { lhs: clone_expression(&x.lhs), rhs: clone_expression(&x.rhs) }
}

fn clone_tuple_assign_stmt(x: &TupleAssignStmt) -> TupleAssignStmt
    decreases x, 0nat,
{
    TupleAssignStmt { targets: clone_vec_option_expression(&x.targets), op: x.op, rhs: clone_expression(&x.rhs) }
}

fn clone_if_else(x: &IfElse) -> IfElse
    decreases x, 0nat,
{
    IfElse { cond: clone_expression(&x.cond), then_body: clone_block(&x.then_body), else_body: (match &x.else_body { Some(x) => Some(clone_block(x)), None => None }) }
}

fn clone_for_loop(x: &ForLoop) -> ForLoop
    decreases x, 0nat,
{
    ForLoop { init: Box::new(clone_statement(&x.init)), cond: clone_expression(&x.cond), step: Box::new(clone_statement(&x.step)), body: clone_block(&x.body) }
}

fn clone_while_loop(x: &WhileLoop) -> WhileLoop
    decreases x, 0nat,
{
    WhileLoop { cond: clone_expression(&x.cond), body: clone_block(&x.body) }
}

fn clone_return_stmt(x: &ReturnStmt) -> ReturnStmt
    decreases x, 0nat,
{
    ReturnStmt { value: clone_expression(&x.value) }
}

fn clone_log_stmt(x: &LogStmt) -> LogStmt
    decreases x, 0nat,
{
    LogStmt { args: clone_vec_log_arg(&x.args) }
}

fn clone_log_arg(x: &LogArg) -> LogArg
    decreases x, 0nat,
{
    match x {
        LogArg::Expr(a0) => LogArg::Expr(clone_expression(a0)),
        LogArg::String(a0) => LogArg::String(copy_string(a0)),
    }
}

fn clone_assert_stmt(x: &AssertStmt) -> AssertStmt
    decreases x, 0nat,
{
    AssertStmt { expr: clone_expression(&x.expr) }
}

fn clone_expression(x: &Expression) -> Expression
    decreases x, 0nat,
{
    Expression { span: x.span, kind: Box::new(clone_expression_kind(&x.kind)) }
}

fn clone_expression_kind(x: &ExpressionKind) -> ExpressionKind
    decreases x, 0nat,
{
    match x {
        ExpressionKind::Number(a0) => ExpressionKind::Number(copy_string(a0)),
        ExpressionKind::Ident(a0) => ExpressionKind::Ident(copy_string(a0)),
        ExpressionKind::Unary(a0, a1) => ExpressionKind::Unary(*a0, clone_expression(a1)),
        ExpressionKind::Binary(a0, a1, a2) => ExpressionKind::Binary(clone_expression(a0), *a1, clone_expression(a2)),
        ExpressionKind::Ternary(a0, a1, a2) => ExpressionKind::Ternary(clone_expression(a0), clone_expression(a1), clone_expression(a2)),
        ExpressionKind::Index(a0, a1) => ExpressionKind::Index(clone_expression(a0), clone_expression(a1)),
        ExpressionKind::Member(a0, a1) => ExpressionKind::Member(clone_expression(a0), clone_identifier(a1)),
        ExpressionKind::Call(a0, a1) => ExpressionKind::Call(clone_expression(a0), clone_vec_expression(a1)),
        ExpressionKind::AnonymousComp(a0) => ExpressionKind::AnonymousComp(clone_anonymous_comp(a0)),
        ExpressionKind::ArrayLit(a0) => ExpressionKind::ArrayLit(clone_vec_expression(a0)),
        ExpressionKind::Paren(a0) => ExpressionKind::Paren(clone_expression(a0)),
        ExpressionKind::Parallel(a0) => ExpressionKind::Parallel(clone_expression(a0)),
        ExpressionKind::Underscore => ExpressionKind::Underscore,
        ExpressionKind::Error => ExpressionKind::Error,
    }
}

fn clone_anonymous_comp(x: &AnonymousComp) -> AnonymousComp
    decreases x, 0nat,
{
    AnonymousComp { template: clone_expression(&x.template), template_args: clone_vec_expression(&x.template_args), inputs: clone_vec_anon_comp_input(&x.inputs) }
}

fn clone_anon_comp_input(x: &AnonCompInput) -> AnonCompInput
    decreases x, 0nat,
{
    match x {
        AnonCompInput::Positional(a0) => AnonCompInput::Positional(clone_expression(a0)),
        AnonCompInput::Named(a0, a1) => AnonCompInput::Named(clone_identifier(a0), clone_expression(a1)),
    }
}

fn clone_identifier(x: &Identifier) -> (r: Identifier)
    ensures
        r.span == x.span,
        r.name@ == x.name@,
    decreases x, 0nat,
{
    Identifier { span: x.span, name: copy_string(&x.name) }
}

fn clone_vec_anon_comp_input(v: &Vec<AnonCompInput>) -> (r: Vec<AnonCompInput>)
    ensures
        r@.len() == v@.len(),
    decreases v, 0nat,
{
    let mut r: Vec<AnonCompInput> = Vec::new();
    let mut i: usize = 0;
    while i < v.len()
        invariant
            i <= v@.len(),
            r@.len() == i,
        decreases v@.len() - i,
    {
        assert(decreases_to!(v => v@[i as int]));
        r.push(clone_anon_comp_input(&v[i]));
        i += 1;
    }
    r
}

fn clone_vec_bus_member(v: &Vec<BusMember>) -> (r: Vec<BusMember>)
    ensures
        r@.len() == v@.len(),
    decreases v, 0nat,
{
    let mut r: Vec<BusMember> = Vec::new();
    let mut i: usize = 0;
    while i < v.len()
        invariant
            i <= v@.len(),
            r@.len() == i,
        decreases v@.len() - i,
    {
        assert(decreases_to!(v => v@[i as int]));
        r.push(clone_bus_member(&v[i]));
        i += 1;
    }
    r
}

fn clone_vec_component_decl_entry(v: &Vec<ComponentDeclEntry>) -> (r: Vec<ComponentDeclEntry>)
    ensures
        r@.len() == v@.len(),
    decreases v, 0nat,
{
    let mut r: Vec<ComponentDeclEntry> = Vec::new();
    let mut i: usize = 0;
    while i < v.len()
        invariant
            i <= v@.len(),
            r@.len() == i,
        decreases v@.len() - i,
    {
        assert(decreases_to!(v => v@[i as int]));
        r.push(clone_component_decl_entry(&v[i]));
        i += 1;
    }
    r
}

fn clone_vec_expression(v: &Vec<Expression>) -> (r: Vec<Expression>)
    ensures
        r@.len() == v@.len(),
    decreases v, 0nat,
{
    let mut r: Vec<Expression> = Vec::new();
    let mut i: usize = 0;
    while i < v.len()
        invariant
            i <= v@.len(),
            r@.len() == i,
        decreases v@.len() - i,
    {
        assert(decreases_to!(v => v@[i as int]));
        r.push(clone_expression(&v[i]));
        i += 1;
    }
    r
}

fn clone_vec_identifier(v: &Vec<Identifier>) -> (r: Vec<Identifier>)
    ensures
        r@.len() == v@.len(),
    decreases v, 0nat,
{
    let mut r: Vec<Identifier> = Vec::new();
    let mut i: usize = 0;
    while i < v.len()
        invariant
            i <= v@.len(),
            r@.len() == i,
        decreases v@.len() - i,
    {
        assert(decreases_to!(v => v@[i as int]));
        r.push(clone_identifier(&v[i]));
        i += 1;
    }
    r
}

fn clone_vec_item(v: &Vec<Item>) -> (r: Vec<Item>)
    ensures
        r@.len() == v@.len(),
    decreases v, 0nat,
{
    let mut r: Vec<Item> = Vec::new();
    let mut i: usize = 0;
    while i < v.len()
        invariant
            i <= v@.len(),
            r@.len() == i,
        decreases v@.len() - i,
    {
        assert(decreases_to!(v => v@[i as int]));
        r.push(clone_item(&v[i]));
        i += 1;
    }
    r
}

fn clone_vec_log_arg(v: &Vec<LogArg>) -> (r: Vec<LogArg>)
    ensures
        r@.len() == v@.len(),
    decreases v, 0nat,
{
    let mut r: Vec<LogArg> = Vec::new();
    let mut i: usize = 0;
    while i < v.len()
        invariant
            i <= v@.len(),
            r@.len() == i,
        decreases v@.len() - i,
    {
        assert(decreases_to!(v => v@[i as int]));
        r.push(clone_log_arg(&v[i]));
        i += 1;
    }
    r
}

fn clone_vec_option_expression(v: &Vec<Option<Expression>>) -> (r: Vec<Option<Expression>>)
    ensures
        r@.len() == v@.len(),
    decreases v, 0nat,
{
    let mut r: Vec<Option<Expression>> = Vec::new();
    let mut i: usize = 0;
    while i < v.len()
        invariant
            i <= v@.len(),
            r@.len() == i,
        decreases v@.len() - i,
    {
        assert(decreases_to!(v => v@[i as int]));
        r.push((match &v[i] { Some(x) => Some(clone_expression(x)), None => None }));
        i += 1;
    }
    r
}

fn clone_vec_signal_decl_entry(v: &Vec<SignalDeclEntry>) -> (r: Vec<SignalDeclEntry>)
    ensures
        r@.len() == v@.len(),
    decreases v, 0nat,
{
    let mut r: Vec<SignalDeclEntry> = Vec::new();
    let mut i: usize = 0;
    while i < v.len()
        invariant
            i <= v@.len(),
            r@.len() == i,
        decreases v@.len() - i,
    {
        assert(decreases_to!(v => v@[i as int]));
        r.push(clone_signal_decl_entry(&v[i]));
        i += 1;
    }
    r
}

fn clone_vec_statement(v: &Vec<Statement>) -> (r: Vec<Statement>)
    ensures
        r@.len() == v@.len(),
    decreases v, 0nat,
{
    let mut r: Vec<Statement> = Vec::new();
    let mut i: usize = 0;
    while i < v.len()
        invariant
            i <= v@.len(),
            r@.len() == i,
        decreases v@.len() - i,
    {
        assert(decreases_to!(v => v@[i as int]));
        r.push(clone_statement(&v[i]));
        i += 1;
    }
    r
}

fn clone_vec_var_decl_entry(v: &Vec<VarDeclEntry>) -> (r: Vec<VarDeclEntry>)
    ensures
        r@.len() == v@.len(),
    decreases v, 0nat,
{
    let mut r: Vec<VarDeclEntry> = Vec::new();
    let mut i: usize = 0;
    while i < v.len()
        invariant
            i <= v@.len(),
            r@.len() == i,
        decreases v@.len() - i,
    {
        assert(decreases_to!(v => v@[i as int]));
        r.push(clone_var_decl_entry(&v[i]));
        i += 1;
    }
    r
}

impl Clone for File {
    fn clone(&self) -> Self {
        clone_file(self)
    }
}

impl Clone for Item {
    fn clone(&self) -> (r: Self)
        ensures
            item_alike(r, *self),
    {
        clone_item(self)
    }
}

impl Clone for Pragma {
    fn clone(&self) -> Self {
        clone_pragma(self)
    }
}

impl Clone for PragmaKind {
    fn clone(&self) -> Self {
        clone_pragma_kind(self)
    }
}

impl Clone for Include {
    fn clone(&self) -> Self {
        clone_include(self)
    }
}

impl Clone for TemplateDef {
    fn clone(&self) -> Self {
        clone_template_def(self)
    }
}

impl Clone for FunctionDef {
    fn clone(&self) -> Self {
        clone_function_def(self)
    }
}

impl Clone for BusDef {
    fn clone(&self) -> Self {
        clone_bus_def(self)
    }
}

impl Clone for BusMember {
    fn clone(&self) -> Self {
        clone_bus_member(self)
    }
}

impl Clone for BusFieldDecl {
    fn clone(&self) -> Self {
        clone_bus_field_decl(self)
    }
}

impl Clone for MainComponent {
    fn clone(&self) -> Self {
        clone_main_component(self)
    }
}

impl Clone for Block {
    fn clone(&self) -> Self {
        clone_block(self)
    }
}

impl Clone for Statement {
    fn clone(&self) -> Self {
        clone_statement(self)
    }
}

impl Clone for StatementKind {
    fn clone(&self) -> Self {
        clone_statement_kind(self)
    }
}

impl Clone for VarDecl {
    fn clone(&self) -> Self {
        clone_var_decl(self)
    }
}

impl Clone for VarDeclEntry {
    fn clone(&self) -> Self {
        clone_var_decl_entry(self)
    }
}

impl Clone for SignalDecl {
    fn clone(&self) -> Self {
        clone_signal_decl(self)
    }
}

impl Clone for SignalDeclEntry {
    fn clone(&self) -> Self {
        clone_signal_decl_entry(self)
    }
}

impl Clone for ComponentDecl {
    fn clone(&self) -> Self {
        clone_component_decl(self)
    }
}

impl Clone for ComponentDeclEntry {
    fn clone(&self) -> Self {
        clone_component_decl_entry(self)
    }
}

impl Clone for BusInstanceDecl {
    fn clone(&self) -> Self {
        clone_bus_instance_decl(self)
    }
}

impl Clone for BusType {
    fn clone(&self) -> Self {
        clone_bus_type(self)
    }
}

impl Clone for AssignStmt {
    fn clone(&self) -> Self {
        clone_assign_stmt(self)
    }
}

impl Clone for CompoundAssignStmt {
    fn clone(&self) -> Self {
        clone_compound_assign_stmt(self)
    }
}

impl Clone for ConstraintEqStmt {
    fn clone(&self) -> Self {
        clone_constraint_eq_stmt(self)
    }
}

impl Clone for TupleAssignStmt {
    fn clone(&self) -> Self {
        clone_tuple_assign_stmt(self)
    }
}

impl Clone for IfElse {
    fn clone(&self) -> Self {
        clone_if_else(self)
    }
}

impl Clone for ForLoop {
    fn clone(&self) -> Self {
        clone_for_loop(self)
    }
}

impl Clone for WhileLoop {
    fn clone(&self) -> Self {
        clone_while_loop(self)
    }
}

impl Clone for ReturnStmt {
    fn clone(&self) -> Self {
        clone_return_stmt(self)
    }
}

impl Clone for LogStmt {
    fn clone(&self) -> Self {
        clone_log_stmt(self)
    }
}

impl Clone for LogArg {
    fn clone(&self) -> Self {
        clone_log_arg(self)
    }
}

impl Clone for AssertStmt {
    fn clone(&self) -> Self {
        clone_assert_stmt(self)
    }
}

impl Clone for Expression {
    fn clone(&self) -> Self {
        clone_expression(self)
    }
}

impl Clone for ExpressionKind {
    fn clone(&self) -> Self {
        clone_expression_kind(self)
    }
}

impl Clone for AnonymousComp {
    fn clone(&self) -> Self {
        clone_anonymous_comp(self)
    }
}

impl Clone for AnonCompInput {
    fn clone(&self) -> Self {
        clone_anon_comp_input(self)
    }
}

impl Clone for Identifier {
    fn clone(&self) -> Self {
        clone_identifier(self)
    }
}


/// What `{:?}` prints for a statement kind: the `Debug` rendering that
/// `derive` wrote for the AST types.
pub uninterp spec fn debug_text(kind: StatementKind) -> Seq<char>;

/// The `Debug` rendering of a statement kind, made by `format!`. Trusted:
/// the text is taken to be a function of `kind` alone; nothing more of
/// it is stated.
#[verifier::external_body]
pub(crate) fn statement_kind_debug(kind: &StatementKind) -> (r: String)
    ensures
        r@ == debug_text(*kind),
{
    format!("{:?}", kind)
}

} // verus!
