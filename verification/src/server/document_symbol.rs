//! The outline of a Circom file: a list of symbols (templates,
//! functions, buses, the main component) with their declarations as
//! children, as the editor's outline view shows them.

use vstd::prelude::*;

use crate::ast::{
    AnonCompInput, BusMember, ComponentDeclEntry, Expression, ExpressionKind, File, Identifier, Item, SignalDecl,
    SignalDeclEntry, SignalKind, Statement, StatementKind, VarDeclEntry,
};
use crate::span::{LineCol, LineIndex, Span, line_starts_of, locates};
use crate::text::{join_seqs, views};
use vstd::string::StringSliceAdditionalSpecFns;

verus! {

/// The kind of an outline entry, as the editor draws it.
#[derive(Debug, Clone, Copy, PartialEq, Eq, Structural)]
pub enum OutlineKind {
    Class,
    Function,
    Struct,
    Field,
    Variable,
    Object,
    Constant,
}

/// A range of a document as the editor sees it.
#[derive(Debug, Clone, Copy, PartialEq, Eq, Structural)]
pub struct LineRange {
    pub start: LineCol,
    pub end: LineCol,
}

/// One entry of the outline: a name, a detail line, a kind, the range
/// of the whole declaration and the range of its name (start and end as
/// line/column), and the entries nested in it (`None` when there are
/// none).
#[derive(Debug, PartialEq)]
pub struct DocumentSymbol {
    pub name: String,
    pub detail: Option<String>,
    pub kind: OutlineKind,
    pub range: LineRange,
    pub selection_range: LineRange,
    pub children: Option<Vec<DocumentSymbol>>,
}

/// What an outline entry holds, without its children: name, detail,
/// kind, range and name range as byte spans.
pub type EntrySpec = (Seq<char>, Seq<char>, OutlineKind, Span, Span);

/// `d` is the entry `e`, in a text whose lines start at `starts`.
pub open spec fn entry_is(d: DocumentSymbol, e: EntrySpec, starts: Seq<usize>) -> bool {
    &&& d.name@ == e.0
    &&& d.detail matches Some(t) && t@ == e.1
    &&& d.kind == e.2
    &&& locates(starts, e.3.start as int, d.range.start)
    &&& locates(starts, e.3.end as int, d.range.end)
    &&& locates(starts, e.4.start as int, d.selection_range.start)
    &&& locates(starts, e.4.end as int, d.selection_range.end)
}

/// `ds` are the leaf entries `es`.
pub open spec fn leaves_are(ds: Seq<DocumentSymbol>, es: Seq<EntrySpec>, starts: Seq<usize>) -> bool {
    &&& ds.len() == es.len()
    &&& forall|k: int|
        0 <= k < ds.len() ==> entry_is(#[trigger] ds[k], es[k], starts) && ds[k].children is None
}

/// The template or function name that a call or anonymous component
/// names directly.
pub open spec fn call_name(e: Expression) -> Option<Seq<char>> {
    match *e.kind {
        ExpressionKind::Call(callee, _) => match *callee.kind {
            ExpressionKind::Ident(n) => Some(n@),
            _ => None,
        },
        ExpressionKind::AnonymousComp(anon) => match *anon.template.kind {
            ExpressionKind::Ident(n) => Some(n@),
            _ => None,
        },
        _ => None,
    }
}

/// The names of all the calls and anonymous components in `e`, outer
/// first, left to right.
pub open spec fn call_names(e: Expression) -> Seq<Seq<char>>
    decreases e, 0nat,
{
    match *e.kind {
        ExpressionKind::Call(callee, args) => {
            let own = match *callee.kind {
                ExpressionKind::Ident(n) => seq![n@],
                _ => Seq::empty(),
            };
            own + call_names(callee) + call_names_list(args@)
        },
        ExpressionKind::AnonymousComp(anon) => {
            let own = match *anon.template.kind {
                ExpressionKind::Ident(n) => seq![n@],
                _ => Seq::empty(),
            };
            own + call_names(anon.template) + call_names_inputs(anon.inputs@) + call_names_list(anon.template_args@)
        },
        ExpressionKind::Binary(l, _, r) => call_names(l) + call_names(r),
        ExpressionKind::Unary(_, inner) => call_names(inner),
        ExpressionKind::Ternary(c, t, f) => call_names(c) + call_names(t) + call_names(f),
        ExpressionKind::Index(a, i) => call_names(a) + call_names(i),
        ExpressionKind::Member(b, _) => call_names(b),
        ExpressionKind::ArrayLit(es) => call_names_list(es@),
        _ => Seq::empty(),
    }
}

/// The call names of a list of expressions, in order.
pub open spec fn call_names_list(es: Seq<Expression>) -> Seq<Seq<char>>
    decreases es, 1nat,
{
    if es.len() == 0 {
        Seq::empty()
    } else {
        call_names_list(es.drop_last()) + call_names(es.last())
    }
}

/// The call names of the inputs of an anonymous component, in order.
pub open spec fn call_names_inputs(ins: Seq<AnonCompInput>) -> Seq<Seq<char>>
    decreases ins, 1nat,
{
    if ins.len() == 0 {
        Seq::empty()
    } else {
        let last = match ins.last() {
            AnonCompInput::Positional(e) => call_names(e),
            AnonCompInput::Named(_, e) => call_names(e),
        };
        call_names_inputs(ins.drop_last()) + last
    }
}

/// Collect every call name of `expr` into `out`.
fn extract_all_call_names(expr: &Expression, out: &mut Vec<String>)
    ensures
        views(final(out)@) == views(old(out)@) + call_names(*expr),
    decreases expr, 0nat,
{
    match &*expr.kind {
        ExpressionKind::Call(callee, args) => {
            match &*callee.kind {
                ExpressionKind::Ident(name) => {
                    out.push(name.clone());
                },
                _ => {},
            }
            extract_all_call_names(callee, out);
            extract_list(args, out);
        },
        ExpressionKind::AnonymousComp(anon) => {
            match &*anon.template.kind {
                ExpressionKind::Ident(name) => {
                    out.push(name.clone());
                },
                _ => {},
            }
            extract_all_call_names(&anon.template, out);
            extract_inputs(&anon.inputs, out);
            extract_list(&anon.template_args, out);
        },
        ExpressionKind::Binary(lhs, _, rhs) => {
            extract_all_call_names(lhs, out);
            extract_all_call_names(rhs, out);
        },
        ExpressionKind::Unary(_, inner) => {
            extract_all_call_names(inner, out);
        },
        ExpressionKind::Ternary(cond, then_e, else_e) => {
            extract_all_call_names(cond, out);
            extract_all_call_names(then_e, out);
            extract_all_call_names(else_e, out);
        },
        ExpressionKind::Index(arr, idx) => {
            extract_all_call_names(arr, out);
            extract_all_call_names(idx, out);
        },
        ExpressionKind::Member(base, _) => {
            extract_all_call_names(base, out);
        },
        ExpressionKind::ArrayLit(elems) => {
            extract_list(elems, out);
        },
        _ => {},
    }
}

fn extract_list(es: &Vec<Expression>, out: &mut Vec<String>)
    ensures
        views(final(out)@) == views(old(out)@) + call_names_list(es@),
    decreases es@, 1nat,
{
    let mut i: usize = 0;
    while i < es.len()
        invariant
            i <= es@.len(),
            views(out@) == views(old(out)@) + call_names_list(es@.take(i as int)),
        decreases es@.len() - i,
    {
        proof {
            assert(es@.take(i + 1).drop_last() == es@.take(i as int));
            assert(es@.take(i + 1).last() == es@[i as int]);
        }
        extract_all_call_names(&es[i], out);
        i += 1;
    }
    assert(es@.take(i as int) == es@);
}

fn extract_inputs(ins: &Vec<AnonCompInput>, out: &mut Vec<String>)
    ensures
        views(final(out)@) == views(old(out)@) + call_names_inputs(ins@),
    decreases ins@, 1nat,
{
    let mut i: usize = 0;
    while i < ins.len()
        invariant
            i <= ins@.len(),
            views(out@) == views(old(out)@) + call_names_inputs(ins@.take(i as int)),
        decreases ins@.len() - i,
    {
        proof {
            assert(ins@.take(i + 1).drop_last() == ins@.take(i as int));
            assert(ins@.take(i + 1).last() == ins@[i as int]);
        }
        match &ins[i] {
            AnonCompInput::Positional(e) => extract_all_call_names(e, out),
            AnonCompInput::Named(_, e) => extract_all_call_names(e, out),
        }
        i += 1;
    }
    assert(ins@.take(i as int) == ins@);
}

/// The base name of an assignment target: array indices dropped, member
/// accesses kept as `base.field`, and `<component>` for anything else.
pub open spec fn lhs_name(e: Expression) -> Seq<char>
    decreases e,
{
    match *e.kind {
        ExpressionKind::Ident(n) => n@,
        ExpressionKind::Index(base, _) => lhs_name(base),
        ExpressionKind::Member(base, field) => lhs_name(base) + "."@ + field.name@,
        _ => "<component>"@,
    }
}

/// Extract the base name from an assignment target.
fn extract_lhs_name(expr: &Expression) -> (r: String)
    ensures
        r@ == lhs_name(*expr),
    decreases expr,
{
    match &*expr.kind {
        ExpressionKind::Ident(name) => name.clone(),
        ExpressionKind::Index(base, _) => extract_lhs_name(base),
        ExpressionKind::Member(base, field) => {
            let mut s = extract_lhs_name(base);
            s.append(".");
            s.append(field.name.as_str());
            s
        },
        _ => String::from_str("<component>"),
    }
}

/// Try to extract a function/template name from a call or anonymous
/// component expression.
fn extract_call_name(expr: &Expression) -> (r: Option<String>)
    ensures
        match call_name(*expr) {
            Some(n) => r matches Some(s) && s@ == n,
            None => r is None,
        },
{
    match &*expr.kind {
        ExpressionKind::Call(callee, _) => match &*callee.kind {
            ExpressionKind::Ident(name) => Some(name.clone()),
            _ => None,
        },
        ExpressionKind::AnonymousComp(anon) => match &*anon.template.kind {
            ExpressionKind::Ident(name) => Some(name.clone()),
            _ => None,
        },
        _ => None,
    }
}

/// `component Name`.
pub open spec fn component_detail(n: Seq<char>) -> Seq<char> {
    "component "@ + n
}

/// The signal word of a declaration kind.
pub open spec fn kind_word(k: SignalKind) -> Seq<char> {
    match k {
        SignalKind::Input => "input"@,
        SignalKind::Output => "output"@,
        SignalKind::Intermediate => "intermediate"@,
    }
}

/// The names of a list of identifiers.
pub open spec fn ident_names(ids: Seq<Identifier>) -> Seq<Seq<char>> {
    ids.map_values(|i: Identifier| i.name@)
}

/// `signal input` or `signal input {tag1, tag2}`.
pub open spec fn signal_detail(sig: SignalDecl) -> Seq<char> {
    if sig.tags@.len() == 0 {
        "signal "@ + kind_word(sig.kind)
    } else {
        "signal "@ + kind_word(sig.kind) + " {"@ + join_seqs(ident_names(sig.tags@), ", "@) + "}"@
    }
}

/// One entry per call name, each with the statement's span.
pub open spec fn call_entries(names: Seq<Seq<char>>, span: Span) -> Seq<EntrySpec> {
    names.map_values(|n: Seq<char>| (n, component_detail(n), OutlineKind::Object, span, span))
}

/// The entries of the names declared by a `var` statement.
pub open spec fn var_entries(es: Seq<VarDeclEntry>) -> Seq<EntrySpec> {
    es.map_values(
        |e: VarDeclEntry|
            match e.init {
                Some(init) => match call_name(init) {
                    Some(n) => (e.name.name@, component_detail(n), OutlineKind::Object, e.name.span, e.name.span),
                    None => (e.name.name@, "var"@, OutlineKind::Variable, e.name.span, e.name.span),
                },
                None => (e.name.name@, "var"@, OutlineKind::Variable, e.name.span, e.name.span),
            },
    )
}

/// The entry of one name of a `signal` statement inside a body: a
/// component where it is initialised by a call, else a signal.
pub open spec fn signal_entry(sig: SignalDecl, e: SignalDeclEntry) -> EntrySpec {
    match e.init {
        Some((_, init)) => match call_name(init) {
            Some(n) => (e.name.name@, component_detail(n), OutlineKind::Object, e.name.span, e.name.span),
            None => (e.name.name@, signal_detail(sig), OutlineKind::Field, e.name.span, e.name.span),
        },
        None => (e.name.name@, signal_detail(sig), OutlineKind::Field, e.name.span, e.name.span),
    }
}

/// The entries of the names declared by a `signal` statement inside a
/// body.
pub open spec fn signal_entries(sig: SignalDecl) -> Seq<EntrySpec> {
    sig.names@.map_values(|e: SignalDeclEntry| signal_entry(sig, e))
}

/// The entries of the fields of a bus declared by one `signal` line.
pub open spec fn field_entries(sig: SignalDecl) -> Seq<EntrySpec> {
    sig.names@.map_values(
        |e: SignalDeclEntry| (e.name.name@, signal_detail(sig), OutlineKind::Field, e.name.span, e.name.span),
    )
}

/// The entries of the names declared by a `component` statement.
pub open spec fn component_entries(es: Seq<ComponentDeclEntry>) -> Seq<EntrySpec> {
    es.map_values(
        |e: ComponentDeclEntry|
            {
                let detail = match e.init {
                    Some(init) => match call_name(init) {
                        Some(n) => component_detail(n),
                        None => "component"@,
                    },
                    None => "component"@,
                };
                (e.name.name@, detail, OutlineKind::Object, e.name.span, e.name.span)
            },
    )
}

/// The call names of `names`, less those equal to `skip`.
pub open spec fn names_except(names: Seq<Seq<char>>, skip: Option<Seq<char>>) -> Seq<Seq<char>>
    decreases names.len(),
{
    if names.len() == 0 {
        Seq::empty()
    } else if skip == Some(names.last()) {
        names_except(names.drop_last(), skip)
    } else {
        names_except(names.drop_last(), skip).push(names.last())
    }
}

/// The outline entries of one statement of a body, nested blocks
/// included.
pub open spec fn stmt_entries(s: Statement) -> Seq<EntrySpec>
    decreases s, 0nat,
{
    match s.kind {
        StatementKind::VarDecl(v) => var_entries(v.names@),
        StatementKind::SignalDecl(sig) => signal_entries(sig),
        StatementKind::ComponentDecl(c) => component_entries(c.names@),
        StatementKind::BusDecl(b) => seq![
            (b.name.name@, "bus "@ + b.bus_type.name.name@, OutlineKind::Field, b.name.span, b.name.span),
        ],
        StatementKind::Assignment(a) => {
            let top = call_name(a.rhs);
            let first = match top {
                Some(n) => seq![(lhs_name(a.lhs), component_detail(n), OutlineKind::Object, s.span, s.span)],
                None => Seq::empty(),
            };
            first + call_entries(names_except(call_names(a.rhs), top), s.span)
        },
        StatementKind::TupleAssign(ta) => call_entries(call_names(ta.rhs), s.span),
        StatementKind::ConstraintEq(c) => call_entries(call_names(c.lhs) + call_names(c.rhs), s.span),
        StatementKind::Expression(e) => call_entries(call_names(e), s.span),
        StatementKind::For(f) => block_entries(f.body.stmts@),
        StatementKind::While(w) => block_entries(w.body.stmts@),
        StatementKind::IfElse(ie) => block_entries(ie.then_body.stmts@) + match ie.else_body {
            Some(b) => block_entries(b.stmts@),
            None => Seq::empty(),
        },
        _ => Seq::empty(),
    }
}

/// The outline entries of the statements of a body, in order.
pub open spec fn block_entries(stmts: Seq<Statement>) -> Seq<EntrySpec>
    decreases stmts, 1nat,
{
    if stmts.len() == 0 {
        Seq::empty()
    } else {
        block_entries(stmts.drop_last()) + stmt_entries(stmts.last())
    }
}

/// The entries of the parameters of a template or function.
pub open spec fn param_entries(ps: Seq<Identifier>) -> Seq<EntrySpec> {
    ps.map_values(|p: Identifier| (p.name@, "parameter"@, OutlineKind::Variable, p.span, p.span))
}

/// The entries of the members of a bus.
pub open spec fn bus_member_entries(ms: Seq<BusMember>) -> Seq<EntrySpec>
    decreases ms.len(),
{
    if ms.len() == 0 {
        Seq::empty()
    } else {
        let last = match ms.last() {
            BusMember::Signal(sig) => field_entries(sig),
            BusMember::Bus(f) => seq![
                (f.name.name@, "bus "@ + f.bus_type.name.name@, OutlineKind::Field, f.span, f.name.span),
            ],
        };
        bus_member_entries(ms.drop_last()) + last
    }
}

/// The outline entry of an item and its children; pragmas and includes
/// have none.
pub open spec fn item_entry(item: Item) -> Option<(EntrySpec, Seq<EntrySpec>)> {
    match item {
        Item::TemplateDef(t) => {
            let detail = if t.is_custom {
                "custom template"@
            } else if t.is_parallel {
                "parallel template"@
            } else {
                "template"@
            };
            Some(
                (
                    (t.name.name@, detail, OutlineKind::Class, t.span, t.name.span),
                    param_entries(t.params@) + block_entries(t.body.stmts@),
                ),
            )
        },
        Item::FunctionDef(f) => Some(
            (
                (f.name.name@, "function"@, OutlineKind::Function, f.span, f.name.span),
                param_entries(f.params@) + block_entries(f.body.stmts@),
            ),
        ),
        Item::BusDef(b) => Some(
            ((b.name.name@, "bus"@, OutlineKind::Struct, b.span, b.name.span), bus_member_entries(b.body@)),
        ),
        Item::MainComponent(m) => {
            let detail = if m.public_signals@.len() == 0 {
                "main component"@
            } else {
                "main component (public: "@ + join_seqs(ident_names(m.public_signals@), ", "@) + ")"@
            };
            Some((("main"@, detail, OutlineKind::Constant, m.span, m.span), Seq::empty()))
        },
        _ => None,
    }
}

/// The outline of a list of items, in order.
pub open spec fn file_entries(items: Seq<Item>) -> Seq<(EntrySpec, Seq<EntrySpec>)>
    decreases items.len(),
{
    if items.len() == 0 {
        Seq::empty()
    } else {
        let prev = file_entries(items.drop_last());
        match item_entry(items.last()) {
            Some(e) => prev.push(e),
            None => prev,
        }
    }
}

/// `d` is the entry `e` with the children `cs`.
pub open spec fn node_is(d: DocumentSymbol, e: EntrySpec, cs: Seq<EntrySpec>, starts: Seq<usize>) -> bool {
    &&& entry_is(d, e, starts)
    &&& (cs.len() == 0 ==> d.children is None)
    &&& (cs.len() > 0 ==> (d.children matches Some(ch) && leaves_are(ch@, cs, starts)))
}

/// `new` is `old` followed by the leaf entries `es`.
pub open spec fn extends_with(new: Seq<DocumentSymbol>, old: Seq<DocumentSymbol>, es: Seq<EntrySpec>, starts: Seq<
    usize,
>) -> bool {
    &&& new.len() == old.len() + es.len()
    &&& new.take(old.len() as int) == old
    &&& leaves_are(new.skip(old.len() as int), es, starts)
}

proof fn lemma_extends_trans(
    a: Seq<DocumentSymbol>,
    b: Seq<DocumentSymbol>,
    c: Seq<DocumentSymbol>,
    e1: Seq<EntrySpec>,
    e2: Seq<EntrySpec>,
    starts: Seq<usize>,
)
    requires
        extends_with(b, a, e1, starts),
        extends_with(c, b, e2, starts),
    ensures
        extends_with(c, a, e1 + e2, starts),
{
    assert(c.take(a.len() as int) == b.take(a.len() as int));
    let tail = c.skip(a.len() as int);
    let es = e1 + e2;
    assert forall|k: int| 0 <= k < tail.len() implies entry_is(#[trigger] tail[k], es[k], starts) && tail[k].children is None by {
        if k < e1.len() {
            assert(tail[k] == b.skip(a.len() as int)[k]);
        } else {
            assert(tail[k] == c.skip(b.len() as int)[k - e1.len()]);
        }
    }
}

proof fn lemma_except_none(names: Seq<Seq<char>>)
    ensures
        names_except(names, None) == names,
    decreases names.len(),
{
    if names.len() > 0 {
        lemma_except_none(names.drop_last());
    }
}

proof fn lemma_extends_refl(a: Seq<DocumentSymbol>, starts: Seq<usize>)
    ensures
        extends_with(a, a, Seq::empty(), starts),
{
    assert(a.take(a.len() as int) == a);
}

/// The nodes `ds` are the outline `fe`.
pub open spec fn nodes_are(ds: Seq<DocumentSymbol>, fe: Seq<(EntrySpec, Seq<EntrySpec>)>, starts: Seq<usize>) -> bool {
    &&& ds.len() == fe.len()
    &&& forall|k: int| 0 <= k < ds.len() ==> node_is(#[trigger] ds[k], fe[k].0, fe[k].1, starts)
}

/// Extract the outline of a parsed Circom file; `source` is its text,
/// for the line/column ranges.
pub fn document_symbols(file: &File, source: &str) -> (r: Vec<DocumentSymbol>)
    ensures
        nodes_are(r@, file_entries(file.items@), line_starts_of(source.spec_bytes())),
{
    let line_index = LineIndex::new(source);
    let visitor = SymbolVisitor { line_index };
    visitor.collect_file(file)
}

struct SymbolVisitor {
    line_index: LineIndex,
}

impl SymbolVisitor {
    spec fn starts(self) -> Seq<usize> {
        self.line_index.starts()
    }

    fn range_of(&self, span: Span) -> (r: LineRange)
        requires
            self.line_index.wf(),
        ensures
            locates(self.starts(), span.start as int, r.start),
            locates(self.starts(), span.end as int, r.end),
    {
        let start = match self.line_index.line_col(span.start) {
            Some(lc) => lc,
            None => LineCol { line: 0, col: 0 },
        };
        let end = match self.line_index.line_col(span.end) {
            Some(lc) => lc,
            None => LineCol { line: 0, col: 0 },
        };
        LineRange { start, end }
    }

    fn make_symbol(
        &self,
        name: &str,
        detail: String,
        kind: OutlineKind,
        range: Span,
        selection_range: Span,
        children: Vec<DocumentSymbol>,
    ) -> (d: DocumentSymbol)
        requires
            self.line_index.wf(),
        ensures
            entry_is(d, (name@, detail@, kind, range, selection_range), self.starts()),
            children@.len() == 0 ==> d.children is None,
            children@.len() > 0 ==> d.children == Some(children),
    {
        DocumentSymbol {
            name: String::from_str(name),
            detail: Some(detail),
            kind,
            range: self.range_of(range),
            selection_range: self.range_of(selection_range),
            children: if children.len() == 0 {
                None
            } else {
                Some(children)
            },
        }
    }

    /// Push a leaf entry.
    fn push_leaf(&self, out: &mut Vec<DocumentSymbol>, name: &str, detail: String, kind: OutlineKind, range: Span, sel: Span)
        requires
            self.line_index.wf(),
        ensures
            extends_with(final(out)@, old(out)@, seq![(name@, detail@, kind, range, sel)], self.starts()),
    {
        let ghost d0 = detail@;
        let d = self.make_symbol(name, detail, kind, range, sel, Vec::new());
        let ghost before = out@;
        out.push(d);
        proof {
            assert(out@.take(before.len() as int) == before);
            assert(out@.skip(before.len() as int) == seq![d]);
        }
    }

    /// One leaf per call name (but those equal to `skip`), each spanning
    /// the statement.
    fn push_calls(&self, out: &mut Vec<DocumentSymbol>, names: &Vec<String>, skip: &Option<String>, span: Span)
        requires
            self.line_index.wf(),
        ensures
            extends_with(
                final(out)@,
                old(out)@,
                call_entries(
                    names_except(
                        views(names@),
                        match skip {
                            Some(s) => Some(s@),
                            None => None,
                        },
                    ),
                    span,
                ),
                self.starts(),
            ),
    {
        let ghost skip_v = match skip {
            Some(s) => Some(s@),
            None => None::<Seq<char>>,
        };
        let mut i: usize = 0;
        proof {
            lemma_extends_refl(out@, self.starts());
            assert(names_except(views(names@.take(0)), skip_v) == Seq::<Seq<char>>::empty());
            assert(call_entries(Seq::empty(), span) == Seq::<EntrySpec>::empty());
        }
        while i < names.len()
            invariant
                self.line_index.wf(),
                i <= names@.len(),
                skip_v == match skip {
                    Some(s) => Some(s@),
                    None => None::<Seq<char>>,
                },
                extends_with(
                    out@,
                    old(out)@,
                    call_entries(names_except(views(names@.take(i as int)), skip_v), span),
                    self.starts(),
                ),
            decreases names@.len() - i,
        {
            let name = &names[i];
            let skipped = match skip {
                Some(s) => {
                    let eq = crate::scope::string_eq(s, name.as_str());
                        eq
                },
                None => false,
            };
            let ghost mid = out@;
            let ghost prev = names_except(views(names@.take(i as int)), skip_v);
            proof {
                assert(views(names@.take(i + 1)).drop_last() == views(names@.take(i as int)));
                assert(views(names@.take(i + 1)).last() == name@);
                assert(skipped == (skip_v == Some(name@)));
                assert(views(names@.take(i + 1)).len() > 0);
            }
            if !skipped {
                let mut detail = String::from_str("component ");
                detail.append(name.as_str());
                self.push_leaf(out, name.as_str(), detail, OutlineKind::Object, span, span);
                proof {
                    assert(names_except(views(names@.take(i + 1)), skip_v) == prev.push(name@));
                    assert(call_entries(prev.push(name@), span) == call_entries(prev, span) + seq![
                        (name@, component_detail(name@), OutlineKind::Object, span, span),
                    ]);
                    lemma_extends_trans(
                        old(out)@,
                        mid,
                        out@,
                        call_entries(prev, span),
                        seq![(name@, component_detail(name@), OutlineKind::Object, span, span)],
                        self.starts(),
                    );
                }
            } else {
                proof {
                    assert(names_except(views(names@.take(i + 1)), skip_v) == prev);
                }
            }
            i += 1;
        }
        assert(names@.take(i as int) == names@);
    }

    /// The detail line of a signal declaration.
    fn signal_detail_text(sig: &SignalDecl) -> (r: String)
        ensures
            r@ == signal_detail(*sig),
    {
        let kind_str = match sig.kind {
            SignalKind::Input => "input",
            SignalKind::Output => "output",
            SignalKind::Intermediate => "intermediate",
        };
        let mut d = String::from_str("signal ");
        d.append(kind_str);
        if sig.tags.len() > 0 {
            let mut names: Vec<String> = Vec::new();
            let mut i: usize = 0;
            while i < sig.tags.len()
                invariant
                    i <= sig.tags@.len(),
                    views(names@) == ident_names(sig.tags@.take(i as int)),
                decreases sig.tags@.len() - i,
            {
                let ghost before = names@;
                names.push(sig.tags[i].name.clone());
                proof {
                    assert(views(names@) == views(before).push(sig.tags@[i as int].name@));
                    assert(ident_names(sig.tags@.take(i + 1)) == ident_names(sig.tags@.take(i as int)).push(
                        sig.tags@[i as int].name@,
                    ));
                }
                i += 1;
            }
            assert(sig.tags@.take(i as int) == sig.tags@);
            let tags = crate::text::join_strings(&names, ", ");
            d.append(" {");
            d.append(tags.as_str());
            d.append("}");
        }
        d
    }

    /// The fields declared by one `signal` line of a bus.
    fn collect_signal_decl_entries(&self, sig: &SignalDecl, out: &mut Vec<DocumentSymbol>)
        requires
            self.line_index.wf(),
        ensures
            extends_with(final(out)@, old(out)@, field_entries(*sig), self.starts()),
    {
        let detail = Self::signal_detail_text(sig);
        let mut i: usize = 0;
        proof {
            lemma_extends_refl(out@, self.starts());
            assert(sig.names@.take(0).map_values(
                |e: SignalDeclEntry| (e.name.name@, signal_detail(*sig), OutlineKind::Field, e.name.span, e.name.span),
            ) == Seq::<EntrySpec>::empty());
        }
        while i < sig.names.len()
            invariant
                self.line_index.wf(),
                i <= sig.names@.len(),
                detail@ == signal_detail(*sig),
                extends_with(
                    out@,
                    old(out)@,
                    sig.names@.take(i as int).map_values(
                        |e: SignalDeclEntry|
                            (e.name.name@, signal_detail(*sig), OutlineKind::Field, e.name.span, e.name.span),
                    ),
                    self.starts(),
                ),
            decreases sig.names@.len() - i,
        {
            let entry = &sig.names[i];
            let ghost mid = out@;
            self.push_leaf(
                out,
                entry.name.name.as_str(),
                String::from_str(detail.as_str()),
                OutlineKind::Field,
                entry.name.span,
                entry.name.span,
            );
            proof {
                let f = |e: SignalDeclEntry|
                    (e.name.name@, signal_detail(*sig), OutlineKind::Field, e.name.span, e.name.span);
                assert(sig.names@.take(i + 1).map_values(f) == sig.names@.take(i as int).map_values(f) + seq![
                    f(*entry),
                ]);
                lemma_extends_trans(old(out)@, mid, out@, sig.names@.take(i as int).map_values(f), seq![f(*entry)], self.starts());
            }
            i += 1;
        }
        assert(sig.names@.take(i as int) == sig.names@);
    }

    /// The names declared by a `var` statement.
    fn collect_var_entries(&self, names: &Vec<VarDeclEntry>, out: &mut Vec<DocumentSymbol>)
        requires
            self.line_index.wf(),
        ensures
            extends_with(final(out)@, old(out)@, var_entries(names@), self.starts()),
    {
        let mut i: usize = 0;
        proof {
            lemma_extends_refl(out@, self.starts());
            assert(var_entries(names@.take(0)) == Seq::<EntrySpec>::empty());
        }
        while i < names.len()
            invariant
                self.line_index.wf(),
                i <= names@.len(),
                extends_with(out@, old(out)@, var_entries(names@.take(i as int)), self.starts()),
            decreases names@.len() - i,
        {
            let entry = &names[i];
            let ghost mid = out@;
            let ghost e = var_entries(seq![*entry])[0];
            let call = match &entry.init {
                Some(init) => extract_call_name(init),
                None => None,
            };
            match call {
                Some(name) => {
                    let mut detail = String::from_str("component ");
                    detail.append(name.as_str());
                    self.push_leaf(out, entry.name.name.as_str(), detail, OutlineKind::Object, entry.name.span, entry.name.span);
                },
                None => {
                    self.push_leaf(
                        out,
                        entry.name.name.as_str(),
                        String::from_str("var"),
                        OutlineKind::Variable,
                        entry.name.span,
                        entry.name.span,
                    );
                },
            }
            proof {
                assert(var_entries(names@.take(i + 1)) == var_entries(names@.take(i as int)) + seq![e]);
                lemma_extends_trans(old(out)@, mid, out@, var_entries(names@.take(i as int)), seq![e], self.starts());
            }
            i += 1;
        }
        assert(names@.take(i as int) == names@);
    }

    /// The names declared by a `signal` statement inside a body.
    fn collect_signal_entries(&self, sig: &SignalDecl, out: &mut Vec<DocumentSymbol>)
        requires
            self.line_index.wf(),
        ensures
            extends_with(final(out)@, old(out)@, signal_entries(*sig), self.starts()),
    {
        let detail = Self::signal_detail_text(sig);
        let ghost f = |e: SignalDeclEntry| signal_entry(*sig, e);
        let mut i: usize = 0;
        proof {
            lemma_extends_refl(out@, self.starts());
            assert(sig.names@.take(0).map_values(f) == Seq::<EntrySpec>::empty());
        }
        while i < sig.names.len()
            invariant
                self.line_index.wf(),
                i <= sig.names@.len(),
                detail@ == signal_detail(*sig),
                f == (|e: SignalDeclEntry| signal_entry(*sig, e)),
                extends_with(out@, old(out)@, sig.names@.take(i as int).map_values(f), self.starts()),
            decreases sig.names@.len() - i,
        {
            let entry = &sig.names[i];
            let ghost mid = out@;
            let call = match &entry.init {
                Some((_, init)) => extract_call_name(init),
                None => None,
            };
            match call {
                Some(name) => {
                    let mut d = String::from_str("component ");
                    d.append(name.as_str());
                    assert(f(*entry) == (entry.name.name@, d@, OutlineKind::Object, entry.name.span, entry.name.span));
                    self.push_leaf(out, entry.name.name.as_str(), d, OutlineKind::Object, entry.name.span, entry.name.span);
                },
                None => {
                    let d = String::from_str(detail.as_str());
                    assert(f(*entry) == (entry.name.name@, d@, OutlineKind::Field, entry.name.span, entry.name.span));
                    self.push_leaf(out, entry.name.name.as_str(), d, OutlineKind::Field, entry.name.span, entry.name.span);
                },
            }
            proof {
                assert(sig.names@.take(i + 1).map_values(f) == sig.names@.take(i as int).map_values(f) + seq![f(*entry)]);
                lemma_extends_trans(old(out)@, mid, out@, sig.names@.take(i as int).map_values(f), seq![f(*entry)], self.starts());
            }
            i += 1;
        }
        assert(sig.names@.take(i as int) == sig.names@);
    }

    /// The names declared by a `component` statement.
    fn collect_component_entries(&self, names: &Vec<ComponentDeclEntry>, out: &mut Vec<DocumentSymbol>)
        requires
            self.line_index.wf(),
        ensures
            extends_with(final(out)@, old(out)@, component_entries(names@), self.starts()),
    {
        let mut i: usize = 0;
        proof {
            lemma_extends_refl(out@, self.starts());
            assert(component_entries(names@.take(0)) == Seq::<EntrySpec>::empty());
        }
        while i < names.len()
            invariant
                self.line_index.wf(),
                i <= names@.len(),
                extends_with(out@, old(out)@, component_entries(names@.take(i as int)), self.starts()),
            decreases names@.len() - i,
        {
            let entry = &names[i];
            let ghost mid = out@;
            let ghost e = component_entries(seq![*entry])[0];
            let call = match &entry.init {
                Some(init) => extract_call_name(init),
                None => None,
            };
            let detail = match call {
                Some(name) => {
                    let mut d = String::from_str("component ");
                    d.append(name.as_str());
                    d
                },
                None => String::from_str("component"),
            };
            self.push_leaf(out, entry.name.name.as_str(), detail, OutlineKind::Object, entry.name.span, entry.name.span);
            proof {
                assert(component_entries(names@.take(i + 1)) == component_entries(names@.take(i as int)) + seq![e]);
                lemma_extends_trans(old(out)@, mid, out@, component_entries(names@.take(i as int)), seq![e], self.starts());
            }
            i += 1;
        }
        assert(names@.take(i as int) == names@);
    }

    /// The outline entries of one statement.
    fn collect_stmt(&self, stmt: &Statement, out: &mut Vec<DocumentSymbol>)
        requires
            self.line_index.wf(),
        ensures
            extends_with(final(out)@, old(out)@, stmt_entries(*stmt), self.starts()),
        decreases stmt, 0nat,
    {
        let ghost start = out@;
        proof {
            lemma_extends_refl(out@, self.starts());
        }
        match &stmt.kind {
            StatementKind::VarDecl(v) => {
                self.collect_var_entries(&v.names, out);
            },
            StatementKind::SignalDecl(sig) => {
                self.collect_signal_entries(sig, out);
            },
            StatementKind::ComponentDecl(c) => {
                self.collect_component_entries(&c.names, out);
            },
            StatementKind::BusDecl(b) => {
                let mut d = String::from_str("bus ");
                d.append(b.bus_type.name.name.as_str());
                self.push_leaf(out, b.name.name.as_str(), d, OutlineKind::Field, b.name.span, b.name.span);
            },
            StatementKind::Assignment(assign) => {
                // `comp = Template(args)`: the target is a component.
                let top = extract_call_name(&assign.rhs);
                let ghost first = match call_name(assign.rhs) {
                    Some(n) => seq![(lhs_name(assign.lhs), component_detail(n), OutlineKind::Object, stmt.span, stmt.span)],
                    None => Seq::empty(),
                };
                match &top {
                    Some(name) => {
                        let lhs = extract_lhs_name(&assign.lhs);
                        let mut d = String::from_str("component ");
                        d.append(name.as_str());
                        self.push_leaf(out, lhs.as_str(), d, OutlineKind::Object, stmt.span, stmt.span);
                    },
                    None => {},
                }
                let ghost mid = out@;
                assert(extends_with(mid, start, first, self.starts()));
                // The calls nested in the right-hand side, less the one
                // already shown.
                let mut calls: Vec<String> = Vec::new();
                extract_all_call_names(&assign.rhs, &mut calls);
                self.push_calls(out, &calls, &top, stmt.span);
                proof {
                    lemma_extends_trans(start, mid, out@, first, call_entries(names_except(call_names(assign.rhs), call_name(assign.rhs)), stmt.span), self.starts());
                }
            },
            StatementKind::TupleAssign(ta) => {
                let mut calls: Vec<String> = Vec::new();
                extract_all_call_names(&ta.rhs, &mut calls);
                self.push_calls(out, &calls, &None, stmt.span);
                proof {
                    lemma_except_none(views(calls@));
                }
            },
            StatementKind::ConstraintEq(ceq) => {
                let mut calls: Vec<String> = Vec::new();
                extract_all_call_names(&ceq.lhs, &mut calls);
                extract_all_call_names(&ceq.rhs, &mut calls);
                self.push_calls(out, &calls, &None, stmt.span);
                proof {
                    lemma_except_none(views(calls@));
                }
            },
            StatementKind::Expression(expr) => {
                let mut calls: Vec<String> = Vec::new();
                extract_all_call_names(expr, &mut calls);
                self.push_calls(out, &calls, &None, stmt.span);
                proof {
                    lemma_except_none(views(calls@));
                }
            },
            StatementKind::For(f) => {
                self.collect_block(&f.body.stmts, out);
            },
            StatementKind::While(w) => {
                self.collect_block(&w.body.stmts, out);
            },
            StatementKind::IfElse(ie) => {
                self.collect_block(&ie.then_body.stmts, out);
                let ghost mid = out@;
                match &ie.else_body {
                    Some(b) => {
                        self.collect_block(&b.stmts, out);
                        proof {
                            lemma_extends_trans(start, mid, out@, block_entries(ie.then_body.stmts@), block_entries(b.stmts@), self.starts());
                        }
                    },
                    None => {
                        proof {
                            assert(block_entries(ie.then_body.stmts@) + Seq::<EntrySpec>::empty() == block_entries(ie.then_body.stmts@));
                        }
                    },
                }
            },
            _ => {},
        }
    }

    /// The outline entries of the statements of a body.
    fn collect_block(&self, stmts: &Vec<Statement>, out: &mut Vec<DocumentSymbol>)
        requires
            self.line_index.wf(),
        ensures
            extends_with(final(out)@, old(out)@, block_entries(stmts@), self.starts()),
        decreases stmts@, 1nat,
    {
        let mut i: usize = 0;
        proof {
            lemma_extends_refl(out@, self.starts());
            assert(block_entries(stmts@.take(0)) == Seq::<EntrySpec>::empty());
        }
        while i < stmts.len()
            invariant
                self.line_index.wf(),
                i <= stmts@.len(),
                extends_with(out@, old(out)@, block_entries(stmts@.take(i as int)), self.starts()),
            decreases stmts@.len() - i,
        {
            let ghost mid = out@;
            proof {
                assert(stmts@.take(i + 1).drop_last() == stmts@.take(i as int));
                assert(stmts@.take(i + 1).last() == stmts@[i as int]);
            }
            self.collect_stmt(&stmts[i], out);
            proof {
                lemma_extends_trans(old(out)@, mid, out@, block_entries(stmts@.take(i as int)), stmt_entries(stmts@[i as int]), self.starts());
            }
            i += 1;
        }
        assert(stmts@.take(i as int) == stmts@);
    }

    /// Parameter leaves.
    fn collect_params(&self, params: &Vec<Identifier>, out: &mut Vec<DocumentSymbol>)
        requires
            self.line_index.wf(),
        ensures
            extends_with(final(out)@, old(out)@, param_entries(params@), self.starts()),
    {
        let mut i: usize = 0;
        proof {
            lemma_extends_refl(out@, self.starts());
            assert(param_entries(params@.take(0)) == Seq::<EntrySpec>::empty());
        }
        while i < params.len()
            invariant
                self.line_index.wf(),
                i <= params@.len(),
                extends_with(out@, old(out)@, param_entries(params@.take(i as int)), self.starts()),
            decreases params@.len() - i,
        {
            let p = &params[i];
            let ghost mid = out@;
            let ghost e = param_entries(seq![*p])[0];
            self.push_leaf(out, p.name.as_str(), String::from_str("parameter"), OutlineKind::Variable, p.span, p.span);
            proof {
                assert(param_entries(params@.take(i + 1)) == param_entries(params@.take(i as int)) + seq![e]);
                lemma_extends_trans(old(out)@, mid, out@, param_entries(params@.take(i as int)), seq![e], self.starts());
            }
            i += 1;
        }
        assert(params@.take(i as int) == params@);
    }

    /// The members of a bus.
    fn collect_bus_members(&self, members: &Vec<BusMember>, out: &mut Vec<DocumentSymbol>)
        requires
            self.line_index.wf(),
        ensures
            extends_with(final(out)@, old(out)@, bus_member_entries(members@), self.starts()),
    {
        let mut i: usize = 0;
        proof {
            lemma_extends_refl(out@, self.starts());
            assert(bus_member_entries(members@.take(0)) == Seq::<EntrySpec>::empty());
        }
        while i < members.len()
            invariant
                self.line_index.wf(),
                i <= members@.len(),
                extends_with(out@, old(out)@, bus_member_entries(members@.take(i as int)), self.starts()),
            decreases members@.len() - i,
        {
            let ghost mid = out@;
            proof {
                assert(members@.take(i + 1).drop_last() == members@.take(i as int));
                assert(members@.take(i + 1).last() == members@[i as int]);
            }
            match &members[i] {
                BusMember::Signal(sig) => {
                    self.collect_signal_decl_entries(sig, out);
                },
                BusMember::Bus(field) => {
                    let mut d = String::from_str("bus ");
                    d.append(field.bus_type.name.name.as_str());
                    self.push_leaf(out, field.name.name.as_str(), d, OutlineKind::Field, field.span, field.name.span);
                },
            }
            proof {
                let last = match members@[i as int] {
                    BusMember::Signal(sig) => field_entries(sig),
                    BusMember::Bus(f) => seq![(f.name.name@, "bus "@ + f.bus_type.name.name@, OutlineKind::Field, f.span, f.name.span)],
                };
                lemma_extends_trans(old(out)@, mid, out@, bus_member_entries(members@.take(i as int)), last, self.starts());
            }
            i += 1;
        }
        assert(members@.take(i as int) == members@);
    }

    /// The outline node of an item, if it has one.
    fn collect_item(&self, item: &Item) -> (r: Option<DocumentSymbol>)
        requires
            self.line_index.wf(),
        ensures
            match item_entry(*item) {
                None => r is None,
                Some((e, cs)) => r matches Some(d) && node_is(d, e, cs, self.starts()),
            },
    {
        let mut children: Vec<DocumentSymbol> = Vec::new();
        let ghost empty = children@;
        let r = match item {
            Item::TemplateDef(t) => {
                self.collect_params(&t.params, &mut children);
                let ghost mid = children@;
                self.collect_block(&t.body.stmts, &mut children);
                proof {
                    lemma_extends_trans(empty, mid, children@, param_entries(t.params@), block_entries(t.body.stmts@), self.starts());
                }
                let detail = if t.is_custom {
                    String::from_str("custom template")
                } else if t.is_parallel {
                    String::from_str("parallel template")
                } else {
                    String::from_str("template")
                };
                Some(self.make_symbol(t.name.name.as_str(), detail, OutlineKind::Class, t.span, t.name.span, children))
            },
            Item::FunctionDef(f) => {
                self.collect_params(&f.params, &mut children);
                let ghost mid = children@;
                self.collect_block(&f.body.stmts, &mut children);
                proof {
                    lemma_extends_trans(empty, mid, children@, param_entries(f.params@), block_entries(f.body.stmts@), self.starts());
                }
                Some(self.make_symbol(f.name.name.as_str(), String::from_str("function"), OutlineKind::Function, f.span, f.name.span, children))
            },
            Item::BusDef(b) => {
                self.collect_bus_members(&b.body, &mut children);
                Some(self.make_symbol(b.name.name.as_str(), String::from_str("bus"), OutlineKind::Struct, b.span, b.name.span, children))
            },
            Item::MainComponent(m) => {
                let detail = if m.public_signals.len() == 0 {
                    String::from_str("main component")
                } else {
                    let mut names: Vec<String> = Vec::new();
                    let mut i: usize = 0;
                    while i < m.public_signals.len()
                        invariant
                            i <= m.public_signals@.len(),
                            views(names@) == ident_names(m.public_signals@.take(i as int)),
                        decreases m.public_signals@.len() - i,
                    {
                        let ghost before = names@;
                        names.push(m.public_signals[i].name.clone());
                        proof {
                            assert(views(names@) == views(before).push(m.public_signals@[i as int].name@));
                            assert(ident_names(m.public_signals@.take(i + 1)) == ident_names(
                                m.public_signals@.take(i as int),
                            ).push(m.public_signals@[i as int].name@));
                        }
                        i += 1;
                    }
                    assert(m.public_signals@.take(i as int) == m.public_signals@);
                    let joined = crate::text::join_strings(&names, ", ");
                    let mut d = String::from_str("main component (public: ");
                    d.append(joined.as_str());
                    d.append(")");
                    d
                };
                Some(self.make_symbol("main", detail, OutlineKind::Constant, m.span, m.span, children))
            },
            _ => None,
        };
        proof {
            if r is Some {
                assert(children@.skip(0) == children@);
            }
        }
        r
    }

    fn collect_file(&self, file: &File) -> (r: Vec<DocumentSymbol>)
        requires
            self.line_index.wf(),
        ensures
            nodes_are(r@, file_entries(file.items@), self.starts()),
    {
        let mut symbols: Vec<DocumentSymbol> = Vec::new();
        let mut i: usize = 0;
        while i < file.items.len()
            invariant
                self.line_index.wf(),
                i <= file.items@.len(),
                nodes_are(symbols@, file_entries(file.items@.take(i as int)), self.starts()),
            decreases file.items@.len() - i,
        {
            proof {
                assert(file.items@.take(i + 1).drop_last() == file.items@.take(i as int));
                assert(file.items@.take(i + 1).last() == file.items@[i as int]);
            }
            match self.collect_item(&file.items[i]) {
                Some(sym) => {
                    symbols.push(sym);
                },
                None => {},
            }
            i += 1;
        }
        assert(file.items@.take(i as int) == file.items@);
        symbols
    }
}

} // verus!
