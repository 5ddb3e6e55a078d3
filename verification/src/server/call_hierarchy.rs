//! Call hierarchy support: "what does this template / function call?".
//!
//! Walks the parsed AST: the public functions take a parsed `ast::File`
//! and return plain structs that the language server converts into its
//! protocol types. Incoming calls (who calls me?) are not computed.

use vstd::prelude::*;

use crate::ast::{
    AnonCompInput, AnonymousComp, Block, BusInstanceDecl, ComponentDecl, ComponentDeclEntry, Expression,
    ExpressionKind, File, ForLoop, IfElse, Item, LogArg, LogStmt, SignalDecl, SignalDeclEntry, Statement,
    StatementKind, TupleAssignStmt, VarDecl, VarDeclEntry, WhileLoop,
};
use crate::scope::string_eq;
use crate::span::Span;

verus! {

/// A resolved caller. `range` covers the full definition (template /
/// function body); `selection_range` covers just the name — so
/// clicking jumps to the identifier.
#[derive(Debug, Clone)]
pub struct Caller {
    pub name: String,
    pub kind: CallerKind,
    pub range: Span,
    pub selection_range: Span,
}

#[derive(Debug, Clone, Copy, PartialEq, Eq, Structural)]
pub enum CallerKind {
    Template,
    Function,
}

/// A resolved outgoing call. `from_ranges` are every call-site span
/// in the caller's body — several call sites may share the same callee.
#[derive(Debug, Clone)]
pub struct Outgoing {
    pub callee_name: String,
    pub from_ranges: Vec<Span>,
}

/// `offset` lies in `span`, both ends included.
pub open spec fn span_has(span: Span, offset: usize) -> bool {
    span.start <= offset <= span.end
}

/// The kind, span and name span of an item that can make calls whose
/// span holds `offset`.
pub open spec fn caller_of(item: Item, offset: usize) -> Option<(CallerKind, Span, Span)> {
    match item {
        Item::TemplateDef(t) => if span_has(t.span, offset) {
            Some((CallerKind::Template, t.span, t.name.span))
        } else {
            None
        },
        Item::FunctionDef(f) => if span_has(f.span, offset) {
            Some((CallerKind::Function, f.span, f.name.span))
        } else {
            None
        },
        _ => None,
    }
}

fn span_contains(span: Span, offset: usize) -> (r: bool)
    ensures
        r == span_has(span, offset),
{
    offset >= span.start && offset <= span.end
}

/// Return the enclosing caller at `offset`: the first template or
/// function whose span holds the byte offset.
pub fn caller_at_offset(file: &File, offset: usize) -> (r: Option<Caller>)
    ensures
        r matches Some(c) ==> exists|i: int| {
            &&& 0 <= i < file.items@.len()
            &&& #[trigger] caller_of(file.items@[i], offset) == Some((c.kind, c.range, c.selection_range))
            &&& forall|j: int| 0 <= j < i ==> caller_of(#[trigger] file.items@[j], offset) is None
        },
        r is None ==> forall|i: int| 0 <= i < file.items@.len() ==> caller_of(#[trigger] file.items@[i], offset) is None,
{
    let mut i: usize = 0;
    while i < file.items.len()
        invariant
            i <= file.items@.len(),
            forall|j: int| 0 <= j < i ==> caller_of(#[trigger] file.items@[j], offset) is None,
        decreases file.items@.len() - i,
    {
        match &file.items[i] {
            Item::TemplateDef(t) => {
                if span_contains(t.span, offset) {
                    let c = Caller {
                        name: String::from_str(t.name.name.as_str()),
                        kind: CallerKind::Template,
                        range: t.span,
                        selection_range: t.name.span,
                    };
                    assert(caller_of(file.items@[i as int], offset) == Some((c.kind, c.range, c.selection_range)));
                    return Some(c);
                }
            },
            Item::FunctionDef(f) => {
                if span_contains(f.span, offset) {
                    let c = Caller {
                        name: String::from_str(f.name.name.as_str()),
                        kind: CallerKind::Function,
                        range: f.span,
                        selection_range: f.name.span,
                    };
                    assert(caller_of(file.items@[i as int], offset) == Some((c.kind, c.range, c.selection_range)));
                    return Some(c);
                }
            },
            _ => {},
        }
        i += 1;
    }
    None
}

// ── What the walk records ───────────────────────────────────────────

/// A call site: the callee's bare name and the span of the name.
pub type Site = (Seq<char>, Span);

/// The call sites of an expression, in the order the walk meets them.
pub open spec fn expr_sites(e: Expression) -> Seq<Site>
    decreases e, 0nat,
{
    match *e.kind {
        ExpressionKind::Call(callee, args) => (match *callee.kind {
            ExpressionKind::Ident(n) => seq![(n@, callee.span)],
            _ => Seq::empty(),
        }) + expr_sites(callee) + exprs_sites(args@),
        ExpressionKind::AnonymousComp(ac) => template_sites(ac.template) + exprs_sites(ac.template_args@) + inputs_sites(
            ac.inputs@,
        ),
        ExpressionKind::Unary(_, x) => expr_sites(x),
        ExpressionKind::Binary(l, _, r) => expr_sites(l) + expr_sites(r),
        ExpressionKind::Ternary(c, t, f) => expr_sites(c) + expr_sites(t) + expr_sites(f),
        ExpressionKind::Index(b, i) => expr_sites(b) + expr_sites(i),
        ExpressionKind::Member(b, _) => expr_sites(b),
        ExpressionKind::ArrayLit(items) => exprs_sites(items@),
        ExpressionKind::Paren(x) => expr_sites(x),
        ExpressionKind::Parallel(x) => expr_sites(x),
        _ => Seq::empty(),
    }
}

pub open spec fn exprs_sites(es: Seq<Expression>) -> Seq<Site>
    decreases es, 1nat,
{
    if es.len() == 0 {
        Seq::empty()
    } else {
        exprs_sites(es.subrange(0, es.len() - 1)) + expr_sites(es[es.len() - 1])
    }
}

/// The template of an anonymous component: its bare name, also when it
/// is called with parameters.
pub open spec fn template_sites(e: Expression) -> Seq<Site>
    decreases e, 1nat,
{
    match *e.kind {
        ExpressionKind::Ident(n) => seq![(n@, e.span)],
        ExpressionKind::Call(callee, _) => match *callee.kind {
            ExpressionKind::Ident(n) => seq![(n@, callee.span)],
            _ => Seq::empty(),
        },
        _ => expr_sites(e),
    }
}

pub open spec fn inputs_sites(ins: Seq<AnonCompInput>) -> Seq<Site>
    decreases ins, 1nat,
{
    if ins.len() == 0 {
        Seq::empty()
    } else {
        inputs_sites(ins.subrange(0, ins.len() - 1)) + match ins[ins.len() - 1] {
            AnonCompInput::Positional(e) => expr_sites(e),
            AnonCompInput::Named(_, e) => expr_sites(e),
        }
    }
}

pub open spec fn opt_sites(e: Option<Expression>) -> Seq<Site> {
    match e {
        Some(x) => expr_sites(x),
        None => Seq::empty(),
    }
}

/// The sites of an initialiser that comes with an operator.
pub open spec fn init_sites<T>(e: Option<(T, Expression)>) -> Seq<Site> {
    match e {
        Some((_, x)) => expr_sites(x),
        None => Seq::empty(),
    }
}

pub open spec fn else_sites(e: Option<Block>) -> Seq<Site> {
    match e {
        Some(b) => block_sites(b),
        None => Seq::empty(),
    }
}

/// The callee of a call, when it is a bare name.
pub open spec fn call_head(callee: Expression) -> Seq<Site> {
    match *callee.kind {
        ExpressionKind::Ident(n) => seq![(n@, callee.span)],
        _ => Seq::empty(),
    }
}

pub open spec fn log_arg_sites(a: LogArg) -> Seq<Site> {
    match a {
        LogArg::Expr(e) => expr_sites(e),
        LogArg::String(_) => Seq::empty(),
    }
}

pub open spec fn input_sites(i: AnonCompInput) -> Seq<Site> {
    match i {
        AnonCompInput::Positional(e) => expr_sites(e),
        AnonCompInput::Named(_, e) => expr_sites(e),
    }
}

pub open spec fn targets_sites(ts: Seq<Option<Expression>>) -> Seq<Site>
    decreases ts.len(),
{
    if ts.len() == 0 {
        Seq::empty()
    } else {
        targets_sites(ts.drop_last()) + opt_sites(ts.last())
    }
}

pub open spec fn log_sites(args: Seq<LogArg>) -> Seq<Site>
    decreases args.len(),
{
    if args.len() == 0 {
        Seq::empty()
    } else {
        log_sites(args.drop_last()) + match args.last() {
            LogArg::Expr(e) => expr_sites(e),
            LogArg::String(_) => Seq::empty(),
        }
    }
}

pub open spec fn var_sites(es: Seq<VarDeclEntry>) -> Seq<Site>
    decreases es.len(),
{
    if es.len() == 0 {
        Seq::empty()
    } else {
        var_sites(es.drop_last()) + exprs_sites(es.last().dimensions@) + opt_sites(es.last().init)
    }
}

pub open spec fn signal_sites(es: Seq<SignalDeclEntry>) -> Seq<Site>
    decreases es.len(),
{
    if es.len() == 0 {
        Seq::empty()
    } else {
        signal_sites(es.drop_last()) + exprs_sites(es.last().dimensions@) + match es.last().init {
            Some((_, x)) => expr_sites(x),
            None => Seq::empty(),
        }
    }
}

pub open spec fn component_sites(es: Seq<ComponentDeclEntry>) -> Seq<Site>
    decreases es.len(),
{
    if es.len() == 0 {
        Seq::empty()
    } else {
        component_sites(es.drop_last()) + exprs_sites(es.last().dimensions@) + opt_sites(es.last().init)
    }
}

/// The call sites of a statement, in the order the walk meets them.
pub open spec fn stmt_sites(st: Statement) -> Seq<Site>
    decreases st,
{
    match st.kind {
        StatementKind::VarDecl(d) => var_sites(d.names@),
        StatementKind::SignalDecl(d) => signal_sites(d.names@),
        StatementKind::ComponentDecl(d) => component_sites(d.names@),
        StatementKind::BusDecl(d) => exprs_sites(d.bus_type.args@) + exprs_sites(d.dimensions@) + match d.init {
            Some((_, x)) => expr_sites(x),
            None => Seq::empty(),
        },
        StatementKind::Assignment(a) => expr_sites(a.lhs) + expr_sites(a.rhs),
        StatementKind::CompoundAssign(a) => expr_sites(a.lhs) + expr_sites(a.rhs),
        StatementKind::ConstraintEq(c) => expr_sites(c.lhs) + expr_sites(c.rhs),
        StatementKind::TupleAssign(t) => targets_sites(t.targets@) + expr_sites(t.rhs),
        StatementKind::IfElse(ie) => expr_sites(ie.cond) + block_sites(ie.then_body) + match ie.else_body {
            Some(b) => block_sites(b),
            None => Seq::empty(),
        },
        StatementKind::For(f) => stmt_sites(*f.init) + expr_sites(f.cond) + stmt_sites(*f.step) + block_sites(f.body),
        StatementKind::While(w) => expr_sites(w.cond) + block_sites(w.body),
        StatementKind::Return(r) => expr_sites(r.value),
        StatementKind::Log(l) => log_sites(l.args@),
        StatementKind::Assert(a) => expr_sites(a.expr),
        StatementKind::Increment(e) => expr_sites(e),
        StatementKind::Decrement(e) => expr_sites(e),
        StatementKind::Expression(e) => expr_sites(e),
        StatementKind::Block(b) => block_sites(b),
        StatementKind::Error => Seq::empty(),
    }
}

pub open spec fn block_sites(b: Block) -> Seq<Site>
    decreases b,
{
    stmts_sites(b.stmts@)
}

pub open spec fn stmts_sites(ss: Seq<Statement>) -> Seq<Site>
    decreases ss,
{
    if ss.len() == 0 {
        Seq::empty()
    } else {
        stmts_sites(ss.subrange(0, ss.len() - 1)) + stmt_sites(ss[ss.len() - 1])
    }
}

/// Call sites grouped by callee: names in order of first call, each with
/// its call-site spans in order.
pub type Groups = Seq<(Seq<char>, Seq<Span>)>;

/// The position of `n` among the names of `g`, or `g.len()`.
pub open spec fn name_pos(g: Groups, n: Seq<char>) -> int
    decreases g.len(),
{
    if g.len() == 0 {
        0
    } else {
        let p = name_pos(g.drop_last(), n);
        if p < g.len() - 1 {
            p
        } else if g.last().0 == n {
            g.len() - 1
        } else {
            g.len() as int
        }
    }
}

/// Add one call site to the groups.
pub open spec fn group_add(g: Groups, site: Site) -> Groups {
    let p = name_pos(g, site.0);
    if p < g.len() {
        g.update(p, (g[p].0, g[p].1.push(site.1)))
    } else {
        g.push((site.0, seq![site.1]))
    }
}

/// Add call sites one after another.
pub open spec fn add_all(g: Groups, sites: Seq<Site>) -> Groups
    decreases sites.len(),
{
    if sites.len() == 0 {
        g
    } else {
        group_add(add_all(g, sites.drop_last()), sites.last())
    }
}

/// The groups recorded in a list of outgoing calls.
pub open spec fn groups_of(calls: Seq<Outgoing>) -> Groups {
    calls.map_values(|o: Outgoing| (o.callee_name@, o.from_ranges@))
}

proof fn lemma_name_pos(g: Groups, n: Seq<char>)
    ensures
        0 <= name_pos(g, n) <= g.len(),
        name_pos(g, n) < g.len() ==> g[name_pos(g, n)].0 == n,
        forall|j: int| 0 <= j < name_pos(g, n) ==> (#[trigger] g[j]).0 != n,
    decreases g.len(),
{
    if g.len() > 0 {
        let d = g.drop_last();
        lemma_name_pos(d, n);
        assert forall|j: int| 0 <= j < d.len() implies #[trigger] g[j] == d[j] by {}
    }
}

proof fn lemma_add_all_concat(g: Groups, a: Seq<Site>, b: Seq<Site>)
    ensures
        add_all(g, a + b) == add_all(add_all(g, a), b),
    decreases b.len(),
{
    if b.len() == 0 {
        assert(a + b =~= a);
    } else {
        lemma_add_all_concat(g, a, b.drop_last());
        assert((a + b).drop_last() =~= a + b.drop_last());
        assert((a + b).last() == b.last());
    }
}

/// Some group of `g` is named after the callee of `x` and holds its span.
pub open spec fn covered(g: Groups, x: Site) -> bool {
    exists|k: int| 0 <= k < g.len() && (#[trigger] g[k]).0 == x.0 && g[k].1.contains(x.1)
}

/// Adding a call site keeps what was covered and covers the new site.
proof fn lemma_group_add_covers(g: Groups, y: Site, x: Site)
    ensures
        covered(g, x) ==> covered(group_add(g, y), x),
        covered(group_add(g, y), y),
{
    lemma_name_pos(g, y.0);
    let p = name_pos(g, y.0);
    let g2 = group_add(g, y);
    if covered(g, x) {
        let k = choose|k: int| 0 <= k < g.len() && (#[trigger] g[k]).0 == x.0 && g[k].1.contains(x.1);
        if p < g.len() && k == p {
            let w = choose|w: int| 0 <= w < g[k].1.len() && g[k].1[w] == x.1;
            assert(g2[k].1[w] == x.1);
        } else {
            assert(g2[k] == g[k]);
        }
        assert(covered(g2, x));
    }
    if p < g.len() {
        assert(g2[p].1[g2[p].1.len() - 1] == y.1);
    } else {
        assert(g2[g.len() as int].1[0] == y.1);
    }
}

/// Every call site added is covered by the groups.
pub proof fn lemma_add_all_covers(g: Groups, sites: Seq<Site>, x: Site)
    requires
        sites.contains(x) || covered(g, x),
    ensures
        covered(add_all(g, sites), x),
    decreases sites.len(),
{
    if sites.len() > 0 {
        let d = sites.drop_last();
        if d.contains(x) || covered(g, x) {
            lemma_add_all_covers(g, d, x);
            lemma_group_add_covers(add_all(g, d), sites.last(), x);
        } else {
            let w = choose|w: int| 0 <= w < sites.len() && sites[w] == x;
            if w < d.len() {
                assert(d[w] == x);
            }
            lemma_group_add_covers(add_all(g, d), sites.last(), x);
        }
    }
}

/// The callee names are pairwise distinct and each has a call site.
pub open spec fn outgoing_ok(calls: Seq<Outgoing>) -> bool {
    &&& forall|a: int, b: int| 0 <= a < b < calls.len() ==> (#[trigger] calls[a]).callee_name@ != (#[trigger] calls[b]).callee_name@
    &&& forall|a: int| 0 <= a < calls.len() ==> (#[trigger] calls[a]).from_ranges@.len() > 0
}

/// Return every outgoing call from the caller whose name and kind match:
/// the first template (or function) of that name. Callee names are bare;
/// duplicates from multiple call sites collapse into one entry with a
/// list of `from_ranges`.
pub fn outgoing_calls_for(file: &File, caller_name: &str, kind: CallerKind) -> (r: Vec<Outgoing>)
    ensures
        outgoing_ok(r@),
        groups_of(r@) == match caller_body(file.items@, caller_name@, kind) {
            Some(b) => add_all(Seq::empty(), block_sites(b)),
            None => Seq::empty(),
        },
{
    let mut i: usize = 0;
    assert(file.items@.subrange(0, file.items@.len() as int) =~= file.items@);
    while i < file.items.len()
        invariant
            i <= file.items@.len(),
            caller_body(file.items@, caller_name@, kind) == caller_body(file.items@.subrange(i as int, file.items@.len() as int), caller_name@, kind),
        decreases file.items@.len() - i,
    {
        proof {
            let t = file.items@.subrange(i as int, file.items@.len() as int);
            assert(t.drop_first() =~= file.items@.subrange(i + 1, file.items@.len() as int));
            assert(t[0] == file.items@[i as int]);
        }
        match &file.items[i] {
            Item::TemplateDef(t) => {
                if kind == CallerKind::Template && string_eq(&t.name.name, caller_name) {
                    return collect_outgoing(&t.body);
                }
            },
            Item::FunctionDef(f) => {
                if kind == CallerKind::Function && string_eq(&f.name.name, caller_name) {
                    return collect_outgoing(&f.body);
                }
            },
            _ => {},
        }
        i += 1;
    }
    proof {
        assert(file.items@.subrange(i as int, file.items@.len() as int) =~= Seq::<Item>::empty());
    }
    let r = Vec::new();
    assert(groups_of(r@) =~= Seq::<(Seq<char>, Seq<Span>)>::empty());
    r
}

/// The body of the first template (or function) named `name`.
pub open spec fn caller_body(items: Seq<Item>, name: Seq<char>, kind: CallerKind) -> Option<Block>
    decreases items.len(),
{
    if items.len() == 0 {
        None
    } else {
        match items[0] {
            Item::TemplateDef(t) => if kind == CallerKind::Template && t.name.name@ == name {
                Some(t.body)
            } else {
                caller_body(items.drop_first(), name, kind)
            },
            Item::FunctionDef(f) => if kind == CallerKind::Function && f.name.name@ == name {
                Some(f.body)
            } else {
                caller_body(items.drop_first(), name, kind)
            },
            _ => caller_body(items.drop_first(), name, kind),
        }
    }
}

// ── Walker ──────────────────────────────────────────────────────────

fn collect_outgoing(block: &Block) -> (r: Vec<Outgoing>)
    ensures
        outgoing_ok(r@),
        groups_of(r@) == add_all(Seq::empty(), block_sites(*block)),
{
    let mut visitor = CallVisitor { calls: Vec::new() };
    assert(groups_of(visitor.calls@) =~= Seq::<(Seq<char>, Seq<Span>)>::empty());
    visitor.visit_block(block);
    visitor.calls
}

/// Callee names with their call-site spans, in order of first call.
struct CallVisitor {
    calls: Vec<Outgoing>,
}

/// Adding one call site is adding a list of one.
proof fn lemma_add_one(g: Groups, x: Site)
    ensures
        add_all(g, seq![x]) == group_add(g, x),
{
    assert(seq![x].drop_last() =~= Seq::<Site>::empty());
    assert(add_all(g, Seq::<Site>::empty()) == g);
    assert(seq![x].last() == x);
}

/// Adding three lists one after another adds their concatenation.
proof fn lemma_add3(g: Groups, a: Seq<Site>, b: Seq<Site>, c: Seq<Site>)
    ensures
        add_all(add_all(add_all(g, a), b), c) == add_all(g, a + b + c),
{
    lemma_add_all_concat(g, a, b);
    lemma_add_all_concat(g, a + b, c);
}

/// Adding four lists one after another adds their concatenation.
proof fn lemma_add4(g: Groups, a: Seq<Site>, b: Seq<Site>, c: Seq<Site>, d: Seq<Site>)
    ensures
        add_all(add_all(add_all(add_all(g, a), b), c), d) == add_all(g, a + b + c + d),
{
    lemma_add3(g, a, b, c);
    lemma_add_all_concat(g, a + b + c, d);
}

impl CallVisitor {
    spec fn ok(self) -> bool {
        outgoing_ok(self.calls@)
    }

    fn record(&mut self, name: &str, span: Span)
        requires
            old(self).ok(),
        ensures
            final(self).ok(),
            groups_of(final(self).calls@) == group_add(groups_of(old(self).calls@), (name@, span)),
    {
        let mut i: usize = 0;
        while i < self.calls.len()
            invariant
                i <= self.calls@.len(),
                self.ok(),
                self.calls == old(self).calls,
                forall|k: int| 0 <= k < i ==> (#[trigger] self.calls@[k]).callee_name@ != name@,
            decreases self.calls@.len() - i,
        {
            if string_eq(&self.calls[i].callee_name, name) {
                let ghost prev = old(self).calls@;
                let mut entry = Outgoing { callee_name: String::new(), from_ranges: Vec::new() };
                std::mem::swap(&mut entry, &mut self.calls[i]);
                entry.from_ranges.push(span);
                self.calls.set(i, entry);
                proof {
                    let g = groups_of(prev);
                    lemma_name_pos(g, name@);
                    let p = name_pos(g, name@);
                    if p < i {
                        assert(g[p].0 == prev[p].callee_name@);
                    }
                    if p > i {
                        assert(g[i as int].0 == name@);
                    }
                    assert(groups_of(self.calls@) =~= group_add(g, (name@, span)));
                    assert forall|a: int, b: int| 0 <= a < b < self.calls@.len() implies (#[trigger] self.calls@[a]).callee_name@
                        != (#[trigger] self.calls@[b]).callee_name@ by {
                        assert(prev[a].callee_name@ != prev[b].callee_name@);
                    }
                }
                return;
            }
            i += 1;
        }
        let mut spans: Vec<Span> = Vec::new();
        spans.push(span);
        let ghost prev = self.calls@;
        self.calls.push(Outgoing { callee_name: String::from_str(name), from_ranges: spans });
        proof {
            let g = groups_of(prev);
            lemma_name_pos(g, name@);
            if name_pos(g, name@) < g.len() {
                assert(g[name_pos(g, name@)].0 == prev[name_pos(g, name@)].callee_name@);
            }
            assert(groups_of(self.calls@) =~= group_add(g, (name@, span)));
            assert forall|a: int, b: int| 0 <= a < b < self.calls@.len() implies (#[trigger] self.calls@[a]).callee_name@
                != (#[trigger] self.calls@[b]).callee_name@ by {
                if b == self.calls@.len() - 1 {
                    assert(self.calls@[a] == prev[a]);
                } else {
                    assert(prev[a].callee_name@ != prev[b].callee_name@);
                }
            }
            assert forall|a: int| 0 <= a < self.calls@.len() implies (#[trigger] self.calls@[a]).from_ranges@.len() > 0 by {
                if a < prev.len() {
                    assert(self.calls@[a] == prev[a]);
                }
            }
        }
    }

    fn visit_block(&mut self, block: &Block)
        requires
            old(self).ok(),
        ensures
            final(self).ok(),
            groups_of(final(self).calls@) == add_all(groups_of(old(self).calls@), block_sites(*block)),
        decreases block, 1nat,
    {
        let ghost g0 = groups_of(self.calls@);
        let mut i: usize = 0;
        while i < block.stmts.len()
            invariant
                i <= block.stmts@.len(),
                self.ok(),
                g0 == groups_of(old(self).calls@),
                groups_of(self.calls@) == add_all(g0, stmts_sites(block.stmts@.subrange(0, i as int))),
            decreases block.stmts@.len() - i,
        {
            assert(decreases_to!(block => block.stmts@[i as int]));
            self.visit_stmt(&block.stmts[i]);
            proof {
                let t = block.stmts@.subrange(0, i + 1);
                assert(t.subrange(0, t.len() - 1) =~= block.stmts@.subrange(0, i as int));
                assert(t[t.len() - 1] == block.stmts@[i as int]);
                lemma_add_all_concat(g0, stmts_sites(block.stmts@.subrange(0, i as int)), stmt_sites(block.stmts@[i as int]));
            }
            i += 1;
        }
        assert(block.stmts@.subrange(0, i as int) =~= block.stmts@);
    }

    fn visit_exprs(&mut self, exprs: &Vec<Expression>)
        requires
            old(self).ok(),
        ensures
            final(self).ok(),
            groups_of(final(self).calls@) == add_all(groups_of(old(self).calls@), exprs_sites(exprs@)),
        decreases exprs, 1nat,
    {
        let ghost g0 = groups_of(self.calls@);
        let mut i: usize = 0;
        while i < exprs.len()
            invariant
                i <= exprs@.len(),
                self.ok(),
                g0 == groups_of(old(self).calls@),
                groups_of(self.calls@) == add_all(g0, exprs_sites(exprs@.subrange(0, i as int))),
            decreases exprs@.len() - i,
        {
            assert(decreases_to!(exprs => exprs@[i as int]));
            self.visit_expr(&exprs[i]);
            proof {
                let t = exprs@.subrange(0, i + 1);
                assert(t.subrange(0, t.len() - 1) =~= exprs@.subrange(0, i as int));
                assert(t[t.len() - 1] == exprs@[i as int]);
                lemma_add_all_concat(g0, exprs_sites(exprs@.subrange(0, i as int)), expr_sites(exprs@[i as int]));
            }
            i += 1;
        }
        assert(exprs@.subrange(0, i as int) =~= exprs@);
    }

    /// Visit an optional expression.
    fn visit_opt(&mut self, e: &Option<Expression>)
        requires
            old(self).ok(),
        ensures
            final(self).ok(),
            groups_of(final(self).calls@) == add_all(groups_of(old(self).calls@), opt_sites(*e)),
    {
        match e {
            Some(x) => self.visit_expr(x),
            None => {},
        }
    }

    /// Visit an optional initialiser that comes with an operator.
    fn visit_opt_init<T>(&mut self, e: &Option<(T, Expression)>)
        requires
            old(self).ok(),
        ensures
            final(self).ok(),
            groups_of(final(self).calls@) == add_all(groups_of(old(self).calls@), init_sites(*e)),
    {
        match e {
            Some((_, x)) => self.visit_expr(x),
            None => {},
        }
    }

    fn visit_var_decl(&mut self, d: &VarDecl)
        requires
            old(self).ok(),
        ensures
            final(self).ok(),
            groups_of(final(self).calls@) == add_all(groups_of(old(self).calls@), var_sites(d.names@)),
    {
        let ghost g0 = groups_of(self.calls@);
        let mut i: usize = 0;
        while i < d.names.len()
            invariant
                i <= d.names@.len(),
                self.ok(),
                g0 == groups_of(old(self).calls@),
                groups_of(self.calls@) == add_all(g0, var_sites(d.names@.subrange(0, i as int))),
            decreases d.names@.len() - i,
        {
            let entry = &d.names[i];
            self.visit_exprs(&entry.dimensions);
            self.visit_opt(&entry.init);
            proof {
                let t = d.names@.subrange(0, i + 1);
                assert(t.drop_last() =~= d.names@.subrange(0, i as int));
                assert(t.last() == *entry);
                lemma_add3(g0, var_sites(d.names@.subrange(0, i as int)), exprs_sites(entry.dimensions@), opt_sites(entry.init));
            }
            i += 1;
        }
        assert(d.names@.subrange(0, i as int) =~= d.names@);
    }

    fn visit_signal_decl(&mut self, d: &SignalDecl)
        requires
            old(self).ok(),
        ensures
            final(self).ok(),
            groups_of(final(self).calls@) == add_all(groups_of(old(self).calls@), signal_sites(d.names@)),
    {
        let ghost g0 = groups_of(self.calls@);
        let mut i: usize = 0;
        while i < d.names.len()
            invariant
                i <= d.names@.len(),
                self.ok(),
                g0 == groups_of(old(self).calls@),
                groups_of(self.calls@) == add_all(g0, signal_sites(d.names@.subrange(0, i as int))),
            decreases d.names@.len() - i,
        {
            let entry = &d.names[i];
            self.visit_exprs(&entry.dimensions);
            self.visit_opt_init(&entry.init);
            proof {
                let t = d.names@.subrange(0, i + 1);
                assert(t.drop_last() =~= d.names@.subrange(0, i as int));
                assert(t.last() == *entry);
                lemma_add3(
                    g0,
                    signal_sites(d.names@.subrange(0, i as int)),
                    exprs_sites(entry.dimensions@),
                    init_sites(entry.init),
                );
            }
            i += 1;
        }
        assert(d.names@.subrange(0, i as int) =~= d.names@);
    }

    fn visit_component_decl(&mut self, d: &ComponentDecl)
        requires
            old(self).ok(),
        ensures
            final(self).ok(),
            groups_of(final(self).calls@) == add_all(groups_of(old(self).calls@), component_sites(d.names@)),
    {
        let ghost g0 = groups_of(self.calls@);
        let mut i: usize = 0;
        while i < d.names.len()
            invariant
                i <= d.names@.len(),
                self.ok(),
                g0 == groups_of(old(self).calls@),
                groups_of(self.calls@) == add_all(g0, component_sites(d.names@.subrange(0, i as int))),
            decreases d.names@.len() - i,
        {
            let entry = &d.names[i];
            self.visit_exprs(&entry.dimensions);
            self.visit_opt(&entry.init);
            proof {
                let t = d.names@.subrange(0, i + 1);
                assert(t.drop_last() =~= d.names@.subrange(0, i as int));
                assert(t.last() == *entry);
                lemma_add3(g0, component_sites(d.names@.subrange(0, i as int)), exprs_sites(entry.dimensions@), opt_sites(entry.init));
            }
            i += 1;
        }
        assert(d.names@.subrange(0, i as int) =~= d.names@);
    }

    fn visit_bus_decl(&mut self, d: &BusInstanceDecl)
        requires
            old(self).ok(),
        ensures
            final(self).ok(),
            groups_of(final(self).calls@) == add_all(groups_of(old(self).calls@), exprs_sites(d.bus_type.args@) + exprs_sites(d.dimensions@) + init_sites(d.init)),
    {
        self.visit_exprs(&d.bus_type.args);
        self.visit_exprs(&d.dimensions);
        self.visit_opt_init(&d.init);
        proof {
            lemma_add3(groups_of(old(self).calls@), exprs_sites(d.bus_type.args@), exprs_sites(d.dimensions@), init_sites(d.init));
        }
    }

    fn visit_stmt(&mut self, stmt: &Statement)
        requires
            old(self).ok(),
        ensures
            final(self).ok(),
            groups_of(final(self).calls@) == add_all(groups_of(old(self).calls@), stmt_sites(*stmt)),
        decreases stmt, 0nat,
    {
        match &stmt.kind {
            StatementKind::VarDecl(d) => self.visit_var_decl(d),
            StatementKind::SignalDecl(d) => self.visit_signal_decl(d),
            StatementKind::ComponentDecl(d) => self.visit_component_decl(d),
            StatementKind::BusDecl(d) => self.visit_bus_decl(d),
            StatementKind::Assignment(a) => self.visit_binary_expr(&a.lhs, &a.rhs),
            StatementKind::CompoundAssign(a) => self.visit_binary_expr(&a.lhs, &a.rhs),
            StatementKind::ConstraintEq(c) => self.visit_binary_expr(&c.lhs, &c.rhs),
            StatementKind::TupleAssign(t) => self.visit_tuple_assign(t),
            StatementKind::IfElse(ie) => self.visit_if_else(ie),
            StatementKind::For(f) => self.visit_for(f),
            StatementKind::While(w) => self.visit_while(w),
            StatementKind::Return(r) => self.visit_expr(&r.value),
            StatementKind::Log(l) => self.visit_log(l),
            StatementKind::Assert(a) => self.visit_expr(&a.expr),
            StatementKind::Increment(e) => self.visit_expr(e),
            StatementKind::Decrement(e) => self.visit_expr(e),
            StatementKind::Expression(e) => self.visit_expr(e),
            StatementKind::Block(b) => self.visit_block(b),
            StatementKind::Error => {},
        }
    }

    fn visit_binary_expr(&mut self, lhs: &Expression, rhs: &Expression)
        requires
            old(self).ok(),
        ensures
            final(self).ok(),
            groups_of(final(self).calls@) == add_all(groups_of(old(self).calls@), expr_sites(*lhs) + expr_sites(*rhs)),
    {
        self.visit_expr(lhs);
        self.visit_expr(rhs);
        proof {
            lemma_add_all_concat(groups_of(old(self).calls@), expr_sites(*lhs), expr_sites(*rhs));
        }
    }

    fn visit_tuple_assign(&mut self, t: &TupleAssignStmt)
        requires
            old(self).ok(),
        ensures
            final(self).ok(),
            groups_of(final(self).calls@) == add_all(groups_of(old(self).calls@), targets_sites(t.targets@) + expr_sites(t.rhs)),
    {
        let ghost g0 = groups_of(self.calls@);
        let mut i: usize = 0;
        while i < t.targets.len()
            invariant
                i <= t.targets@.len(),
                self.ok(),
                g0 == groups_of(old(self).calls@),
                groups_of(self.calls@) == add_all(g0, targets_sites(t.targets@.subrange(0, i as int))),
            decreases t.targets@.len() - i,
        {
            self.visit_opt(&t.targets[i]);
            proof {
                let u = t.targets@.subrange(0, i + 1);
                assert(u.drop_last() =~= t.targets@.subrange(0, i as int));
                assert(u.last() == t.targets@[i as int]);
                lemma_add_all_concat(g0, targets_sites(t.targets@.subrange(0, i as int)), opt_sites(t.targets@[i as int]));
            }
            i += 1;
        }
        assert(t.targets@.subrange(0, i as int) =~= t.targets@);
        self.visit_expr(&t.rhs);
        proof {
            lemma_add_all_concat(g0, targets_sites(t.targets@), expr_sites(t.rhs));
        }
    }

    fn visit_if_else(&mut self, ie: &IfElse)
        requires
            old(self).ok(),
        ensures
            final(self).ok(),
            groups_of(final(self).calls@) == add_all(groups_of(old(self).calls@), expr_sites(ie.cond) + block_sites(ie.then_body) + else_sites(ie.else_body)),
        decreases ie, 2nat,
    {
        self.visit_expr(&ie.cond);
        self.visit_block(&ie.then_body);
        match &ie.else_body {
            Some(else_body) => self.visit_block(else_body),
            None => {},
        }
        proof {
            lemma_add3(groups_of(old(self).calls@), expr_sites(ie.cond), block_sites(ie.then_body), else_sites(ie.else_body));
        }
    }

    fn visit_for(&mut self, f: &ForLoop)
        requires
            old(self).ok(),
        ensures
            final(self).ok(),
            groups_of(final(self).calls@) == add_all(groups_of(old(self).calls@), stmt_sites(*f.init) + expr_sites(f.cond) + stmt_sites(*f.step) + block_sites(f.body)),
        decreases f, 2nat,
    {
        self.visit_stmt(&f.init);
        self.visit_expr(&f.cond);
        self.visit_stmt(&f.step);
        self.visit_block(&f.body);
        proof {
            lemma_add4(groups_of(old(self).calls@), stmt_sites(*f.init), expr_sites(f.cond), stmt_sites(*f.step), block_sites(f.body));
        }
    }

    fn visit_while(&mut self, w: &WhileLoop)
        requires
            old(self).ok(),
        ensures
            final(self).ok(),
            groups_of(final(self).calls@) == add_all(groups_of(old(self).calls@), expr_sites(w.cond) + block_sites(w.body)),
        decreases w, 2nat,
    {
        self.visit_expr(&w.cond);
        self.visit_block(&w.body);
        proof {
            lemma_add_all_concat(groups_of(old(self).calls@), expr_sites(w.cond), block_sites(w.body));
        }
    }

    fn visit_log(&mut self, l: &LogStmt)
        requires
            old(self).ok(),
        ensures
            final(self).ok(),
            groups_of(final(self).calls@) == add_all(groups_of(old(self).calls@), log_sites(l.args@)),
    {
        let ghost g0 = groups_of(self.calls@);
        let mut i: usize = 0;
        while i < l.args.len()
            invariant
                i <= l.args@.len(),
                self.ok(),
                g0 == groups_of(old(self).calls@),
                groups_of(self.calls@) == add_all(g0, log_sites(l.args@.subrange(0, i as int))),
            decreases l.args@.len() - i,
        {
            match &l.args[i] {
                LogArg::Expr(e) => self.visit_expr(e),
                LogArg::String(_) => {},
            }
            proof {
                let u = l.args@.subrange(0, i + 1);
                assert(u.drop_last() =~= l.args@.subrange(0, i as int));
                assert(u.last() == l.args@[i as int]);
                lemma_add_all_concat(g0, log_sites(l.args@.subrange(0, i as int)), log_arg_sites(l.args@[i as int]));
            }
            i += 1;
        }
        assert(l.args@.subrange(0, i as int) =~= l.args@);
    }

    fn visit_expr(&mut self, expr: &Expression)
        requires
            old(self).ok(),
        ensures
            final(self).ok(),
            groups_of(final(self).calls@) == add_all(groups_of(old(self).calls@), expr_sites(*expr)),
        decreases expr, 0nat,
    {
        let ghost g0 = groups_of(self.calls@);
        match &*expr.kind {
            // A plain `Name(args)` call — template or function call.
            ExpressionKind::Call(callee, args) => {
                let ghost head: Seq<Site> = call_head(*callee);
                match &*callee.kind {
                    ExpressionKind::Ident(name) => {
                        self.record(name.as_str(), callee.span);
                        proof {
                            lemma_add_one(g0, (name@, callee.span));
                        }
                    },
                    _ => {},
                }
                // Still recurse into the callee expression in case
                // it's e.g. a member access on a call result, and
                // into every argument.
                self.visit_expr(callee);
                self.visit_exprs(args);
                proof {
                    lemma_add3(g0, head, expr_sites(*callee), exprs_sites(args@));
                }
            },
            // Anonymous component: `Template(params)(inputs)`. The
            // `template` expression here is either an Ident or a Call
            // — either way we want to record the outermost template
            // name the user wrote.
            ExpressionKind::AnonymousComp(anon) => self.visit_anon(anon),
            ExpressionKind::Unary(_, e) => self.visit_expr(e),
            ExpressionKind::Binary(l, _, r) => {
                self.visit_expr(l);
                self.visit_expr(r);
                proof {
                    lemma_add_all_concat(g0, expr_sites(*l), expr_sites(*r));
                }
            },
            ExpressionKind::Ternary(c, t, e) => {
                self.visit_expr(c);
                self.visit_expr(t);
                self.visit_expr(e);
                proof {
                    lemma_add3(g0, expr_sites(*c), expr_sites(*t), expr_sites(*e));
                }
            },
            ExpressionKind::Index(base, idx) => {
                self.visit_expr(base);
                self.visit_expr(idx);
                proof {
                    lemma_add_all_concat(g0, expr_sites(*base), expr_sites(*idx));
                }
            },
            ExpressionKind::Member(base, _) => self.visit_expr(base),
            ExpressionKind::ArrayLit(items) => self.visit_exprs(items),
            ExpressionKind::Paren(e) => self.visit_expr(e),
            ExpressionKind::Parallel(e) => self.visit_expr(e),
            ExpressionKind::Number(_) | ExpressionKind::Ident(_) | ExpressionKind::Underscore
            | ExpressionKind::Error => {},
        }
    }

    /// Anonymous component: `Template(params)(inputs)`. The `template`
    /// expression is either an Ident or a Call — either way the outermost
    /// template name the user wrote is recorded.
    fn visit_anon(&mut self, anon: &AnonymousComp)
        requires
            old(self).ok(),
        ensures
            final(self).ok(),
            groups_of(final(self).calls@) == add_all(groups_of(old(self).calls@), template_sites(anon.template) + exprs_sites(anon.template_args@) + inputs_sites(anon.inputs@)),
        decreases anon, 2nat,
    {
        let ghost g0 = groups_of(self.calls@);
        self.record_anon_template(&anon.template);
        self.visit_exprs(&anon.template_args);
        let ghost g1 = groups_of(self.calls@);
        proof {
            lemma_add_all_concat(g0, template_sites(anon.template), exprs_sites(anon.template_args@));
        }
        let mut i: usize = 0;
        while i < anon.inputs.len()
            invariant
                i <= anon.inputs@.len(),
                self.ok(),
                groups_of(self.calls@) == add_all(g1, inputs_sites(anon.inputs@.subrange(0, i as int))),
            decreases anon.inputs@.len() - i,
        {
            assert(decreases_to!(anon => anon.inputs@[i as int]));
            match &anon.inputs[i] {
                AnonCompInput::Positional(e) => self.visit_expr(e),
                AnonCompInput::Named(_, e) => self.visit_expr(e),
            }
            proof {
                let u = anon.inputs@.subrange(0, i + 1);
                assert(u.subrange(0, u.len() - 1) =~= anon.inputs@.subrange(0, i as int));
                assert(u[u.len() - 1] == anon.inputs@[i as int]);
                lemma_add_all_concat(g1, inputs_sites(anon.inputs@.subrange(0, i as int)), input_sites(anon.inputs@[i as int]));
            }
            i += 1;
        }
        assert(anon.inputs@.subrange(0, i as int) =~= anon.inputs@);
        proof {
            lemma_add_all_concat(g0, template_sites(anon.template) + exprs_sites(anon.template_args@), inputs_sites(anon.inputs@));
        }
    }

    fn record_anon_template(&mut self, expr: &Expression)
        requires
            old(self).ok(),
        ensures
            final(self).ok(),
            groups_of(final(self).calls@) == add_all(groups_of(old(self).calls@), template_sites(*expr)),
        decreases expr, 1nat,
    {
        let ghost g0 = groups_of(self.calls@);
        match &*expr.kind {
            ExpressionKind::Ident(name) => {
                self.record(name.as_str(), expr.span);
                proof {
                    lemma_add_one(g0, (name@, expr.span));
                }
            },
            ExpressionKind::Call(callee, _) => {
                match &*callee.kind {
                    ExpressionKind::Ident(name) => {
                        self.record(name.as_str(), callee.span);
                        proof {
                            lemma_add_one(g0, (name@, callee.span));
                        }
                    },
                    _ => {},
                }
            },
            _ => self.visit_expr(expr),
        }
    }
}

} // verus!
