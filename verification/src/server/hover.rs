//! Hover text for the Circom language server: type information,
//! signature and description of the symbol under the cursor, as
//! markdown.

use vstd::prelude::*;

use crate::ast::SignalKind;
use crate::circomlib_docs::{doc_markdown, lookup};
use crate::scope::chain_lookup;
use crate::symbol::{BusSymbol, ScopeId, SignalSymbol, Symbol, SymbolId, SymbolKind, TemplateSymbol};
use crate::symbol_table::SymbolTable;
use crate::text::{join_seqs, join_strings, repeat_seq, repeat_str, views};

verus! {

/// The direction word of a signal, with its trailing space.
pub open spec fn direction_text(k: SignalKind) -> Seq<char> {
    match k {
        SignalKind::Input => "input "@,
        SignalKind::Output => "output "@,
        SignalKind::Intermediate => Seq::empty(),
    }
}

/// ` {a, b}` for the tags `a` and `b`; nothing without tags.
pub open spec fn tags_text(tags: Seq<String>) -> Seq<char> {
    if tags.len() == 0 {
        Seq::empty()
    } else {
        " {"@ + join_seqs(views(tags), ", "@) + "}"@
    }
}

/// `signal input name bus[][] {tags}`: one field of a bus.
pub open spec fn field_line_text(name: Seq<char>, sig: SignalSymbol) -> Seq<char> {
    let bus = match sig.bus_type {
        Some(b) => " "@ + b@,
        None => Seq::empty(),
    };
    "signal "@ + direction_text(sig.kind) + name + bus + repeat_seq("[]"@, sig.dimensions as nat) + tags_text(
        sig.tags@,
    )
}

/// The field lines of the names `names` bound in scope `scope`: one per
/// name whose first symbol is a signal.
pub open spec fn field_lines(table: SymbolTable, scope: int, names: Seq<Seq<char>>) -> Seq<Seq<char>>
    decreases names.len(),
{
    if names.len() == 0 {
        Seq::empty()
    } else {
        let prev = field_lines(table, scope, names.drop_last());
        match table.scope_seq()[scope].bound(names.last()) {
            Some(ids) => {
                let sym = table.symbols()[ids[0].0 as int];
                match sym.kind {
                    SymbolKind::Signal(sig) => prev.push("    "@ + field_line_text(sym.name@, sig) + ";"@),
                    _ => prev,
                }
            },
            None => prev,
        }
    }
}

/// The field lines of the bus whose body is scope `scope`.
pub open spec fn bus_lines(table: SymbolTable, scope: ScopeId) -> Seq<Seq<char>> {
    if scope.0 < table.scope_seq().len() {
        let entries = table.scope_seq()[scope.0 as int].entries();
        field_lines(table, scope.0 as int, entries.map_values(|e: (Seq<char>, Seq<SymbolId>)| e.0))
    } else {
        Seq::empty()
    }
}

/// Build a short `signal kind name[dims]` line for a bus field or signal.
fn signal_field_line(name: &str, sig: &SignalSymbol) -> (r: String)
    ensures
        r@ == field_line_text(name@, *sig),
{
    let direction = match sig.kind {
        SignalKind::Input => "input ",
        SignalKind::Output => "output ",
        SignalKind::Intermediate => "",
    };
    proof {
        reveal_strlit("");
    }
    let mut out = String::from_str("signal ");
    out.append(direction);
    out.append(name);
    match &sig.bus_type {
        Some(b) => {
            out.append(" ");
            out.append(b.as_str());
        },
        None => {},
    }
    let dims = repeat_str("[]", sig.dimensions);
    out.append(dims.as_str());
    if sig.tags.len() > 0 {
        out.append(" {");
        let tags = join_strings(&sig.tags, ", ");
        out.append(tags.as_str());
        out.append("}");
    }
    out
}

/// Collect the bus's field lines (signals and nested bus fields) for the
/// hover output. A body scope that the table does not hold has none.
fn bus_field_lines(table: &SymbolTable, body_scope: ScopeId) -> (lines: Vec<String>)
    requires
        table.wf(),
    ensures
        views(lines@) == bus_lines(*table, body_scope),
{
    let mut lines: Vec<String> = Vec::new();
    if body_scope.0 as usize >= table.scope_tree().len() {
        return lines;
    }
    let tree = table.scope_tree();
    proof {
        tree.lemma_wf();
    }
    let scope = tree.get(body_scope);
    let names = scope.symbol_names();
    let ghost all_names = scope.entries().map_values(|e: (Seq<char>, Seq<SymbolId>)| e.0);
    assert(views(names@) == all_names);
    let mut i: usize = 0;
    while i < names.len()
        invariant
            table.wf(),
            body_scope.0 < table.scope_seq().len(),
            *scope == table.scope_seq()[body_scope.0 as int],
            scope.wf(),
            i <= names@.len(),
            views(names@) == all_names,
            views(lines@) == field_lines(*table, body_scope.0 as int, all_names.take(i as int)),
        decreases names@.len() - i,
    {
        proof {
            assert(all_names.take(i + 1).drop_last() == all_names.take(i as int));
            assert(all_names.take(i + 1).last() == names@[i as int]@);
            table.lemma_ids_valid(body_scope.0 as int, names@[i as int]@);
        }
        match scope.lookup_local(names[i].as_str()) {
            Some(ids) => {
                let sym = table.get_symbol(ids[0]);
                match &sym.kind {
                    SymbolKind::Signal(sig) => {
                        let field = signal_field_line(sym.name.as_str(), sig);
                        let mut line = String::from_str("    ");
                        line.append(field.as_str());
                        line.append(";");
                        let ghost before = lines@;
                        lines.push(line);
                        assert(views(lines@) == views(before).push(line@));
                    },
                    _ => {},
                }
            },
            None => {},
        }
        i += 1;
    }
    assert(all_names.take(i as int) == all_names);
    lines
}

/// The hover text of a template: its signature, its `parallel` and
/// `custom` marks, and the circomlib documentation of a template of the
/// same name, joined by blank lines.
pub open spec fn template_md(name: Seq<char>, t: TemplateSymbol) -> Seq<char> {
    let head = seq!["```circom\ntemplate "@ + name + "("@ + join_seqs(views(t.params@), ", "@) + ")\n```"@];
    let par = if t.is_parallel {
        seq!["**parallel**"@]
    } else {
        Seq::empty()
    };
    let cus = if t.is_custom {
        seq!["**custom**"@]
    } else {
        Seq::empty()
    };
    let doc = match doc_markdown(name) {
        Some(md) => seq!["---"@, md],
        None => Seq::empty(),
    };
    join_seqs(head + par + cus + doc, "\n\n"@)
}

fn template_hover_markdown(name: &str, t: &TemplateSymbol) -> (r: String)
    ensures
        r@ == template_md(name@, *t),
{
    let params = join_strings(&t.params, ", ");
    let mut head = String::from_str("```circom\ntemplate ");
    head.append(name);
    head.append("(");
    head.append(params.as_str());
    head.append(")\n```");
    let mut lines: Vec<String> = Vec::new();
    lines.push(head);
    if t.is_parallel {
        lines.push(String::from_str("**parallel**"));
    }
    if t.is_custom {
        lines.push(String::from_str("**custom**"));
    }
    // A user-defined template that shares its name with a documented
    // circomlib template gets the curated docs appended.
    match lookup(name) {
        Some(entry) => {
            lines.push(String::from_str("---"));
            lines.push(String::from_str(entry.markdown));
        },
        None => {},
    }
    let ghost parts = {
        let h = seq!["```circom\ntemplate "@ + name@ + "("@ + join_seqs(views(t.params@), ", "@) + ")\n```"@];
        let p = if t.is_parallel {
            seq!["**parallel**"@]
        } else {
            Seq::empty()
        };
        let c = if t.is_custom {
            seq!["**custom**"@]
        } else {
            Seq::empty()
        };
        let d = match doc_markdown(name@) {
            Some(md) => seq!["---"@, md],
            None => Seq::empty(),
        };
        h + p + c + d
    };
    assert(views(lines@) =~= parts);
    join_strings(&lines, "\n\n")
}

/// The head of a signal's hover text.
pub open spec fn signal_head(name: Seq<char>, sig: SignalSymbol) -> Seq<char> {
    let bus = match sig.bus_type {
        Some(b) => " bus "@ + b@,
        None => Seq::empty(),
    };
    "```circom\nsignal "@ + direction_text(sig.kind) + name + repeat_seq("[]"@, sig.dimensions as nat) + bus
        + tags_text(sig.tags@) + "\n```"@
}

/// The block that shows a bus's fields.
pub open spec fn bus_block(name: Seq<char>, params: Seq<String>, lines: Seq<Seq<char>>) -> Seq<char> {
    "```circom\nbus "@ + name + "("@ + join_seqs(views(params), ", "@) + ") {\n"@ + join_seqs(lines, "\n"@)
        + "\n}\n```"@
}

/// The hover text of a bus.
pub open spec fn bus_md(table: SymbolTable, name: Seq<char>, b: BusSymbol) -> Seq<char> {
    let lines = bus_lines(table, b.body_scope);
    if lines.len() == 0 {
        "```circom\nbus "@ + name + "("@ + join_seqs(views(b.params@), ", "@) + ")\n```"@
    } else {
        bus_block(name, b.params@, lines)
    }
}

/// The hover text of a signal whose bus type resolved to the bus `b`
/// named `bus_name`.
pub open spec fn signal_with_bus(
    table: SymbolTable,
    name: Seq<char>,
    sig: SignalSymbol,
    bus_name: Seq<char>,
    b: BusSymbol,
) -> Seq<char> {
    let lines = bus_lines(table, b.body_scope);
    if lines.len() == 0 {
        signal_head(name, sig)
    } else {
        signal_head(name, sig) + "\n\n"@ + bus_block(bus_name, b.params@, lines)
    }
}

/// The hover text of a signal, where the scope chain of `scope`
/// decides what its bus type names.
pub open spec fn signal_md_local(table: SymbolTable, scope: ScopeId, name: Seq<char>, sig: SignalSymbol) -> Option<
    Seq<char>,
> {
    match sig.bus_type {
        None => Some(signal_head(name, sig)),
        Some(bn) => match chain_lookup(table.scope_seq(), scope.0 as int, bn@) {
            Some((sid, ids)) => match table.symbols()[ids[0].0 as int].kind {
                SymbolKind::Bus(b) => Some(signal_with_bus(table, name, sig, bn@, b)),
                _ => Some(signal_head(name, sig)),
            },
            None => None,
        },
    }
}

fn signal_head_text(name: &str, sig: &SignalSymbol) -> (r: String)
    ensures
        r@ == signal_head(name@, *sig),
{
    let direction = match sig.kind {
        SignalKind::Input => "input ",
        SignalKind::Output => "output ",
        SignalKind::Intermediate => "",
    };
    proof {
        reveal_strlit("");
    }
    let mut head = String::from_str("```circom\nsignal ");
    head.append(direction);
    head.append(name);
    let dims = repeat_str("[]", sig.dimensions);
    head.append(dims.as_str());
    match &sig.bus_type {
        Some(b) => {
            head.append(" bus ");
            head.append(b.as_str());
        },
        None => {},
    }
    if sig.tags.len() > 0 {
        head.append(" {");
        let tags = join_strings(&sig.tags, ", ");
        head.append(tags.as_str());
        head.append("}");
    }
    head.append("\n```");
    head
}

fn bus_block_text(name: &str, params: &Vec<String>, lines: &Vec<String>) -> (r: String)
    ensures
        r@ == bus_block(name@, params@, views(lines@)),
{
    let ps = join_strings(params, ", ");
    let body = join_strings(lines, "\n");
    let mut out = String::from_str("```circom\nbus ");
    out.append(name);
    out.append("(");
    out.append(ps.as_str());
    out.append(") {\n");
    out.append(body.as_str());
    out.append("\n}\n```");
    out
}

fn signal_hover_markdown(table: &SymbolTable, scope: ScopeId, file_path: &str, name: &str, sig: &SignalSymbol) -> (r:
    String)
    requires
        table.wf(),
    ensures
        signal_md_local(*table, scope, name@, *sig) matches Some(m) ==> r@ == m,
        r@ == signal_head(name@, *sig) || exists|bn: String, b: BusSymbol|
            sig.bus_type == Some(bn) && r@ == signal_with_bus(*table, name@, *sig, bn@, b),
{
    let head = signal_head_text(name, sig);
    // A bus-typed signal shows the bus's fields too.
    match &sig.bus_type {
        Some(bus_name) => {
            match table.lookup_with_includes(scope, bus_name.as_str(), file_path) {
                Some(bus_sym) => {
                    match &bus_sym.kind {
                        SymbolKind::Bus(b) => {
                            let lines = bus_field_lines(table, b.body_scope);
                            if lines.len() > 0 {
                                let block = bus_block_text(bus_name.as_str(), &b.params, &lines);
                                let mut out = head;
                                out.append("\n\n");
                                out.append(block.as_str());
                                assert(out@ == signal_with_bus(*table, name@, *sig, bus_name@, *b));
                                return out;
                            }
                        },
                        _ => {},
                    }
                },
                None => {},
            }
        },
        None => {},
    }
    head
}

fn bus_hover_markdown(table: &SymbolTable, name: &str, b: &BusSymbol) -> (r: String)
    requires
        table.wf(),
    ensures
        r@ == bus_md(*table, name@, *b),
{
    let lines = bus_field_lines(table, b.body_scope);
    if lines.len() == 0 {
        let params = join_strings(&b.params, ", ");
        let mut out = String::from_str("```circom\nbus ");
        out.append(name);
        out.append("(");
        out.append(params.as_str());
        out.append(")\n```");
        out
    } else {
        bus_block_text(name, &b.params, &lines)
    }
}

/// The hover text of a symbol that is not a signal.
pub open spec fn plain_md(table: SymbolTable, sym: Symbol) -> Option<Seq<char>> {
    let name = sym.name@;
    match sym.kind {
        SymbolKind::Template(t) => Some(template_md(name, t)),
        SymbolKind::Function(f) => Some(
            "```circom\nfunction "@ + name + "("@ + join_seqs(views(f.params@), ", "@) + ")\n```"@,
        ),
        SymbolKind::Bus(b) => Some(bus_md(table, name, b)),
        SymbolKind::Variable => Some("```circom\nvar "@ + name + "\n```"@),
        SymbolKind::Component(c) => Some(
            "```circom\ncomponent "@ + name + match c.template_name {
                Some(t) => ": "@ + t@,
                None => Seq::empty(),
            } + "\n```"@,
        ),
        SymbolKind::Parameter => Some("```circom\nparameter "@ + name + "\n```"@),
        SymbolKind::Signal(_) => None,
    }
}

/// The hover text of a symbol, where the scope chain of `scope` decides
/// what a signal's bus type names.
pub open spec fn symbol_md_local(table: SymbolTable, scope: ScopeId, sym: Symbol) -> Option<Seq<char>> {
    match sym.kind {
        SymbolKind::Signal(sig) => signal_md_local(table, scope, sym.name@, sig),
        _ => plain_md(table, sym),
    }
}

fn symbol_hover_markdown(table: &SymbolTable, scope: ScopeId, file_path: &str, symbol: &Symbol) -> (r: String)
    requires
        table.wf(),
    ensures
        symbol_md_local(*table, scope, *symbol) matches Some(m) ==> r@ == m,
{
    match &symbol.kind {
        SymbolKind::Template(t) => template_hover_markdown(symbol.name.as_str(), t),
        SymbolKind::Function(f) => {
            let params = join_strings(&f.params, ", ");
            let mut out = String::from_str("```circom\nfunction ");
            out.append(symbol.name.as_str());
            out.append("(");
            out.append(params.as_str());
            out.append(")\n```");
            out
        },
        SymbolKind::Bus(b) => bus_hover_markdown(table, symbol.name.as_str(), b),
        SymbolKind::Signal(sig) => signal_hover_markdown(table, scope, file_path, symbol.name.as_str(), sig),
        SymbolKind::Variable => {
            let mut out = String::from_str("```circom\nvar ");
            out.append(symbol.name.as_str());
            out.append("\n```");
            out
        },
        SymbolKind::Component(comp) => {
            let mut out = String::from_str("```circom\ncomponent ");
            out.append(symbol.name.as_str());
            match &comp.template_name {
                Some(t) => {
                    out.append(": ");
                    out.append(t.as_str());
                },
                None => {},
            }
            out.append("\n```");
            proof {
                reveal_strlit("");
            }
            out
        },
        SymbolKind::Parameter => {
            let mut out = String::from_str("```circom\nparameter ");
            out.append(symbol.name.as_str());
            out.append("\n```");
            out
        },
    }
}

/// Build the hover markdown for the symbol named `name` seen from
/// `scope`: the circomlib documentation of a well-known template name
/// that no user template shadows, else the text of the symbol that the
/// lookup finds; `None` when neither exists.
pub fn hover_info(table: &SymbolTable, scope: ScopeId, name: &str, file_path: &str) -> (r: Option<String>)
    requires
        table.wf(),
    ensures
        doc_markdown(name@) is Some ==> r is Some,
        chain_lookup(table.scope_seq(), scope.0 as int, name@) matches Some((sid, ids)) ==> ({
            let sym = table.symbols()[ids[0].0 as int];
            match doc_markdown(name@) {
                Some(md) => if sym.kind is Template {
                    r matches Some(h) && h@ == template_md(sym.name@, sym.kind->Template_0)
                } else {
                    r matches Some(h) && h@ == md
                },
                None => r is Some && (symbol_md_local(*table, scope, sym) matches Some(m) ==> r matches Some(h)
                    && h@ == m),
            }
        }),
{
    // A well-known circomlib template name that no local template
    // shadows shows the curated documentation; otherwise the hover
    // comes from the definition.
    let local = table.lookup_with_includes(scope, name, file_path);
    match lookup(name) {
        Some(entry) => {
            let is_shadowing_template = match local {
                Some(s) => match &s.kind {
                    SymbolKind::Template(_) => true,
                    _ => false,
                },
                None => false,
            };
            if !is_shadowing_template {
                return Some(String::from_str(entry.markdown));
            }
        },
        None => {},
    }
    match local {
        Some(symbol) => Some(symbol_hover_markdown(table, scope, file_path, symbol)),
        None => None,
    }
}

} // verus!
