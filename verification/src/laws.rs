//! Properties that relate several operations of the library, stated
//! over the specifications that the operations' contracts use.

use vstd::prelude::*;

use crate::ast::{BinaryOp, Block, Expression, ExpressionKind, IfElse, Item, SignalKind, Statement, StatementKind};
use crate::server::call_hierarchy::{
    add_all, block_sites, caller_body, covered, expr_sites, lemma_add_all_covers, stmt_sites, stmts_sites, CallerKind, Site,
};
use crate::server::hover::{signal_head, symbol_md_local};
use crate::server::signature_help::{call_site_spec, call_scan, callee_range, lemma_call_scan, outer_commas, parens_balance};
use crate::constraint_checker::{degree_of, quad_marks};
use crate::symbol::{DiagnosticKind, ScopeId, SignalSymbol, Symbol, SymbolKind};
use crate::incremental::{
    error_views, file_errors, flat_errors, item_ranges, lemma_filed_errors, lemma_flat_no_errors, no_errors,
};
use crate::parser::ParseError;
use crate::constraint_checker::{degree_num, degree_of_num, Degree};
use crate::scope::chain_lookup;
use crate::server::code_action::unsafe_arrow;
use crate::server::document::{apply_change, ContentChange, DocPosition, position_char};
use crate::server::rename::{
    accepted_match, accepted_matches, closes_comment, in_ranges, lemma_block_comment_end, lemma_block_ranges,
    lemma_line_comment_end,
    lemma_next_occurrence, next_occurrence, skip_ranges,
};
use crate::span::{line_starts_of, locates, spec_max, spec_min, LineCol, Span};
use crate::scope::Scope;
use crate::symbol_table::{comes_before, key_index, lemma_key_index, list_has, no_dup_views, SymbolTable};

verus! {

/// A merged span covers both spans, and merging is commutative,
/// associative and idempotent.
pub proof fn law_merge_covers(a: Span, b: Span, c: Span)
    ensures
        spec_min(a.start, b.start) <= a.start && spec_min(a.start, b.start) <= b.start,
        spec_max(a.end, b.end) >= a.end && spec_max(a.end, b.end) >= b.end,
        spec_min(a.start, b.start) == spec_min(b.start, a.start),
        spec_max(a.end, b.end) == spec_max(b.end, a.end),
        spec_min(spec_min(a.start, b.start), c.start) == spec_min(a.start, spec_min(b.start, c.start)),
        spec_max(spec_max(a.end, b.end), c.end) == spec_max(a.end, spec_max(b.end, c.end)),
        spec_min(a.start, a.start) == a.start && spec_max(a.end, a.end) == a.end,
{
}

/// The line starts of a text begin at 0 and rise strictly.
pub proof fn law_line_starts_rise(b: Seq<u8>)
    requires
        b.len() <= usize::MAX,
    ensures
        line_starts_of(b).len() > 0,
        line_starts_of(b)[0] == 0,
        forall|i: int, j: int| 0 <= i < j < line_starts_of(b).len() ==> line_starts_of(b)[i] < line_starts_of(b)[j],
        forall|i: int| 0 <= i < line_starts_of(b).len() ==> line_starts_of(b)[i] <= b.len(),
    decreases b.len(),
{
    if b.len() > 0 {
        law_line_starts_rise(b.drop_last());
        let prev = line_starts_of(b.drop_last());
        if b.last() == 10 {
            let s = prev.push(b.len() as usize);
            assert(line_starts_of(b) == s);
            assert forall|i: int, j: int| 0 <= i < j < s.len() implies s[i] < s[j] by {
                if j == s.len() - 1 {
                    assert(s[i] == prev[i]);
                    assert(prev[i] <= b.len() - 1);
                } else {
                    assert(s[i] == prev[i] && s[j] == prev[j]);
                }
            }
        } else {
            assert(line_starts_of(b) == prev);
        }
    }
}

/// Going from a byte offset to its line and column and back gives the
/// offset again: the start of the line found plus the column is the
/// offset, where the column fits in `u32`.
pub proof fn law_line_col_round_trip(b: Seq<u8>, offset: int, lc: LineCol)
    requires
        b.len() <= usize::MAX,
        0 <= offset,
        locates(line_starts_of(b), offset, lc),
        offset < u32::MAX,
    ensures
        0 <= lc.line < line_starts_of(b).len(),
        line_starts_of(b)[lc.line as int] + lc.col == offset,
{
    law_line_starts_rise(b);
    let starts = line_starts_of(b);
    let l = choose|l: int|
        {
            &&& 0 <= l < starts.len()
            &&& #[trigger] starts[l] <= offset
            &&& (l + 1 == starts.len() || offset < starts[l + 1])
            &&& lc.line == l as u32
            &&& lc.col == (offset - starts[l]) as u32
        };
    // A line index is below the number of starts, each below the offset.
    assert(starts[l] <= offset);
    assert(l <= starts[l]) by {
        law_starts_index(starts, l);
    }
    assert(lc.line == l);
    assert(lc.col == offset - starts[l]);
}

/// Strictly rising naturals from 0 are at least their index.
proof fn law_starts_index(starts: Seq<usize>, l: int)
    requires
        0 <= l < starts.len(),
        starts[0] == 0,
        forall|i: int, j: int| 0 <= i < j < starts.len() ==> starts[i] < starts[j],
    ensures
        l <= starts[l],
    decreases l,
{
    if l > 0 {
        law_starts_index(starts, l - 1);
    }
}

/// Later offsets are not on earlier lines: the line of an offset does
/// not fall as the offset grows.
pub proof fn law_line_col_monotone(b: Seq<u8>, o1: int, o2: int, lc1: LineCol, lc2: LineCol)
    requires
        b.len() <= usize::MAX,
        0 <= o1 <= o2 < u32::MAX,
        locates(line_starts_of(b), o1, lc1),
        locates(line_starts_of(b), o2, lc2),
    ensures
        lc1.line <= lc2.line,
        lc1.line == lc2.line ==> lc1.col <= lc2.col,
{
    law_line_col_round_trip(b, o1, lc1);
    law_line_col_round_trip(b, o2, lc2);
    law_line_starts_rise(b);
    let starts = line_starts_of(b);
    if lc1.line > lc2.line {
        // o2 lies before the start of the line after lc2's, which is at
        // most the start of lc1's line, at most o1.
        let l2 = lc2.line as int;
        assert(l2 + 1 < starts.len());
        assert(o2 < starts[l2 + 1]) by {
            let l = choose|l: int|
                {
                    &&& 0 <= l < starts.len()
                    &&& #[trigger] starts[l] <= o2
                    &&& (l + 1 == starts.len() || o2 < starts[l + 1])
                    &&& lc2.line == l as u32
                    &&& lc2.col == (o2 - starts[l]) as u32
                };
            assert(l == l2);
        }
        assert(starts[l2 + 1] <= starts[lc1.line as int]);
    }
}

/// Every rename edit lands on a whole-word occurrence of the name
/// outside string literals and comments: the bytes there are the name,
/// no identifier byte touches it, and it lies in no skipped range.
pub proof fn law_rename_edits_are_words(b: Seq<u8>, n: Seq<u8>, pos: int, k: int)
    requires
        0 <= pos,
        n.len() > 0,
        0 <= k < accepted_matches(b, n, pos, skip_ranges(b)).len(),
    ensures
        ({
            let a = accepted_matches(b, n, pos, skip_ranges(b))[k];
            &&& pos <= a
            &&& a + n.len() <= b.len()
            &&& b.subrange(a, a + n.len()) == n
            &&& accepted_match(b, n, a, skip_ranges(b))
            &&& !in_ranges(skip_ranges(b), a)
        }),
    decreases b.len() + 1 - pos,
{
    lemma_next_occurrence(b, n, pos);
    let ranges = skip_ranges(b);
    match next_occurrence(b, n, pos) {
        None => {},
        Some(a) => {
            let rest = accepted_matches(b, n, a + n.len(), ranges);
            if accepted_match(b, n, a, ranges) && k == 0 {
            } else {
                let k2 = if accepted_match(b, n, a, ranges) {
                    k - 1
                } else {
                    k
                };
                assert(accepted_matches(b, n, pos, ranges)[k] == rest[k2]);
                law_rename_edits_are_words(b, n, a + n.len(), k2);
            }
        },
    }
}

/// The unsafe-assignment fix replaces exactly the three bytes of a
/// `<--`.
pub proof fn law_arrow_fix_replaces_arrow(b: Seq<u8>, start: int)
    requires
        0 <= start,
        next_occurrence(b, unsafe_arrow(), start) is Some,
    ensures
        ({
            let a = next_occurrence(b, unsafe_arrow(), start)->0;
            b.subrange(a, a + 3) == unsafe_arrow() && start <= a
        }),
{
    lemma_next_occurrence(b, unsafe_arrow(), start);
}

/// A change without a range replaces the whole text; a change whose
/// range is empty and whose text is empty leaves the text as it was.
pub proof fn law_change_replaces(t: Seq<char>, c: ContentChange, p: DocPosition)
    ensures
        c.range is None ==> apply_change(t, c) == c.text@,
        c.range == Some((p, p)) && c.text@.len() == 0 ==> apply_change(t, c) == t,
{
    if c.range == Some((p, p)) && c.text@.len() == 0 {
        let a = position_char(t, p);
        crate::server::document::lemma_position_fits(t, p);
        assert(t.take(a) + c.text@ + t.skip(a) =~= t);
    }
}

/// The include closure is closed: a file included by a file reached
/// from `from` is reached from `from` too.
pub proof fn law_reach_closed(table: SymbolTable, from: Seq<char>, x: Seq<char>, y: Seq<char>)
    requires
        table.reaches(from, x),
        list_has(table.direct_includes(x), y),
    ensures
        table.reaches(from, y),
{
    let p = choose|p: Seq<Seq<char>>| #![trigger table.is_include_path(p)]
        p.len() > 0 && p[0] == from && p.last() == x && table.is_include_path(p);
    let p2 = p.push(y);
    assert forall|i: int| 0 <= i < p2.len() - 1 implies list_has(table.direct_includes(#[trigger] p2[i]), p2[i + 1]) by {
        if i < p.len() - 1 {
            assert(p2[i] == p[i] && p2[i + 1] == p[i + 1]);
        }
    }
    assert(table.is_include_path(p2));
}

/// Every file reaches itself, and reaching is transitive.
pub proof fn law_reach_trans(table: SymbolTable, a: Seq<char>, b: Seq<char>, c: Seq<char>)
    ensures
        table.reaches(a, a),
        table.reaches(a, b) && table.reaches(b, c) ==> table.reaches(a, c),
{
    let p0 = seq![a];
    assert(table.is_include_path(p0));
    if table.reaches(a, b) && table.reaches(b, c) {
        let p = choose|p: Seq<Seq<char>>| #![trigger table.is_include_path(p)]
            p.len() > 0 && p[0] == a && p.last() == b && table.is_include_path(p);
        let q = choose|q: Seq<Seq<char>>| #![trigger table.is_include_path(q)]
            q.len() > 0 && q[0] == b && q.last() == c && table.is_include_path(q);
        let r = p + q.drop_first();
        assert forall|i: int| 0 <= i < r.len() - 1 implies list_has(table.direct_includes(#[trigger] r[i]), r[i + 1]) by {
            if i < p.len() - 1 {
                assert(r[i] == p[i] && r[i + 1] == p[i + 1]);
            } else if i == p.len() - 1 {
                assert(r[i] == b && r[i + 1] == q[1]);
                assert(q[0] == b);
            } else {
                let j = i - p.len() + 1;
                assert(r[i] == q[j] && r[i + 1] == q[j + 1]);
            }
        }
        assert(table.is_include_path(r));
        if q.len() == 1 {
            assert(r.last() == p.last());
        } else {
            assert(r.last() == q.last());
        }
    }
}

/// The degree of a product adds the degrees (capped above quadratic)
/// and does not depend on the order of the factors; combining takes the
/// larger degree, in either order.
pub proof fn law_degree_algebra(a: Degree, b: Degree)
    ensures
        degree_of_num((degree_num(a) + degree_num(b)) as int) == degree_of_num((degree_num(b) + degree_num(a)) as int),
        degree_num(a) == 0 ==> degree_of_num((degree_num(a) + degree_num(b)) as int) == b,
        degree_num(a) + degree_num(b) > 2 ==> degree_of_num((degree_num(a) + degree_num(b)) as int)
            == Degree::NonQuadratic,
{
}

/// Shadowing: a name bound in a scope is found there before any outer
/// scope is searched.
pub proof fn law_inner_binding_wins(scopes: Seq<Scope>, sid: int, name: Seq<char>)
    requires
        0 <= sid < scopes.len(),
        scopes[sid].bound(name) is Some,
    ensures
        chain_lookup(scopes, sid, name) == Some((crate::symbol::ScopeId(sid as u32), scopes[sid].bound(name)->0)),
{
}

/// The position of the file `x` in `order`.
spec fn position_in(order: Seq<String>, x: Seq<char>) -> int {
    choose|t: int| 0 <= t < order.len() && (#[trigger] order[t])@ == x
}

/// In an include order, a file that another includes stands before it.
proof fn lemma_included_comes_first(table: SymbolTable, order: Seq<String>, a: Seq<char>, b: Seq<char>)
    requires
        table.is_include_order(order),
        list_has(table.direct_includes(a), b),
    ensures
        list_has(order, a),
        list_has(order, b),
        position_in(order, b) < position_in(order, a),
        0 <= position_in(order, b),
        position_in(order, a) < order.len(),
        order[position_in(order, a)]@ == a,
        order[position_in(order, b)]@ == b,
{
    let k = choose|k: int| 0 <= k < table.direct_includes(a).len() && (#[trigger] table.direct_includes(a)[k])@ == b;
    lemma_key_index(table.include_list(), a);
    let j = key_index(table.include_list(), a)->0;
    assert(table.include_list()[j].0@ == a);
    assert(table.known_file(a));
    assert(table.known_file(b)) by {
        assert(list_has(table.include_list()[j].1@, b));
    }
    let t = position_in(order, a);
    let u = position_in(order, b);
    assert(order[t]@ == a);
    assert(comes_before(order, t, table.direct_includes(order[t]@)[k]@));
    let s = choose|s: int| 0 <= s < t && s < order.len() && (#[trigger] order[s])@ == b;
    if s != u {
        if s < u {
            assert(order[s]@ != order[u]@);
        } else {
            assert(order[u]@ != order[s]@);
        }
    }
}

/// Along a walk of the include graph, positions in an include order fall.
proof fn lemma_walk_falls(table: SymbolTable, order: Seq<String>, p: Seq<Seq<char>>, j: int)
    requires
        table.is_include_order(order),
        table.is_include_path(p),
        1 <= j < p.len(),
    ensures
        position_in(order, p[j]) < position_in(order, p[0]),
    decreases j,
{
    assert(list_has(table.direct_includes(p[j - 1]), p[j]));
    lemma_included_comes_first(table, order, p[j - 1], p[j]);
    if j > 1 {
        lemma_walk_falls(table, order, p, j - 1);
    }
}

/// A table that has an include order has no include cycle: no file
/// reaches itself through one include or more. So `topological_order`
/// answers only where `detect_circular_includes` finds no cycle.
pub proof fn law_order_excludes_cycles(table: SymbolTable, order: Seq<String>, p: Seq<Seq<char>>)
    requires
        table.is_include_order(order),
        table.is_include_path(p),
    ensures
        p.len() >= 2 ==> p[0] != p.last(),
{
    if p.len() >= 2 {
        lemma_walk_falls(table, order, p, p.len() - 1);
    }
}

/// A table that has an include order has no include cycle at all, so
/// where `topological_order` gives an order, `detect_circular_includes`
/// gives `None`, and where the latter finds a cycle the former gives none.
pub proof fn law_order_means_acyclic(table: SymbolTable, order: Seq<String>)
    requires
        table.is_include_order(order),
    ensures
        table.include_acyclic(),
{
    assert forall|p: Seq<Seq<char>>|
        #![trigger table.is_include_path(p)]
        p.len() >= 2 && p[0] == p.last() implies !table.is_include_path(p) by {
        if table.is_include_path(p) {
            law_order_excludes_cycles(table, order, p);
        }
    }
}

/// Caching a full parse loses no error and adds none: taken item by item,
/// the errors filed under the cached items are those of the parse, each
/// as often as the parse gave it.
pub proof fn law_cached_errors_kept(items: Seq<Item>, errs: Seq<ParseError>)
    requires
        items.len() > 0,
    ensures
        flat_errors(file_errors(no_errors(items.len()), item_ranges(items), errs, 0)).to_multiset()
            == error_views(errs).to_multiset(),
{
    broadcast use vstd::multiset::group_multiset_axioms, vstd::seq_lib::group_to_multiset_ensures;
    lemma_filed_errors(no_errors(items.len()), item_ranges(items), errs, 0);
    lemma_flat_no_errors(items.len());
    assert(flat_errors(no_errors(items.len())).to_multiset() =~= vstd::multiset::Multiset::empty());
    assert(flat_errors(file_errors(no_errors(items.len()), item_ranges(items), errs, 0)).to_multiset()
        =~= error_views(errs).to_multiset());
}

/// A sum or a difference is of the degree of the higher of its two
/// operands: never lower than either, and equal to one of them. So a
/// cubic term makes the whole sum or difference cubic, whichever side
/// it stands on.
pub proof fn law_sum_difference_degree(
    table: SymbolTable,
    scope: ScopeId,
    e: Expression,
    l: Expression,
    op: BinaryOp,
    r: Expression,
)
    requires
        *e.kind == ExpressionKind::Binary(l, op, r),
        op == BinaryOp::Add || op == BinaryOp::Sub,
    ensures
        degree_num(degree_of(table, scope, e)) >= degree_num(degree_of(table, scope, l)),
        degree_num(degree_of(table, scope, e)) >= degree_num(degree_of(table, scope, r)),
        degree_of(table, scope, e) == degree_of(table, scope, l) || degree_of(table, scope, e) == degree_of(
            table,
            scope,
            r,
        ),
{
}

/// A product adds the degrees of its operands, every degree above 2
/// counting as 3: a signal times a signal is quadratic, and one more
/// signal factor makes it non-quadratic.
pub proof fn law_product_degree(table: SymbolTable, scope: ScopeId, e: Expression, l: Expression, r: Expression)
    requires
        *e.kind == ExpressionKind::Binary(l, BinaryOp::Mul, r),
    ensures
        degree_num(degree_of(table, scope, e)) == if degree_num(degree_of(table, scope, l)) + degree_num(
            degree_of(table, scope, r),
        ) >= 3 {
            3
        } else {
            degree_num(degree_of(table, scope, l)) + degree_num(degree_of(table, scope, r))
        },
{
}

/// A constraint is reported as non-quadratic exactly when one of its two
/// sides is of a degree above 2, and then once, at the constraint.
pub proof fn law_non_quadratic_reported(
    table: SymbolTable,
    scope: ScopeId,
    lhs: Expression,
    rhs: Expression,
    span: Span,
)
    ensures
        (quad_marks(table, scope, lhs, rhs, span).len() > 0) <==> (degree_num(degree_of(table, scope, lhs)) == 3
            || degree_num(degree_of(table, scope, rhs)) == 3),
        quad_marks(table, scope, lhs, rhs, span).len() > 0 ==> quad_marks(table, scope, lhs, rhs, span) == seq![
            (span, DiagnosticKind::NonQuadraticConstraint),
        ],
{
}

/// A block comment is skipped whole, newlines included: a skipped range
/// that opens with `/*` runs just past the first `*/` after the opening
/// (with none, to where fewer than two bytes are left), and no rename
/// match starts inside it.
pub proof fn law_block_comment_skipped(b: Seq<u8>, n: Seq<u8>, k: int, p: int)
    requires
        0 <= k < skip_ranges(b).len(),
        0 <= skip_ranges(b)[k].0,
        skip_ranges(b)[k].0 + 1 < b.len(),
        b[skip_ranges(b)[k].0] == 47,
        b[skip_ranges(b)[k].0 + 1] == 42,
    ensures
        ({
            let (s, e) = skip_ranges(b)[k];
            &&& s + 2 <= e <= b.len()
            &&& forall|t: int| s + 2 <= t < e - 2 ==> !#[trigger] closes_comment(b, t)
            &&& (e >= s + 4 && closes_comment(b, e - 2)) || (e + 1 >= b.len() && forall|t: int|
                s + 2 <= t ==> !#[trigger] closes_comment(b, t))
            &&& (s <= p < e ==> !accepted_match(b, n, p, skip_ranges(b)))
        }),
{
    lemma_block_ranges(b, 0);
    let (s, e) = skip_ranges(b)[k];
    assert(e == crate::server::rename::block_comment_end(b, s + 2));
    lemma_block_comment_end(b, s + 2);
    if s <= p < e {
        assert(in_ranges(skip_ranges(b), p));
    }
}

/// The words a signal's hover text opens with: the code fence, `signal`
/// and the direction it was declared with.
pub open spec fn signal_opening(k: SignalKind) -> Seq<char> {
    match k {
        SignalKind::Input => "```circom\nsignal input "@,
        SignalKind::Output => "```circom\nsignal output "@,
        SignalKind::Intermediate => "```circom\nsignal "@,
    }
}

/// The hover text of a signal names the direction it was declared with,
/// then its name: an output signal reads `signal output` and its name,
/// an input `signal input`, an intermediate one `signal` alone.
pub proof fn law_signal_hover_direction(table: SymbolTable, scope: ScopeId, sym: Symbol, sig: SignalSymbol)
    requires
        sym.kind == SymbolKind::Signal(sig),
        symbol_md_local(table, scope, sym) is Some,
    ensures
        ({
            let m = symbol_md_local(table, scope, sym)->0;
            let o = signal_opening(sig.kind);
            &&& o.len() + sym.name@.len() <= m.len()
            &&& m.subrange(0, o.len() as int) == o
            &&& m.subrange(o.len() as int, (o.len() + sym.name@.len()) as int) == sym.name@
        }),
{
    reveal_strlit("```circom\nsignal ");
    reveal_strlit("input ");
    reveal_strlit("output ");
    reveal_strlit("```circom\nsignal input ");
    reveal_strlit("```circom\nsignal output ");
    let m = symbol_md_local(table, scope, sym)->0;
    let h = signal_head(sym.name@, sig);
    let o = signal_opening(sig.kind);
    assert(o =~= "```circom\nsignal "@ + crate::server::hover::direction_text(sig.kind));
    assert(m.subrange(0, h.len() as int) == h);
    assert(h.subrange(0, o.len() as int) =~= o);
    assert(h.subrange(o.len() as int, (o.len() + sym.name@.len()) as int) =~= sym.name@);
}

/// The active parameter of a call site counts only the commas that stand
/// at the call's own level: between the call's `(` and the cursor, the
/// commas after which every parenthesis up to the cursor is closed again.
/// Commas inside a nested call do not count.
pub proof fn law_active_parameter(b: Seq<u8>, offset: int)
    requires
        0 <= offset,
        call_site_spec(b, offset) is Some,
    ensures
        ({
            let off = if offset <= b.len() { offset } else { b.len() as int };
            exists|p: int|
                #![trigger b[p]]
                0 <= p < off && b[p] == 40 && parens_balance(b, p + 1, off) && callee_range(b, p) is Some
                    && call_site_spec(b, offset) == Some(
                    ((callee_range(b, p)->0).0, (callee_range(b, p)->0).1, outer_commas(b, p + 1, off) as int),
                )
        }),
{
    let off = if offset <= b.len() { offset } else { b.len() as int };
    lemma_call_scan(b, off, 0, 0, off);
    let (p, c) = call_scan(b, off, 0, 0)->0;
    assert(b[p] == 40);
}

/// The call sites of an if/else are exactly those of its condition, its
/// then block and its else block: a call in the else branch is a call of
/// the statement as much as one in the then branch.
pub proof fn law_if_else_sites(st: Statement, ie: IfElse, x: Site)
    requires
        st.kind == StatementKind::IfElse(ie),
    ensures
        stmt_sites(st).contains(x) <==> (expr_sites(ie.cond).contains(x) || block_sites(ie.then_body).contains(x)
            || (ie.else_body is Some && block_sites(ie.else_body->0).contains(x))),
{
    let a = expr_sites(ie.cond);
    let t = block_sites(ie.then_body);
    let e = match ie.else_body {
        Some(b) => block_sites(b),
        None => Seq::<Site>::empty(),
    };
    assert(stmt_sites(st) == a + t + e);
    if stmt_sites(st).contains(x) {
        let w = choose|w: int| 0 <= w < (a + t + e).len() && (a + t + e)[w] == x;
        if w < a.len() {
            assert(a[w] == x);
        } else if w < a.len() + t.len() {
            assert(t[w - a.len()] == x);
        } else {
            assert(e[w - a.len() - t.len()] == x);
        }
    }
    if a.contains(x) {
        let w = choose|w: int| 0 <= w < a.len() && a[w] == x;
        assert((a + t + e)[w] == x);
    }
    if t.contains(x) {
        let w = choose|w: int| 0 <= w < t.len() && t[w] == x;
        assert((a + t + e)[a.len() + w] == x);
    }
    if ie.else_body is Some && block_sites(ie.else_body->0).contains(x) {
        let w = choose|w: int| 0 <= w < e.len() && e[w] == x;
        assert((a + t + e)[a.len() + t.len() + w] == x);
    }
}

/// The call sites of a block hold those of each of its statements.
pub proof fn law_block_holds_statement_sites(b: Block, i: int, x: Site)
    requires
        0 <= i < b.stmts@.len(),
        stmt_sites(b.stmts@[i]).contains(x),
    ensures
        block_sites(b).contains(x),
{
    lemma_stmts_hold(b.stmts@, i, x);
}

proof fn lemma_stmts_hold(ss: Seq<Statement>, i: int, x: Site)
    requires
        0 <= i < ss.len(),
        stmt_sites(ss[i]).contains(x),
    ensures
        stmts_sites(ss).contains(x),
    decreases ss.len(),
{
    let d = ss.subrange(0, ss.len() - 1);
    let l = stmt_sites(ss[ss.len() - 1]);
    assert(stmts_sites(ss) == stmts_sites(d) + l);
    if i == ss.len() - 1 {
        let w = choose|w: int| 0 <= w < l.len() && l[w] == x;
        assert((stmts_sites(d) + l)[stmts_sites(d).len() + w] == x);
    } else {
        assert(d[i] == ss[i]);
        lemma_stmts_hold(d, i, x);
        let w = choose|w: int| 0 <= w < stmts_sites(d).len() && stmts_sites(d)[w] == x;
        assert((stmts_sites(d) + l)[w] == x);
    }
}

/// A call of a named function is a call site of the call expression,
/// under that name and at the callee's span.
pub proof fn law_call_is_site(e: Expression, callee: Expression, args: Vec<Expression>, n: String)
    requires
        *e.kind == ExpressionKind::Call(callee, args),
        *callee.kind == ExpressionKind::Ident(n),
    ensures
        expr_sites(e).contains((n@, callee.span)),
{
    let s = expr_sites(e);
    assert(s[0] == (n@, callee.span));
}

/// Every call site of a caller's body shows among the outgoing calls: a
/// group named after the callee holds the call's span.
pub proof fn law_outgoing_covers_sites(items: Seq<Item>, name: Seq<char>, kind: CallerKind, x: Site)
    requires
        caller_body(items, name, kind) is Some,
        block_sites(caller_body(items, name, kind)->0).contains(x),
    ensures
        covered(add_all(Seq::empty(), block_sites(caller_body(items, name, kind)->0)), x),
{
    lemma_add_all_covers(Seq::empty(), block_sites(caller_body(items, name, kind)->0), x);
}

/// A site stands in a joined list when it stands in one of the parts.
proof fn lemma_concat_has(a: Seq<Site>, b: Seq<Site>, x: Site)
    ensures
        (a + b).contains(x) <==> (a.contains(x) || b.contains(x)),
{
    if (a + b).contains(x) {
        let w = choose|w: int| 0 <= w < (a + b).len() && (a + b)[w] == x;
        if w < a.len() {
            assert(a[w] == x);
        } else {
            assert(b[w - a.len()] == x);
        }
    }
    if a.contains(x) {
        let w = choose|w: int| 0 <= w < a.len() && a[w] == x;
        assert((a + b)[w] == x);
    }
    if b.contains(x) {
        let w = choose|w: int| 0 <= w < b.len() && b[w] == x;
        assert((a + b)[a.len() + w] == x);
    }
}

/// The call sites of a loop, a return, an assignment, a constraint, an
/// expression statement or a nested block are exactly those of its parts.
pub proof fn law_statement_parts_sites(st: Statement, x: Site)
    ensures
        match st.kind {
            StatementKind::While(w) => stmt_sites(st).contains(x) <==> (expr_sites(w.cond).contains(x)
                || block_sites(w.body).contains(x)),
            StatementKind::For(f) => stmt_sites(st).contains(x) <==> (stmt_sites(*f.init).contains(x) || expr_sites(
                f.cond,
            ).contains(x) || stmt_sites(*f.step).contains(x) || block_sites(f.body).contains(x)),
            StatementKind::Return(r) => stmt_sites(st).contains(x) <==> expr_sites(r.value).contains(x),
            StatementKind::Assignment(a) => stmt_sites(st).contains(x) <==> (expr_sites(a.lhs).contains(x)
                || expr_sites(a.rhs).contains(x)),
            StatementKind::ConstraintEq(c) => stmt_sites(st).contains(x) <==> (expr_sites(c.lhs).contains(x)
                || expr_sites(c.rhs).contains(x)),
            StatementKind::Expression(e) => stmt_sites(st).contains(x) <==> expr_sites(e).contains(x),
            StatementKind::Block(b) => stmt_sites(st).contains(x) <==> block_sites(b).contains(x),
            _ => true,
        },
{
    match st.kind {
        StatementKind::While(w) => {
            lemma_concat_has(expr_sites(w.cond), block_sites(w.body), x);
        },
        StatementKind::For(f) => {
            let a = stmt_sites(*f.init);
            let b = expr_sites(f.cond);
            let c = stmt_sites(*f.step);
            let d = block_sites(f.body);
            lemma_concat_has(a, b, x);
            lemma_concat_has(a + b, c, x);
            lemma_concat_has(a + b + c, d, x);
        },
        StatementKind::Assignment(a) => {
            lemma_concat_has(expr_sites(a.lhs), expr_sites(a.rhs), x);
        },
        StatementKind::ConstraintEq(c) => {
            lemma_concat_has(expr_sites(c.lhs), expr_sites(c.rhs), x);
        },
        _ => {},
    }
}

/// The call sites of an operator expression are exactly those of its
/// operands.
pub proof fn law_expression_parts_sites(e: Expression, x: Site)
    ensures
        match *e.kind {
            ExpressionKind::Binary(l, _, r) => expr_sites(e).contains(x) <==> (expr_sites(l).contains(x)
                || expr_sites(r).contains(x)),
            ExpressionKind::Unary(_, a) => expr_sites(e).contains(x) <==> expr_sites(a).contains(x),
            ExpressionKind::Ternary(c, t, f) => expr_sites(e).contains(x) <==> (expr_sites(c).contains(x)
                || expr_sites(t).contains(x) || expr_sites(f).contains(x)),
            ExpressionKind::Index(b, i) => expr_sites(e).contains(x) <==> (expr_sites(b).contains(x)
                || expr_sites(i).contains(x)),
            ExpressionKind::Paren(a) => expr_sites(e).contains(x) <==> expr_sites(a).contains(x),
            _ => true,
        },
{
    match *e.kind {
        ExpressionKind::Binary(l, _, r) => {
            lemma_concat_has(expr_sites(l), expr_sites(r), x);
        },
        ExpressionKind::Ternary(c, t, f) => {
            lemma_concat_has(expr_sites(c), expr_sites(t), x);
            lemma_concat_has(expr_sites(c) + expr_sites(t), expr_sites(f), x);
        },
        ExpressionKind::Index(b, i) => {
            lemma_concat_has(expr_sites(b), expr_sites(i), x);
        },
        _ => {},
    }
}

/// A line comment is skipped up to the end of its line: a skipped range
/// that opens with `//` holds no newline and ends at the next newline or
/// at the end of the text, and no rename match starts inside it.
pub proof fn law_line_comment_skipped(b: Seq<u8>, n: Seq<u8>, k: int, p: int)
    requires
        0 <= k < skip_ranges(b).len(),
        0 <= skip_ranges(b)[k].0,
        skip_ranges(b)[k].0 + 1 < b.len(),
        b[skip_ranges(b)[k].0] == 47,
        b[skip_ranges(b)[k].0 + 1] == 47,
    ensures
        ({
            let (s, e) = skip_ranges(b)[k];
            &&& s < e <= b.len()
            &&& forall|t: int| s <= t < e ==> b[t] != 10
            &&& e == b.len() || b[e] == 10
            &&& (s <= p < e ==> !accepted_match(b, n, p, skip_ranges(b)))
        }),
{
    lemma_block_ranges(b, 0);
    let (s, e) = skip_ranges(b)[k];
    lemma_line_comment_end(b, s);
    if s <= p < e {
        assert(in_ranges(skip_ranges(b), p));
    }
}

} // verus!
