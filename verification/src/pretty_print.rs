//! Pretty-printer for the Circom AST.
//!
//! Renders a [`File`] and all AST node types as canonical Circom source
//! code. `File::to_string` gives the plain rendering; `format_with_config`
//! honours an indentation string and an optional line-length limit, and
//! `format_with_trivia` keeps the comments of the original source.

use vstd::prelude::*;
use vstd::string::StringSliceAdditionalSpecFns;
use vstd::string::StrSliceExecFns;
use vstd::utf8::*;

use crate::ast::{
    debug_text, statement_kind_debug, ComponentDeclEntry, SignalDeclEntry, VarDeclEntry,
    item_span, AnonCompInput, AnonymousComp, AssignOp, AssignStmt, BinaryOp, Block, BusDef,
    BusFieldDecl, BusInstanceDecl, BusMember, BusType, ComponentDecl, CompoundAssignStmt,
    CompoundOp, ConstraintEqStmt, Expression, ExpressionKind, File, ForLoop, FunctionDef,
    Identifier, IfElse, Include, Item, LogArg, LogStmt, MainComponent, Pragma, PragmaKind,
    SignalAssignOp, SignalDecl, SignalKind, Statement, StatementKind, TemplateDef,
    TupleAssignStmt, UnaryOp, VarDecl, WhileLoop,
};
use crate::span::Span;
use crate::text::{at_boundary, join_seqs, lemma_after_ascii, lemma_ascii_is_boundary, substring};
use crate::trivia::{extract_comments, line_of, newlines_before, Comment};

verus! {

broadcast use vstd::utf8::group_utf8_lib;

// ── Configuration ───────────────────────────────────────────────────

/// Configuration for the pretty-printer.
pub struct FormatConfig {
    /// The string to use for one level of indentation.
    pub indent: String,
    /// Maximum line length before wrapping.  `None` means no limit.
    pub max_line_length: Option<usize>,
}

impl FormatConfig {
    /// Create a config from basic LSP formatting options (indent only).
    pub fn from_lsp(tab_size: u32, insert_spaces: bool) -> (c: FormatConfig)
        ensures
            insert_spaces ==> c.indent@ == Seq::new(tab_size as nat, |i: int| ' '),
            !insert_spaces ==> c.indent@ == seq!['\t'],
            c.max_line_length is None,
    {
        let mut indent = String::new();
        if insert_spaces {
            let mut i: u32 = 0;
            while i < tab_size
                invariant
                    i <= tab_size,
                    indent@ == Seq::new(i as nat, |k: int| ' '),
                decreases tab_size - i,
            {
                indent.append(" ");
                proof {
                    reveal_strlit(" ");
                }
                assert(indent@ =~= Seq::new((i + 1) as nat, |k: int| ' '));
                i += 1;
            }
        } else {
            indent.append("\t");
            proof {
                reveal_strlit("\t");
            }
            assert(indent@ =~= seq!['\t']);
        }
        FormatConfig { indent, max_line_length: None }
    }

    /// Set the maximum line length for wrapping.
    pub fn with_max_line_length(self, max: usize) -> (c: FormatConfig)
        ensures
            c.indent == self.indent,
            c.max_line_length == Some(max),
    {
        FormatConfig { indent: self.indent, max_line_length: Some(max) }
    }
}

impl Default for FormatConfig {
    /// Four spaces per level and no line-length limit.
    fn default() -> (c: FormatConfig)
        ensures
            c.indent@ == seq![' ', ' ', ' ', ' '],
            c.max_line_length is None,
    {
        let indent = String::from_str("    ");
        proof {
            reveal_strlit("    ");
        }
        FormatConfig { indent, max_line_length: None }
    }
}

// ── Indentation-aware writer ────────────────────────────────────────

/// The number of UTF-8 lead bytes (scalars) in `b[from..to]`.
pub open spec fn scalar_count(b: Seq<u8>, from: int, to: int) -> nat
    decreases to - from,
{
    if to <= from {
        0
    } else {
        scalar_count(b, from, to - 1) + if is_continuation_byte(b[to - 1]) { 0nat } else { 1nat }
    }
}

/// The index of the last newline byte of `b`, if any.
pub open spec fn last_newline(b: Seq<u8>) -> Option<int>
    decreases b.len(),
{
    if b.len() == 0 {
        None
    } else if b.last() == 10 {
        Some(b.len() - 1)
    } else {
        last_newline(b.drop_last())
    }
}

/// Accumulates output, tracking the indentation level and the column.
struct IndentWriter {
    buf: String,
    level: usize,
    indent: String,
    /// The width of `indent` in characters.
    indent_chars: usize,
    /// Current column position (0-based).
    col: usize,
    /// Maximum line length, if any.
    max_line_length: Option<usize>,
}

impl IndentWriter {
    /// `self` continues `prev`: the text written before is kept, and the
    /// settings are unchanged.
    spec fn extends(self, prev: IndentWriter) -> bool {
        &&& prev.buf@.len() <= self.buf@.len()
        &&& forall|i: int| 0 <= i < prev.buf@.len() ==> #[trigger] self.buf@[i] == prev.buf@[i]
        &&& self.indent == prev.indent
        &&& self.indent_chars == prev.indent_chars
        &&& self.max_line_length == prev.max_line_length
    }

    /// `self` continues `prev` at the same indentation level.
    spec fn follows(self, prev: IndentWriter) -> bool {
        self.extends(prev) && self.level == prev.level
    }

    fn new() -> (w: IndentWriter)
        ensures
            w.buf@ == Seq::<char>::empty(),
            w.level == 0,
            w.indent@ == seq![' ', ' ', ' ', ' '],
            w.col == 0,
            w.max_line_length is None,
    {
        let c = FormatConfig::default();
        IndentWriter::with_config(&c)
    }

    fn with_config(config: &FormatConfig) -> (w: IndentWriter)
        ensures
            w.buf@ == Seq::<char>::empty(),
            w.level == 0,
            w.indent@ == config.indent@,
            w.indent_chars == config.indent@.len(),
            w.col == 0,
            w.max_line_length == config.max_line_length,
    {
        let indent = String::from_str(config.indent.as_str());
        let indent_chars = config.indent.as_str().unicode_len();
        IndentWriter { buf: String::new(), level: 0, indent, indent_chars, col: 0, max_line_length: config.max_line_length }
    }

    fn indent(&mut self)
        ensures
            final(self).level == (if old(self).level < usize::MAX { old(self).level + 1 } else { usize::MAX as int }),
            final(self).buf == old(self).buf,
            final(self).indent == old(self).indent,
            final(self).indent_chars == old(self).indent_chars,
            final(self).max_line_length == old(self).max_line_length,
            final(self).col == old(self).col,
    {
        self.level = self.level.saturating_add(1);
    }

    /// Return to an indentation level saved earlier.
    fn restore_level(&mut self, level: usize)
        ensures
            final(self).level == level,
            final(self).buf == old(self).buf,
            final(self).indent == old(self).indent,
            final(self).indent_chars == old(self).indent_chars,
            final(self).max_line_length == old(self).max_line_length,
            final(self).col == old(self).col,
    {
        self.level = level;
    }

    /// Current indentation width in characters.
    fn indent_width(&self) -> (n: usize)
        ensures
            self.level * self.indent_chars <= usize::MAX ==> n == self.level * self.indent_chars,
            self.level * self.indent_chars > usize::MAX ==> n == usize::MAX,
    {
        match self.level.checked_mul(self.indent_chars) {
            Some(n) => n,
            None => usize::MAX,
        }
    }

    fn write_indent(&mut self)
        ensures
            final(self).follows(*old(self)),
            final(self).buf@ == old(self).buf@ + Seq::new(
                (old(self).level * old(self).indent@.len()) as nat,
                |k: int| old(self).indent@[k % old(self).indent@.len() as int],
            ),
    {
        let ghost start = self.buf@;
        let ghost ind = self.indent@;
        let mut i: usize = 0;
        while i < self.level
            invariant
                i <= self.level,
                self.follows(*old(self)),
                self.indent@ == ind,
                self.buf@ == start + Seq::new((i * ind.len()) as nat, |k: int| ind[k % ind.len() as int]),
            decreases self.level - i,
        {
            let ghost before = self.buf@;
            let ind_str = self.indent.as_str();
            self.buf.append(ind_str);
            proof {
                let n = (i * ind.len()) as nat;
                let m = ((i + 1) * ind.len()) as nat;
                assert(m == n + ind.len()) by (nonlinear_arith)
                    requires
                        n == i * ind.len(),
                        m == (i + 1) * ind.len(),
                ;
                assert forall|k: int| n <= k < m implies #[trigger] ind[k % ind.len() as int] == ind[k - n] by {
                    assert(k % ind.len() as int == k - n) by (nonlinear_arith)
                        requires
                            n == i * ind.len(),
                            n <= k < n + ind.len(),
                    ;
                }
                assert(self.buf@ =~= start + Seq::new(m, |k: int| ind[k % ind.len() as int]));
            }
            i += 1;
        }
        self.col = self.indent_width();
    }

    /// Append `s`, tracking the column (in characters) after its last
    /// newline.
    fn write_str(&mut self, s: &str)
        ensures
            final(self).follows(*old(self)),
            final(self).buf@ == old(self).buf@ + s@,
    {
        self.buf.append(s);
        let b = s.as_bytes();
        let mut i: usize = b.len();
        let mut count: usize = 0;
        let mut saw_newline = false;
        while i > 0
            invariant
                i <= b@.len(),
                count <= b@.len() - i,
            decreases i,
        {
            if b[i - 1] == 10u8 {
                saw_newline = true;
                break;
            }
            if (b[i - 1] & 0xC0u8) != 0x80u8 {
                count += 1;
            }
            i -= 1;
        }
        if saw_newline {
            self.col = count;
        } else {
            self.col = self.col.saturating_add(count);
        }
    }

    /// Append the decimal digits of `n`.
    fn write_u32(&mut self, n: u32)
        ensures
            final(self).follows(*old(self)),
            final(self).buf@ == old(self).buf@ + decimal_text(n as nat),
    {
        let mut digits: Vec<u8> = Vec::new();
        let mut v = n;
        loop
            invariant_except_break
                v > 0 || n == 0,
                v == 0 ==> digits@.len() == 0,
                decimal_text(n as nat) == (if v > 0 || digits@.len() == 0 {
                    decimal_text(v as nat)
                } else {
                    Seq::empty()
                }) + digits_text(digits@),
            invariant
                v <= n,
                forall|k: int| 0 <= k < digits@.len() ==> #[trigger] digits@[k] < 10,
            ensures
                forall|k: int| 0 <= k < digits@.len() ==> #[trigger] digits@[k] < 10,
                decimal_text(n as nat) == digits_text(digits@),
            decreases v,
        {
            let d = (v % 10) as u8;
            let ghost before = digits@;
            let ghost v0 = v;
            digits.push(d);
            proof {
                lemma_digits_text_push(before, d);
            }
            v = v / 10;
            if v == 0 {
                assert(v0 < 10);
                assert(d == v0 as u8);
                assert(decimal_text(v0 as nat) == digit_text(d));
                break;
            }
        }
        let mut i = digits.len();
        let ghost start = self.buf@;
        while i > 0
            invariant
                i <= digits@.len(),
                self.follows(*old(self)),
                start == old(self).buf@,
                forall|k: int| 0 <= k < digits@.len() ==> #[trigger] digits@[k] < 10,
                self.buf@ == start + digits_text(digits@.subrange(i as int, digits@.len() as int)),
            decreases i,
        {
            i -= 1;
            self.write_str(digit_str(digits[i]));
            proof {
                let t = digits@.subrange(i as int, digits@.len() as int);
                assert(t.drop_first() =~= digits@.subrange(i + 1, digits@.len() as int));
                assert(t[0] == digits@[i as int]);
            }
        }
        assert(digits@.subrange(0, digits@.len() as int) =~= digits@);
    }

    /// Check if `extra_chars` more characters would exceed the line limit.
    fn would_exceed(&self, extra_chars: usize) -> (r: bool)
        ensures
            r == (match self.max_line_length {
                Some(max) => self.col + extra_chars > max,
                None => false,
            }),
    {
        match self.max_line_length {
            Some(max) => extra_chars > max || self.col > max - extra_chars,
            None => false,
        }
    }
}

/// The text of a decimal digit.
pub open spec fn digit_text(d: u8) -> Seq<char> {
    if d == 0 {
        "0"@
    } else if d == 1 {
        "1"@
    } else if d == 2 {
        "2"@
    } else if d == 3 {
        "3"@
    } else if d == 4 {
        "4"@
    } else if d == 5 {
        "5"@
    } else if d == 6 {
        "6"@
    } else if d == 7 {
        "7"@
    } else if d == 8 {
        "8"@
    } else {
        "9"@
    }
}

/// The decimal text of `n`, without leading zeros.
pub open spec fn decimal_text(n: nat) -> Seq<char>
    decreases n,
{
    if n < 10 {
        digit_text(n as u8)
    } else {
        decimal_text(n / 10) + digit_text((n % 10) as u8)
    }
}

/// Digits, least significant first, written most significant first.
pub(crate) open spec fn digits_text(ds: Seq<u8>) -> Seq<char>
    decreases ds.len(),
{
    if ds.len() == 0 {
        Seq::empty()
    } else {
        digits_text(ds.drop_first()) + digit_text(ds[0])
    }
}

pub(crate) proof fn lemma_digits_text_push(ds: Seq<u8>, d: u8)
    ensures
        digits_text(ds.push(d)) == digit_text(d) + digits_text(ds),
    decreases ds.len(),
{
    if ds.len() == 0 {
        assert(ds.push(d).drop_first() =~= Seq::<u8>::empty());
        assert(digits_text(ds.push(d).drop_first()) == Seq::<char>::empty());
        assert(ds.push(d)[0] == d);
        assert(digits_text(ds) == Seq::<char>::empty());
        assert(digits_text(ds.push(d)) =~= digit_text(d) + digits_text(ds));
    } else {
        lemma_digits_text_push(ds.drop_first(), d);
        assert(ds.push(d).drop_first() =~= ds.drop_first().push(d));
        assert(ds.push(d)[0] == ds[0]);
        assert(digits_text(ds.push(d)) =~= digit_text(d) + digits_text(ds));
    }
}

fn digit_str(d: u8) -> (r: &'static str)
    ensures
        r@ == digit_text(d),
{
    match d {
        0 => "0",
        1 => "1",
        2 => "2",
        3 => "3",
        4 => "4",
        5 => "5",
        6 => "6",
        7 => "7",
        8 => "8",
        _ => "9",
    }
}

// ── Flat-width measurement ─────────────────────────────────────────

/// Measure the flat (single-line) width of an expression in characters.
fn measure_expr(node: &Expression) -> (n: usize)
    ensures
        n == expr_text(*node).len(),
    decreases node, 2nat,
{
    let mut w = IndentWriter::new();
    write_expr(&mut w, node);
    w.buf.as_str().unicode_len()
}

/// Measure the flat width of comma-separated expressions: "a, b, c".
fn measure_comma_sep_exprs(exprs: &Vec<Expression>) -> (n: usize)
    ensures
        n == (if exprs_text(exprs@).len() <= usize::MAX {
            exprs_text(exprs@).len() as int
        } else {
            usize::MAX as int
        }),
    decreases exprs, 2nat,
{
    let mut total: usize = 0;
    let mut i: usize = 0;
    while i < exprs.len()
        invariant
            i <= exprs@.len(),
            total == (if exprs_text(exprs@.subrange(0, i as int)).len() <= usize::MAX {
                exprs_text(exprs@.subrange(0, i as int)).len() as int
            } else {
                usize::MAX as int
            }),
        decreases exprs@.len() - i,
    {
        if i > 0 {
            total = total.saturating_add(2);
        }
        assert(decreases_to!(exprs => exprs@[i as int]));
        total = total.saturating_add(measure_expr(&exprs[i]));
        proof {
            let t = exprs@.subrange(0, i + 1);
            assert(t.subrange(0, t.len() - 1) =~= exprs@.subrange(0, i as int));
            assert(t[t.len() - 1] == exprs@[i as int]);
            reveal_strlit(", ");
            assert(exprs_text(t).len() == exprs_text(exprs@.subrange(0, i as int)).len() + (if i > 0 { 2int } else { 0int })
                + expr_text(exprs@[i as int]).len());
        }
        i += 1;
    }
    assert(exprs@.subrange(0, i as int) =~= exprs@);
    total
}

/// The flat width of `"a, b, c"` for the identifiers `idents`: their
/// lengths in characters and two for each separator.
pub open spec fn idents_width(idents: Seq<Identifier>) -> int
    decreases idents.len(),
{
    if idents.len() == 0 {
        0
    } else if idents.len() == 1 {
        idents[0].name@.len() as int
    } else {
        idents_width(idents.drop_last()) + 2 + idents.last().name@.len()
    }
}

/// Measure the flat width of comma-separated identifiers: "a, b, c"
/// (saturating at `usize::MAX`).
pub fn measure_comma_sep_idents(idents: &[Identifier]) -> (r: usize)
    ensures
        r == (if idents_width(idents@) <= usize::MAX {
            idents_width(idents@)
        } else {
            usize::MAX as int
        }),
{
    let mut total: usize = 0;
    let mut i: usize = 0;
    while i < idents.len()
        invariant
            i <= idents@.len(),
            total == (if idents_width(idents@.take(i as int)) <= usize::MAX {
                idents_width(idents@.take(i as int))
            } else {
                usize::MAX as int
            }),
        decreases idents@.len() - i,
    {
        assert(idents@.take(i + 1).drop_last() == idents@.take(i as int));
        if i > 0 {
            total = total.saturating_add(2);
        }
        total = total.saturating_add(idents[i].name.as_str().unicode_len());
        i += 1;
    }
    assert(idents@.take(i as int) == idents@);
    total
}

// ── Wrapping helpers ──────────────────────────────────────────────

/// Write comma-separated expressions, wrapping to one-per-line if they
/// would exceed the line limit.  The caller writes the delimiters.
fn write_comma_sep_exprs_maybe_wrap(w: &mut IndentWriter, exprs: &Vec<Expression>, closing: &str)
    ensures
        final(w).follows(*old(w)),
        old(w).max_line_length is None ==> final(w).buf@ == old(w).buf@ + exprs_text(exprs@),
    decreases exprs, 3nat,
{
    if exprs.len() == 0 {
        return;
    }
    let flat_width = measure_comma_sep_exprs(exprs).saturating_add(closing.len());
    if w.would_exceed(flat_width) {
        let saved = w.level;
        w.indent();
        let mut i: usize = 0;
        while i < exprs.len()
            invariant
                i <= exprs@.len(),
                w.extends(*old(w)),
                w.level == (if saved < usize::MAX { saved + 1 } else { usize::MAX as int }),
                saved == old(w).level,
            decreases exprs@.len() - i,
        {
            w.write_str("\n");
            w.write_indent();
            assert(decreases_to!(exprs => exprs@[i as int]));
            write_expr(w, &exprs[i]);
            if i + 1 < exprs.len() {
                w.write_str(",");
            }
            i += 1;
        }
        w.write_str("\n");
        w.restore_level(saved);
        w.write_indent();
    } else {
        write_comma_sep_exprs(w, exprs);
    }
}

/// Write comma-separated expressions on one line.
fn write_comma_sep_exprs(w: &mut IndentWriter, exprs: &Vec<Expression>)
    ensures
        final(w).follows(*old(w)),
        old(w).max_line_length is None ==> final(w).buf@ == old(w).buf@ + exprs_text(exprs@),
    decreases exprs, 2nat,
{
    let mut i: usize = 0;
    while i < exprs.len()
        invariant
            i <= exprs@.len(),
            w.follows(*old(w)),
            old(w).max_line_length is None ==> w.buf@ == old(w).buf@ + exprs_text(exprs@.subrange(0, i as int)),
        decreases exprs@.len() - i,
    {
        let ghost b1 = w.buf@;
        if i > 0 {
            w.write_str(", ");
        }
        assert(decreases_to!(exprs => exprs@[i as int]));
        write_expr(w, &exprs[i]);
        proof {
            let t = exprs@.subrange(0, i + 1);
            assert(t.subrange(0, t.len() - 1) =~= exprs@.subrange(0, i as int));
            assert(t[t.len() - 1] == exprs@[i as int]);
            if old(w).max_line_length is None {
                assert(w.buf@ =~= old(w).buf@ + exprs_text(t));
            }
        }
        i += 1;
    }
    assert(exprs@.subrange(0, i as int) =~= exprs@);
}

/// Write comma-separated identifiers, wrapping if needed.
fn write_comma_sep_idents_maybe_wrap(w: &mut IndentWriter, idents: &Vec<Identifier>, closing: &str)
    ensures
        final(w).follows(*old(w)),
        old(w).max_line_length is None ==> final(w).buf@ == old(w).buf@ + idents_text(idents@),
{
    proof {
        assert(idents@.map_values(|id: Identifier| id.name@).len() == idents@.len());
    }
    if idents.len() == 0 {
        return;
    }
    let flat_width = measure_comma_sep_idents(idents).saturating_add(closing.len());
    if w.would_exceed(flat_width) {
        let saved = w.level;
        w.indent();
        let mut i: usize = 0;
        while i < idents.len()
            invariant
                i <= idents@.len(),
                w.extends(*old(w)),
                w.level == (if saved < usize::MAX { saved + 1 } else { usize::MAX as int }),
                saved == old(w).level,
            decreases idents@.len() - i,
        {
            w.write_str("\n");
            w.write_indent();
            w.write_str(idents[i].name.as_str());
            if i + 1 < idents.len() {
                w.write_str(",");
            }
            i += 1;
        }
        w.write_str("\n");
        w.restore_level(saved);
        w.write_indent();
    } else {
        write_comma_sep_idents(w, idents);
    }
}

fn write_comma_sep_idents(w: &mut IndentWriter, idents: &Vec<Identifier>)
    ensures
        final(w).follows(*old(w)),
        final(w).buf@ == old(w).buf@ + idents_text(idents@),
{
    let mut i: usize = 0;
    while i < idents.len()
        invariant
            i <= idents@.len(),
            w.follows(*old(w)),
            w.buf@ == old(w).buf@ + idents_text(idents@.subrange(0, i as int)),
        decreases idents@.len() - i,
    {
        let ghost b1 = w.buf@;
        if i > 0 {
            w.write_str(", ");
        }
        w.write_str(idents[i].name.as_str());
        proof {
            let f = |id: Identifier| id.name@;
            assert(idents@.subrange(0, i + 1).map_values(f) =~= idents@.subrange(0, i as int).map_values(f).push(
                idents@[i as int].name@,
            ));
            crate::text::lemma_join_push(idents@.subrange(0, i as int).map_values(f), idents@[i as int].name@, ", "@);
            assert(w.buf@ =~= old(w).buf@ + idents_text(idents@.subrange(0, i + 1)));
        }
        i += 1;
    }
    assert(idents@.subrange(0, i as int) =~= idents@);
}

/// The escape sequence written for a byte of a string literal, if any.
pub open spec fn escape_of(c: u8) -> Option<Seq<char>> {
    if c == 92 {
        Some(seq!['\\', '\\'])
    } else if c == 34 {
        Some(seq!['\\', '"'])
    } else if c == 10 {
        Some(seq!['\\', 'n'])
    } else if c == 13 {
        Some(seq!['\\', 'r'])
    } else if c == 9 {
        Some(seq!['\\', 't'])
    } else {
        None
    }
}

fn escape_str(c: u8) -> (r: Option<&'static str>)
    ensures
        r is Some <==> escape_of(c) is Some,
        r matches Some(e) ==> e@ == escape_of(c)->0,
{
    proof {
        reveal_strlit("\\\\");
        reveal_strlit("\\\"");
        reveal_strlit("\\n");
        reveal_strlit("\\r");
        reveal_strlit("\\t");
    }
    if c == 92u8 {
        Some("\\\\")
    } else if c == 34u8 {
        Some("\\\"")
    } else if c == 10u8 {
        Some("\\n")
    } else if c == 13u8 {
        Some("\\r")
    } else if c == 9u8 {
        Some("\\t")
    } else {
        None
    }
}

/// The text written for a character of a string literal.
pub open spec fn esc_char(c: char) -> Seq<char> {
    if c == '\\' {
        seq!['\\', '\\']
    } else if c == '"' {
        seq!['\\', '"']
    } else if c == '\n' {
        seq!['\\', 'n']
    } else if c == '\r' {
        seq!['\\', 'r']
    } else if c == '\t' {
        seq!['\\', 't']
    } else {
        seq![c]
    }
}

/// The contents of a string literal for the text `cs`: backslash, quote,
/// newline, carriage return and tab escaped.
pub open spec fn escaped(cs: Seq<char>) -> Seq<char>
    decreases cs.len(),
{
    if cs.len() == 0 {
        Seq::empty()
    } else {
        esc_char(cs[0]) + escaped(cs.drop_first())
    }
}

/// The bytes written for a byte of a string literal.
spec fn esc_byte(b: u8) -> Seq<u8> {
    match escape_of(b) {
        Some(e) => encode_utf8(e),
        None => seq![b],
    }
}

/// Escaping, byte by byte.
spec fn esc_bytes(bs: Seq<u8>) -> Seq<u8>
    decreases bs.len(),
{
    if bs.len() == 0 {
        Seq::empty()
    } else {
        esc_byte(bs[0]) + esc_bytes(bs.drop_first())
    }
}

proof fn lemma_esc_bytes_concat(a: Seq<u8>, b: Seq<u8>)
    ensures
        esc_bytes(a + b) == esc_bytes(a) + esc_bytes(b),
    decreases a.len(),
{
    if a.len() == 0 {
        assert(a + b =~= b);
    } else {
        lemma_esc_bytes_concat(a.drop_first(), b);
        assert((a + b).drop_first() =~= a.drop_first() + b);
        assert((a + b)[0] == a[0]);
        assert(esc_bytes(a + b) =~= esc_bytes(a) + esc_bytes(b));
    }
}

/// Bytes that need no escape are kept.
proof fn lemma_esc_bytes_plain(bs: Seq<u8>)
    requires
        forall|i: int| 0 <= i < bs.len() ==> escape_of(#[trigger] bs[i]) is None,
    ensures
        esc_bytes(bs) == bs,
    decreases bs.len(),
{
    if bs.len() > 0 {
        let r = bs.drop_first();
        assert forall|i: int| 0 <= i < r.len() implies escape_of(#[trigger] r[i]) is None by {
            assert(r[i] == bs[i + 1]);
        }
        lemma_esc_bytes_plain(r);
        assert(escape_of(bs[0]) is None);
        assert(esc_bytes(bs) =~= bs);
    }
}

/// Escaping the encoding of one character encodes its escape.
proof fn lemma_esc_scalar(c: char)
    ensures
        esc_bytes(encode_scalar(c as u32)) == encode_utf8(esc_char(c)),
{
    let v = c as u32;
    let e = encode_scalar(v);
    if v <= 0x7f {
        let x = (v & 0x7f) as u8;
        assert(x as u32 == v) by (bit_vector)
            requires
                v <= 0x7f,
                x == (v & 0x7f) as u8,
        ;
        assert(e == seq![x]);
        assert(e.drop_first() =~= Seq::<u8>::empty());
        assert(esc_bytes(e.drop_first()) == Seq::<u8>::empty());
        assert(e[0] == x);
        assert(esc_bytes(e) =~= esc_byte(x));
        let ec = esc_char(c);
        if escape_of(x) is Some {
            let t = escape_of(x)->0;
            assert(t == ec);
        } else {
            assert(ec == seq![c]);
            assert(ec.drop_first() =~= Seq::<char>::empty());
            assert(encode_utf8(ec) =~= encode_scalar(v) + encode_utf8(Seq::<char>::empty()));
        }
    } else {
        assert(forall|i: int| 0 <= i < e.len() ==> #[trigger] e[i] >= 0x80) by {
            let b0 = vstd::utf8::leading_byte_width_2(v);
            let b1 = vstd::utf8::leading_byte_width_3(v);
            let b2 = vstd::utf8::leading_byte_width_4(v);
            let c0 = vstd::utf8::last_continuation_byte(v);
            let c1 = vstd::utf8::second_last_continuation_byte(v);
            let c2 = vstd::utf8::third_last_continuation_byte(v);
            assert(b0 >= 0x80 && b1 >= 0x80 && b2 >= 0x80 && c0 >= 0x80 && c1 >= 0x80 && c2 >= 0x80) by (bit_vector)
                requires
                    b0 == 0xC0 | ((v >> 6) & 0x1F) as u8,
                    b1 == 0xE0 | ((v >> 12) & 0x0F) as u8,
                    b2 == 0xF0 | ((v >> 18) & 0x7) as u8,
                    c0 == 0x80 | (v & 0x3F) as u8,
                    c1 == 0x80 | ((v >> 6) & 0x3F) as u8,
                    c2 == 0x80 | ((v >> 12) & 0x3F) as u8,
            ;
        }
        lemma_esc_bytes_plain(e);
        assert(esc_char(c) == seq![c]);
        assert(seq![c].drop_first() =~= Seq::<char>::empty());
        assert(encode_utf8(seq![c]) =~= e + encode_utf8(Seq::<char>::empty()));
    }
}

/// Escaping the encoding of a text encodes the escaped text.
proof fn lemma_esc_encode(cs: Seq<char>)
    ensures
        esc_bytes(encode_utf8(cs)) == encode_utf8(escaped(cs)),
    decreases cs.len(),
{
    if cs.len() > 0 {
        let rest = cs.drop_first();
        lemma_esc_encode(rest);
        lemma_esc_scalar(cs[0]);
        lemma_esc_bytes_concat(encode_scalar(cs[0] as u32), encode_utf8(rest));
        crate::text::lemma_encode_utf8_concat(esc_char(cs[0]), escaped(rest));
    }
}

/// Write `s` with `\`, `"`, newline, carriage return and tab escaped.
fn write_escaped_str(w: &mut IndentWriter, s: &str)
    ensures
        final(w).follows(*old(w)),
        final(w).buf@ == old(w).buf@ + escaped(s@),
{
    let b = s.as_bytes();
    let ghost bytes = s.spec_bytes();
    let ghost b0 = w.buf@;
    proof {
        encode_utf8_valid_utf8(s@);
    }
    let mut start: usize = 0;
    let mut i: usize = 0;
    while i < b.len()
        invariant
            start <= i <= b@.len(),
            b@ == bytes,
            bytes == s.spec_bytes(),
            valid_utf8(bytes),
            at_boundary(bytes, start as int),
            w.follows(*old(w)),
            b0 == old(w).buf@,
            w.buf@.len() >= b0.len(),
            w.buf@.subrange(0, b0.len() as int) == b0,
            encode_utf8(w.buf@.subrange(b0.len() as int, w.buf@.len() as int)) == esc_bytes(bytes.subrange(0, start as int)),
            forall|j: int| start <= j < i ==> escape_of(#[trigger] bytes[j]) is None,
        decreases b@.len() - i,
    {
        match escape_str(b[i]) {
            Some(esc) => {
                proof {
                    lemma_ascii_is_boundary(bytes, i as int);
                    lemma_after_ascii(bytes, i as int);
                }
                let ghost a0 = w.buf@.subrange(b0.len() as int, w.buf@.len() as int);
                let ghost plain = bytes.subrange(start as int, i as int);
                if start < i {
                    let piece = substring(s, start, i);
                    w.write_str(piece.as_str());
                    proof {
                        assert(w.buf@.subrange(b0.len() as int, w.buf@.len() as int) =~= a0 + piece@);
                        crate::text::lemma_encode_utf8_concat(a0, piece@);
                    }
                } else {
                    assert(plain =~= Seq::<u8>::empty());
                }
                let ghost a1 = w.buf@.subrange(b0.len() as int, w.buf@.len() as int);
                w.write_str(esc);
                proof {
                    assert(w.buf@.subrange(b0.len() as int, w.buf@.len() as int) =~= a1 + esc@);
                    crate::text::lemma_encode_utf8_concat(a1, esc@);
                    assert forall|j: int| 0 <= j < plain.len() implies escape_of(#[trigger] plain[j]) is None by {
                        assert(plain[j] == bytes[start + j]);
                    }
                    lemma_esc_bytes_plain(plain);
                    let x = bytes[i as int];
                    assert(esc_bytes(seq![x]) =~= esc_byte(x)) by {
                        assert(seq![x].drop_first() =~= Seq::<u8>::empty());
                        assert(esc_bytes(seq![x].drop_first()) == Seq::<u8>::empty());
                    }
                    lemma_esc_bytes_concat(bytes.subrange(0, start as int), plain);
                    assert(bytes.subrange(0, start as int) + plain =~= bytes.subrange(0, i as int));
                    lemma_esc_bytes_concat(bytes.subrange(0, i as int), seq![x]);
                    assert(bytes.subrange(0, i as int) + seq![x] =~= bytes.subrange(0, i + 1));
                    assert(w.buf@.subrange(0, b0.len() as int) =~= b0);
                }
                start = i + 1;
            },
            None => {},
        }
        i += 1;
    }
    let ghost a0 = w.buf@.subrange(b0.len() as int, w.buf@.len() as int);
    let ghost plain = bytes.subrange(start as int, bytes.len() as int);
    if start < b.len() {
        let piece = substring(s, start, b.len());
        w.write_str(piece.as_str());
        proof {
            assert(w.buf@.subrange(b0.len() as int, w.buf@.len() as int) =~= a0 + piece@);
            crate::text::lemma_encode_utf8_concat(a0, piece@);
        }
    } else {
        assert(plain =~= Seq::<u8>::empty());
    }
    proof {
        let added = w.buf@.subrange(b0.len() as int, w.buf@.len() as int);
        assert forall|j: int| 0 <= j < plain.len() implies escape_of(#[trigger] plain[j]) is None by {
            assert(plain[j] == bytes[start + j]);
        }
        lemma_esc_bytes_plain(plain);
        lemma_esc_bytes_concat(bytes.subrange(0, start as int), plain);
        assert(bytes.subrange(0, start as int) + plain =~= bytes);
        lemma_esc_encode(s@);
        assert(encode_utf8(added) == encode_utf8(escaped(s@)));
        encode_utf8_decode_utf8(added);
        encode_utf8_decode_utf8(escaped(s@));
        assert(w.buf@ =~= w.buf@.subrange(0, b0.len() as int) + added);
    }
}

// ── Expressions ─────────────────────────────────────────────────────

/// The text of a unary operator.
pub open spec fn unop_text(op: UnaryOp) -> Seq<char> {
    match op {
        UnaryOp::Neg => "-"@,
        UnaryOp::Not => "!"@,
        UnaryOp::BitNot => "~"@,
    }
}

/// The text of a binary operator with the spaces around it.
pub open spec fn binop_text(op: BinaryOp) -> Seq<char> {
    match op {
        BinaryOp::Add => " + "@,
        BinaryOp::Sub => " - "@,
        BinaryOp::Mul => " * "@,
        BinaryOp::Div => " / "@,
        BinaryOp::IntDiv => " \\ "@,
        BinaryOp::Mod => " % "@,
        BinaryOp::Pow => " ** "@,
        BinaryOp::Shl => " << "@,
        BinaryOp::Shr => " >> "@,
        BinaryOp::BitAnd => " & "@,
        BinaryOp::BitOr => " | "@,
        BinaryOp::BitXor => " ^ "@,
        BinaryOp::And => " && "@,
        BinaryOp::Or => " || "@,
        BinaryOp::Eq => " == "@,
        BinaryOp::Ne => " != "@,
        BinaryOp::Lt => " < "@,
        BinaryOp::Gt => " > "@,
        BinaryOp::Le => " <= "@,
        BinaryOp::Ge => " >= "@,
    }
}

/// The one-line rendering of an expression.
pub open spec fn expr_text(e: Expression) -> Seq<char>
    decreases e, 0nat,
{
    match *e.kind {
        ExpressionKind::Number(n) => n@,
        ExpressionKind::Ident(n) => n@,
        ExpressionKind::Unary(op, x) => unop_text(op) + expr_text(x),
        ExpressionKind::Binary(l, op, r) => expr_text(l) + binop_text(op) + expr_text(r),
        ExpressionKind::Ternary(c, t, f) => expr_text(c) + " ? "@ + expr_text(t) + " : "@ + expr_text(f),
        ExpressionKind::Index(b, i) => expr_text(b) + "["@ + expr_text(i) + "]"@,
        ExpressionKind::Member(b, id) => expr_text(b) + "."@ + id.name@,
        ExpressionKind::Call(c, args) => expr_text(c) + "("@ + exprs_text(args@) + ")"@,
        ExpressionKind::AnonymousComp(ac) => expr_text(ac.template) + "("@ + exprs_text(ac.template_args@) + ")("@
            + inputs_text(ac.inputs@) + ")"@,
        ExpressionKind::ArrayLit(es) => "["@ + exprs_text(es@) + "]"@,
        ExpressionKind::Paren(x) => "("@ + expr_text(x) + ")"@,
        ExpressionKind::Parallel(x) => "parallel "@ + expr_text(x),
        ExpressionKind::Underscore => "_"@,
        ExpressionKind::Error => "/* error */"@,
    }
}

/// Expressions one after another, separated by `", "`.
pub open spec fn exprs_text(es: Seq<Expression>) -> Seq<char>
    decreases es, 1nat,
{
    if es.len() == 0 {
        Seq::empty()
    } else {
        let init = es.subrange(0, es.len() - 1);
        exprs_text(init) + (if es.len() > 1 {
            ", "@
        } else {
            Seq::empty()
        }) + expr_text(es[es.len() - 1])
    }
}

/// The text of an input of an anonymous component.
pub open spec fn input_text(i: AnonCompInput) -> Seq<char>
    decreases i, 0nat,
{
    match i {
        AnonCompInput::Positional(e) => expr_text(e),
        AnonCompInput::Named(id, e) => id.name@ + " <== "@ + expr_text(e),
    }
}

/// Inputs one after another, separated by `", "`.
pub open spec fn inputs_text(ins: Seq<AnonCompInput>) -> Seq<char>
    decreases ins, 1nat,
{
    if ins.len() == 0 {
        Seq::empty()
    } else {
        let init = ins.subrange(0, ins.len() - 1);
        inputs_text(init) + (if ins.len() > 1 {
            ", "@
        } else {
            Seq::empty()
        }) + input_text(ins[ins.len() - 1])
    }
}

fn unary_op_str(op: UnaryOp) -> (r: &'static str)
    ensures
        r@ == unop_text(op),
{
    match op {
        UnaryOp::Neg => "-",
        UnaryOp::Not => "!",
        UnaryOp::BitNot => "~",
    }
}

fn binary_op_str(op: BinaryOp) -> (r: &'static str)
    ensures
        r@ == binop_text(op),
{
    match op {
        BinaryOp::Add => " + ",
        BinaryOp::Sub => " - ",
        BinaryOp::Mul => " * ",
        BinaryOp::Div => " / ",
        BinaryOp::IntDiv => " \\ ",
        BinaryOp::Mod => " % ",
        BinaryOp::Pow => " ** ",
        BinaryOp::Shl => " << ",
        BinaryOp::Shr => " >> ",
        BinaryOp::BitAnd => " & ",
        BinaryOp::BitOr => " | ",
        BinaryOp::BitXor => " ^ ",
        BinaryOp::And => " && ",
        BinaryOp::Or => " || ",
        BinaryOp::Eq => " == ",
        BinaryOp::Ne => " != ",
        BinaryOp::Lt => " < ",
        BinaryOp::Gt => " > ",
        BinaryOp::Le => " <= ",
        BinaryOp::Ge => " >= ",
    }
}

/// Write an expression to the output.
///
/// Binary expressions are printed without precedence-aware
/// parenthesization: the parser keeps explicit `Paren` nodes, so ASTs it
/// produces print back faithfully.
fn write_expr(w: &mut IndentWriter, node: &Expression)
    ensures
        final(w).follows(*old(w)),
        old(w).max_line_length is None ==> final(w).buf@ == old(w).buf@ + expr_text(*node),
    decreases node, 1nat,
{
    let ghost b0 = w.buf@;
    match &*node.kind {
        ExpressionKind::Number(n) => w.write_str(n.as_str()),
        ExpressionKind::Ident(name) => w.write_str(name.as_str()),
        ExpressionKind::Unary(op, expr) => {
            w.write_str(unary_op_str(*op));
            write_expr(w, expr);
        },
        ExpressionKind::Binary(lhs, op, rhs) => {
            write_expr(w, lhs);
            w.write_str(binary_op_str(*op));
            write_expr(w, rhs);
        },
        ExpressionKind::Ternary(cond, then_expr, else_expr) => {
            write_expr(w, cond);
            w.write_str(" ? ");
            write_expr(w, then_expr);
            w.write_str(" : ");
            write_expr(w, else_expr);
        },
        ExpressionKind::Index(expr, index) => {
            write_expr(w, expr);
            w.write_str("[");
            write_expr(w, index);
            w.write_str("]");
        },
        ExpressionKind::Member(expr, ident) => {
            write_expr(w, expr);
            w.write_str(".");
            w.write_str(ident.name.as_str());
        },
        ExpressionKind::Call(callee, args) => {
            write_expr(w, callee);
            w.write_str("(");
            write_comma_sep_exprs_maybe_wrap(w, args, ")");
            w.write_str(")");
        },
        ExpressionKind::AnonymousComp(comp) => write_anonymous_comp(w, comp),
        ExpressionKind::ArrayLit(elems) => {
            w.write_str("[");
            write_comma_sep_exprs_maybe_wrap(w, elems, "]");
            w.write_str("]");
        },
        ExpressionKind::Paren(expr) => {
            w.write_str("(");
            write_expr(w, expr);
            w.write_str(")");
        },
        ExpressionKind::Parallel(expr) => {
            w.write_str("parallel ");
            write_expr(w, expr);
        },
        ExpressionKind::Underscore => w.write_str("_"),
        ExpressionKind::Error => w.write_str("/* error */"),
    }
    proof {
        if old(w).max_line_length is None {
            assert(w.buf@ =~= b0 + expr_text(*node));
        }
    }
}

fn write_anonymous_comp(w: &mut IndentWriter, node: &AnonymousComp)
    ensures
        final(w).follows(*old(w)),
        old(w).max_line_length is None ==> final(w).buf@ == old(w).buf@ + expr_text(node.template) + "("@
            + exprs_text(node.template_args@) + ")("@ + inputs_text(node.inputs@) + ")"@,
    decreases node, 0nat,
{
    write_expr(w, &node.template);
    w.write_str("(");
    write_comma_sep_exprs_maybe_wrap(w, &node.template_args, ")(");
    w.write_str(")(");
    write_anon_comp_inputs_maybe_wrap(w, &node.inputs, ")");
    w.write_str(")");
    proof {
        if old(w).max_line_length is None {
            assert(w.buf@ =~= old(w).buf@ + expr_text(node.template) + "("@ + exprs_text(node.template_args@) + ")("@
                + inputs_text(node.inputs@) + ")"@);
        }
    }
}

fn write_anon_comp_input(w: &mut IndentWriter, input: &AnonCompInput)
    ensures
        final(w).follows(*old(w)),
        old(w).max_line_length is None ==> final(w).buf@ == old(w).buf@ + input_text(*input),
    decreases input, 0nat,
{
    match input {
        AnonCompInput::Positional(expr) => write_expr(w, expr),
        AnonCompInput::Named(ident, expr) => {
            w.write_str(ident.name.as_str());
            w.write_str(" <== ");
            write_expr(w, expr);
        },
    }
    proof {
        if old(w).max_line_length is None {
            assert(w.buf@ =~= old(w).buf@ + input_text(*input));
        }
    }
}

/// Write anonymous component inputs with optional wrapping.
fn write_anon_comp_inputs_maybe_wrap(w: &mut IndentWriter, inputs: &Vec<AnonCompInput>, closing: &str)
    ensures
        final(w).follows(*old(w)),
        old(w).max_line_length is None ==> final(w).buf@ == old(w).buf@ + inputs_text(inputs@),
    decreases inputs, 3nat,
{
    if inputs.len() == 0 {
        return;
    }
    // Measure the flat width.
    let mut flat_width: usize = 0;
    let mut j: usize = 0;
    while j < inputs.len()
        invariant
            j <= inputs@.len(),
        decreases inputs@.len() - j,
    {
        let width = match &inputs[j] {
            AnonCompInput::Positional(expr) => measure_expr(expr),
            AnonCompInput::Named(ident, expr) => ident.name.as_str().unicode_len().saturating_add(5).saturating_add(
                measure_expr(expr),
            ),
        };
        let width = if j > 0 { width.saturating_add(2) } else { width };
        flat_width = flat_width.saturating_add(width);
        j += 1;
    }
    if w.would_exceed(flat_width.saturating_add(closing.len())) {
        let saved = w.level;
        w.indent();
        let mut i: usize = 0;
        while i < inputs.len()
            invariant
                i <= inputs@.len(),
                w.extends(*old(w)),
                w.level == (if saved < usize::MAX { saved + 1 } else { usize::MAX as int }),
                saved == old(w).level,
            decreases inputs@.len() - i,
        {
            w.write_str("\n");
            w.write_indent();
            assert(decreases_to!(inputs => inputs@[i as int]));
            write_anon_comp_input(w, &inputs[i]);
            if i + 1 < inputs.len() {
                w.write_str(",");
            }
            i += 1;
        }
        w.write_str("\n");
        w.restore_level(saved);
        w.write_indent();
    } else {
        let mut i: usize = 0;
        while i < inputs.len()
            invariant
                i <= inputs@.len(),
                w.follows(*old(w)),
                old(w).max_line_length is None ==> w.buf@ == old(w).buf@ + inputs_text(inputs@.subrange(0, i as int)),
            decreases inputs@.len() - i,
        {
            if i > 0 {
                w.write_str(", ");
            }
            assert(decreases_to!(inputs => inputs@[i as int]));
            write_anon_comp_input(w, &inputs[i]);
            proof {
                let t = inputs@.subrange(0, i + 1);
                assert(t.subrange(0, t.len() - 1) =~= inputs@.subrange(0, i as int));
                assert(t[t.len() - 1] == inputs@[i as int]);
                if old(w).max_line_length is None {
                    assert(w.buf@ =~= old(w).buf@ + inputs_text(t));
                }
            }
            i += 1;
        }
        assert(inputs@.subrange(0, i as int) =~= inputs@);
    }
}


// ── Items ───────────────────────────────────────────────────────────

fn write_item(w: &mut IndentWriter, item: &Item)
    ensures
        final(w).follows(*old(w)),
        old(w).max_line_length is None ==> final(w).buf@ == old(w).buf@ + item_text(*item, old(w).level, old(w).indent@),
{
    match item {
        Item::Pragma(n) => write_pragma(w, n),
        Item::Include(n) => write_include(w, n),
        Item::TemplateDef(n) => write_template_def(w, n),
        Item::FunctionDef(n) => write_function_def(w, n),
        Item::BusDef(n) => write_bus_def(w, n),
        Item::MainComponent(n) => write_main_component(w, n),
    }
}

/// `pragma circom M.m.p;` or `pragma custom_templates;`, without a newline.
fn write_pragma_text(w: &mut IndentWriter, node: &Pragma)
    ensures
        final(w).follows(*old(w)),
        final(w).buf@ == old(w).buf@ + pragma_text(*node),
{
    match &node.kind {
        PragmaKind::Version(v) => {
            w.write_str("pragma circom ");
            w.write_u32(v.major);
            w.write_str(".");
            w.write_u32(v.minor);
            w.write_str(".");
            w.write_u32(v.patch);
            w.write_str(";");
        },
        PragmaKind::CustomTemplates => w.write_str("pragma custom_templates;"),
    }
}

fn write_pragma(w: &mut IndentWriter, node: &Pragma)
    ensures
        final(w).follows(*old(w)),
        final(w).buf@ == old(w).buf@ + pragma_text(*node) + "\n"@,
{
    write_pragma_text(w, node);
    w.write_str("\n");
}

fn write_include(w: &mut IndentWriter, node: &Include)
    ensures
        final(w).follows(*old(w)),
        final(w).buf@ == old(w).buf@ + "include \""@ + escaped(node.path@) + "\";\n"@,
{
    w.write_str("include \"");
    write_escaped_str(w, node.path.as_str());
    w.write_str("\";\n");
}

/// The header of a template, up to and including `) `.
fn write_template_header(w: &mut IndentWriter, node: &TemplateDef)
    ensures
        final(w).follows(*old(w)),
        old(w).max_line_length is None ==> final(w).buf@ == old(w).buf@ + template_header_text(*node),
{
    if node.is_custom {
        w.write_str("custom ");
    }
    if node.is_parallel {
        w.write_str("parallel ");
    }
    w.write_str("template ");
    if node.is_extern {
        w.write_str("extern ");
    }
    w.write_str(node.name.name.as_str());
    w.write_str("(");
    write_comma_sep_idents_maybe_wrap(w, &node.params, ") {");
    w.write_str(") ");
}

fn write_template_def(w: &mut IndentWriter, node: &TemplateDef)
    ensures
        final(w).follows(*old(w)),
        old(w).max_line_length is None ==> final(w).buf@ == old(w).buf@ + item_text(Item::TemplateDef(*node), old(w).level, old(w).indent@),
{
    write_template_header(w, node);
    write_block(w, &node.body);
    w.write_str("\n");
}

/// The header of a function, up to and including `) `.
fn write_function_header(w: &mut IndentWriter, node: &FunctionDef)
    ensures
        final(w).follows(*old(w)),
        old(w).max_line_length is None ==> final(w).buf@ == old(w).buf@ + function_header_text(*node),
{
    w.write_str("function ");
    w.write_str(node.name.name.as_str());
    w.write_str("(");
    write_comma_sep_idents_maybe_wrap(w, &node.params, ") {");
    w.write_str(") ");
}

fn write_function_def(w: &mut IndentWriter, node: &FunctionDef)
    ensures
        final(w).follows(*old(w)),
        old(w).max_line_length is None ==> final(w).buf@ == old(w).buf@ + item_text(Item::FunctionDef(*node), old(w).level, old(w).indent@),
{
    write_function_header(w, node);
    write_block(w, &node.body);
    w.write_str("\n");
}

/// The header of a bus, up to and including `) {` and a newline.
fn write_bus_header(w: &mut IndentWriter, node: &BusDef)
    ensures
        final(w).follows(*old(w)),
        old(w).max_line_length is None ==> final(w).buf@ == old(w).buf@ + "bus "@ + node.name.name@ + "("@ + idents_text(node.params@) + ") {\n"@,
{
    w.write_str("bus ");
    w.write_str(node.name.name.as_str());
    w.write_str("(");
    write_comma_sep_idents_maybe_wrap(w, &node.params, ") {");
    w.write_str(") {\n");
}

fn write_bus_def(w: &mut IndentWriter, node: &BusDef)
    ensures
        final(w).follows(*old(w)),
        old(w).max_line_length is None ==> final(w).buf@ == old(w).buf@ + item_text(Item::BusDef(*node), old(w).level, old(w).indent@),
{
    write_bus_header(w, node);
    let saved = w.level;
    w.indent();
    let ghost start = w.buf@;
    let mut i: usize = 0;
    while i < node.body.len()
        invariant
            i <= node.body@.len(),
            w.extends(*old(w)),
            w.level == (if saved < usize::MAX { saved + 1 } else { usize::MAX as int }),
            saved == old(w).level,
            old(w).max_line_length is None ==> start == old(w).buf@ + "bus "@ + node.name.name@ + "("@ + idents_text(
                node.params@,
            ) + ") {\n"@,
            old(w).max_line_length is None ==> w.buf@ == start + members_text(
                node.body@.subrange(0, i as int),
                next_level(saved),
                old(w).indent@,
            ),
        decreases node.body@.len() - i,
    {
        write_bus_member_no_newline(w, &node.body[i]);
        w.write_str("\n");
        proof {
            let t = node.body@.subrange(0, i + 1);
            assert(t.drop_last() =~= node.body@.subrange(0, i as int));
            assert(t.last() == node.body@[i as int]);
        }
        i += 1;
    }
    assert(node.body@.subrange(0, i as int) =~= node.body@);
    w.restore_level(saved);
    w.write_indent();
    w.write_str("}\n");
}

/// A bus member with its semicolon, without the newline.
fn write_bus_member_no_newline(w: &mut IndentWriter, node: &BusMember)
    ensures
        final(w).follows(*old(w)),
        old(w).max_line_length is None ==> final(w).buf@ + "\n"@ == old(w).buf@ + member_text(*node, old(w).level, old(w).indent@),
{
    match node {
        BusMember::Signal(s) => {
            w.write_indent();
            write_signal_decl(w, s);
            w.write_str(";");
        },
        BusMember::Bus(b) => {
            w.write_indent();
            write_bus_field_decl(w, b);
            w.write_str(";");
        },
    }
}

fn write_dimensions(w: &mut IndentWriter, dims: &Vec<Expression>)
    ensures
        final(w).follows(*old(w)),
        old(w).max_line_length is None ==> final(w).buf@ == old(w).buf@ + dims_text(dims@),
{
    let mut i: usize = 0;
    while i < dims.len()
        invariant
            i <= dims@.len(),
            w.follows(*old(w)),
            old(w).max_line_length is None ==> w.buf@ == old(w).buf@ + dims_text(dims@.subrange(0, i as int)),
        decreases dims@.len() - i,
    {
        w.write_str("[");
        write_expr(w, &dims[i]);
        w.write_str("]");
        proof {
            let t = dims@.subrange(0, i + 1);
            assert(t.drop_last() =~= dims@.subrange(0, i as int));
            assert(t.last() == dims@[i as int]);
            if old(w).max_line_length is None {
                assert(w.buf@ =~= old(w).buf@ + dims_text(t));
            }
        }
        i += 1;
    }
    assert(dims@.subrange(0, i as int) =~= dims@);
}

fn write_bus_field_decl(w: &mut IndentWriter, node: &BusFieldDecl)
    ensures
        final(w).follows(*old(w)),
        old(w).max_line_length is None ==> final(w).buf@ == old(w).buf@ + bus_field_text(*node),
{
    write_bus_type(w, &node.bus_type);
    if node.tags.len() > 0 {
        w.write_str(" {");
        write_comma_sep_idents(w, &node.tags);
        w.write_str("}");
    }
    w.write_str(" ");
    w.write_str(node.name.name.as_str());
    write_dimensions(w, &node.dimensions);
}

/// `]} = ` followed by as many spaces as the expression is wide (at most
/// twenty) and `;`: the room the rest of the line will take.
fn main_closing_hint(expr_width: usize) -> (s: String)
    ensures
        s@.len() == 6 + (if expr_width < 20 { expr_width as int } else { 20 }),
{
    let mut s = String::from_str("]} = ");
    proof {
        reveal_strlit("]} = ");
        reveal_strlit(" ");
        reveal_strlit(";");
    }
    let n = if expr_width < 20 { expr_width } else { 20 };
    let mut i: usize = 0;
    while i < n
        invariant
            i <= n,
            s@.len() == 5 + i,
        decreases n - i,
    {
        s.append(" ");
        proof {
            reveal_strlit(" ");
        }
        i += 1;
    }
    s.append(";");
    s
}

/// `component main[ {public [..]}] = <expr>;`, without the newline.
fn write_main_component_text(w: &mut IndentWriter, node: &MainComponent)
    ensures
        final(w).follows(*old(w)),
        old(w).max_line_length is None ==> final(w).buf@ == old(w).buf@ + main_text(*node),
{
    w.write_str("component main");
    if node.public_signals.len() > 0 {
        w.write_str(" {public [");
        let hint = main_closing_hint(measure_expr(&node.expr));
        write_comma_sep_idents_maybe_wrap(w, &node.public_signals, hint.as_str());
        w.write_str("]}");
    }
    w.write_str(" = ");
    write_expr(w, &node.expr);
    w.write_str(";");
}

fn write_main_component(w: &mut IndentWriter, node: &MainComponent)
    ensures
        final(w).follows(*old(w)),
        old(w).max_line_length is None ==> final(w).buf@ == old(w).buf@ + main_text(*node) + "\n"@,
{
    write_main_component_text(w, node);
    w.write_str("\n");
}

// ── The canonical text ──────────────────────────────────────────────
//
// What the printer writes when no line-length limit is set: `ind` is the
// indentation string and `level` the indentation level.

/// `level` copies of the indentation string.
pub open spec fn indent_text(level: usize, ind: Seq<char>) -> Seq<char> {
    Seq::new((level * ind.len()) as nat, |k: int| ind[k % ind.len() as int])
}

/// The level one deeper (staying at `usize::MAX`).
pub open spec fn next_level(level: usize) -> usize {
    if level < usize::MAX {
        (level + 1) as usize
    } else {
        usize::MAX
    }
}

/// Identifiers separated by `", "`.
pub open spec fn idents_text(ids: Seq<Identifier>) -> Seq<char> {
    join_seqs(ids.map_values(|id: Identifier| id.name@), ", "@)
}

/// `[d]` for each dimension.
pub open spec fn dims_text(ds: Seq<Expression>) -> Seq<char>
    decreases ds.len(),
{
    if ds.len() == 0 {
        Seq::empty()
    } else {
        dims_text(ds.drop_last()) + "["@ + expr_text(ds.last()) + "]"@
    }
}

pub open spec fn signal_kind_text(k: SignalKind) -> Seq<char> {
    match k {
        SignalKind::Input => "input "@,
        SignalKind::Output => "output "@,
        SignalKind::Intermediate => Seq::empty(),
    }
}

pub open spec fn signal_op_text(op: SignalAssignOp) -> Seq<char> {
    match op {
        SignalAssignOp::SafeLeft => " <== "@,
        SignalAssignOp::UnsafeLeft => " <-- "@,
    }
}

pub open spec fn assign_op_text(op: AssignOp) -> Seq<char> {
    match op {
        AssignOp::Eq => " = "@,
        AssignOp::SafeLeft => " <== "@,
        AssignOp::SafeRight => " ==> "@,
        AssignOp::UnsafeLeft => " <-- "@,
        AssignOp::UnsafeRight => " --> "@,
    }
}

pub open spec fn compound_op_text(op: CompoundOp) -> Seq<char> {
    match op {
        CompoundOp::AddAssign => " += "@,
        CompoundOp::SubAssign => " -= "@,
        CompoundOp::MulAssign => " *= "@,
        CompoundOp::PowAssign => " **= "@,
        CompoundOp::DivAssign => " /= "@,
        CompoundOp::IntDivAssign => " \\= "@,
        CompoundOp::ModAssign => " %= "@,
        CompoundOp::ShlAssign => " <<= "@,
        CompoundOp::ShrAssign => " >>= "@,
        CompoundOp::BitAndAssign => " &= "@,
        CompoundOp::BitOrAssign => " |= "@,
        CompoundOp::BitXorAssign => " ^= "@,
    }
}

/// `{tags} ` before the names of a declaration, when there are tags.
pub open spec fn tags_text(tags: Seq<Identifier>) -> Seq<char> {
    if tags.len() > 0 {
        "{"@ + idents_text(tags) + "} "@
    } else {
        Seq::empty()
    }
}

pub open spec fn var_entry_text(e: VarDeclEntry) -> Seq<char> {
    e.name.name@ + dims_text(e.dimensions@) + match e.init {
        Some(x) => " = "@ + expr_text(x),
        None => Seq::empty(),
    }
}

pub open spec fn var_decl_text(v: VarDecl) -> Seq<char> {
    "var "@ + join_seqs(v.names@.map_values(|e: VarDeclEntry| var_entry_text(e)), ", "@)
}

pub open spec fn signal_entry_text(e: SignalDeclEntry) -> Seq<char> {
    e.name.name@ + dims_text(e.dimensions@) + match e.init {
        Some((op, x)) => signal_op_text(op) + expr_text(x),
        None => Seq::empty(),
    }
}

pub open spec fn signal_decl_text(d: SignalDecl) -> Seq<char> {
    "signal "@ + signal_kind_text(d.kind) + tags_text(d.tags@) + join_seqs(
        d.names@.map_values(|e: SignalDeclEntry| signal_entry_text(e)),
        ", "@,
    )
}

pub open spec fn component_entry_text(e: ComponentDeclEntry) -> Seq<char> {
    e.name.name@ + dims_text(e.dimensions@) + match e.init {
        Some(x) => " = "@ + expr_text(x),
        None => Seq::empty(),
    }
}

pub open spec fn component_decl_text(c: ComponentDecl) -> Seq<char> {
    "component "@ + (if c.is_parallel {
        "parallel "@
    } else {
        Seq::empty()
    }) + join_seqs(c.names@.map_values(|e: ComponentDeclEntry| component_entry_text(e)), ", "@)
}

pub open spec fn bus_type_text(bt: BusType) -> Seq<char> {
    bt.name.name@ + if bt.args@.len() > 0 {
        "("@ + exprs_text(bt.args@) + ")"@
    } else {
        Seq::empty()
    }
}

pub open spec fn bus_instance_text(b: BusInstanceDecl) -> Seq<char> {
    bus_type_text(b.bus_type) + " "@ + signal_kind_text(b.signal_kind) + tags_text(b.tags@) + b.name.name@ + dims_text(
        b.dimensions@,
    ) + match b.init {
        Some((op, x)) => signal_op_text(op) + expr_text(x),
        None => Seq::empty(),
    }
}

pub open spec fn bus_field_text(b: BusFieldDecl) -> Seq<char> {
    bus_type_text(b.bus_type) + (if b.tags@.len() > 0 {
        " {"@ + idents_text(b.tags@) + "}"@
    } else {
        Seq::empty()
    }) + " "@ + b.name.name@ + dims_text(b.dimensions@)
}

pub open spec fn target_text(t: Option<Expression>) -> Seq<char> {
    match t {
        Some(e) => expr_text(e),
        None => "_"@,
    }
}

pub open spec fn tuple_assign_text(t: TupleAssignStmt) -> Seq<char> {
    "("@ + join_seqs(t.targets@.map_values(|x: Option<Expression>| target_text(x)), ", "@) + ")"@ + assign_op_text(t.op)
        + expr_text(t.rhs)
}

pub open spec fn log_arg_text(a: LogArg) -> Seq<char> {
    match a {
        LogArg::Expr(e) => expr_text(e),
        LogArg::String(x) => "\""@ + escaped(x@) + "\""@,
    }
}

pub open spec fn log_text(l: LogStmt) -> Seq<char> {
    "log("@ + join_seqs(l.args@.map_values(|a: LogArg| log_arg_text(a)), ", "@) + ")"@
}

/// A statement kind that prints on one line and ends with `;`.
pub open spec fn is_simple(kind: StatementKind) -> bool {
    kind is VarDecl || kind is SignalDecl || kind is ComponentDecl || kind is BusDecl || kind is Assignment
        || kind is CompoundAssign || kind is ConstraintEq || kind is TupleAssign || kind is Return || kind is Log
        || kind is Assert || kind is Increment || kind is Decrement || kind is Expression
}

/// The text of a one-line statement, without its `;`.
pub open spec fn simple_text(kind: StatementKind) -> Seq<char> {
    match kind {
        StatementKind::VarDecl(n) => var_decl_text(n),
        StatementKind::SignalDecl(n) => signal_decl_text(n),
        StatementKind::ComponentDecl(n) => component_decl_text(n),
        StatementKind::BusDecl(n) => bus_instance_text(n),
        StatementKind::Assignment(n) => expr_text(n.lhs) + assign_op_text(n.op) + expr_text(n.rhs),
        StatementKind::CompoundAssign(n) => expr_text(n.lhs) + compound_op_text(n.op) + expr_text(n.rhs),
        StatementKind::ConstraintEq(n) => expr_text(n.lhs) + " === "@ + expr_text(n.rhs),
        StatementKind::TupleAssign(n) => tuple_assign_text(n),
        StatementKind::Return(n) => "return "@ + expr_text(n.value),
        StatementKind::Log(n) => log_text(n),
        StatementKind::Assert(n) => "assert("@ + expr_text(n.expr) + ")"@,
        StatementKind::Increment(e) => expr_text(e) + "++"@,
        StatementKind::Decrement(e) => expr_text(e) + "--"@,
        StatementKind::Expression(e) => expr_text(e),
        _ => Seq::empty(),
    }
}

/// What stands in a `for` header for a statement it cannot hold.
pub open spec fn unexpected_text(kind: StatementKind) -> Seq<char> {
    "/* unexpected: "@ + debug_text(kind) + " */"@
}

pub open spec fn for_init_text(st: Statement) -> Seq<char> {
    match st.kind {
        StatementKind::VarDecl(n) => var_decl_text(n),
        StatementKind::Assignment(n) => expr_text(n.lhs) + assign_op_text(n.op) + expr_text(n.rhs),
        StatementKind::Expression(e) => expr_text(e),
        _ => unexpected_text(st.kind),
    }
}

pub open spec fn for_step_text(st: Statement) -> Seq<char> {
    match st.kind {
        StatementKind::Assignment(n) => expr_text(n.lhs) + assign_op_text(n.op) + expr_text(n.rhs),
        StatementKind::CompoundAssign(n) => expr_text(n.lhs) + compound_op_text(n.op) + expr_text(n.rhs),
        StatementKind::Increment(e) => expr_text(e) + "++"@,
        StatementKind::Decrement(e) => expr_text(e) + "--"@,
        StatementKind::Expression(e) => expr_text(e),
        _ => unexpected_text(st.kind),
    }
}

/// `{`, the statements one level deeper, and `}` at `level`.
pub open spec fn block_text(b: Block, level: usize, ind: Seq<char>) -> Seq<char>
    decreases b,
{
    "{\n"@ + stmts_text(b.stmts@, next_level(level), ind) + indent_text(level, ind) + "}"@
}

pub open spec fn stmts_text(ss: Seq<Statement>, level: usize, ind: Seq<char>) -> Seq<char>
    decreases ss,
{
    if ss.len() == 0 {
        Seq::empty()
    } else {
        stmts_text(ss.subrange(0, ss.len() - 1), level, ind) + stmt_text(ss[ss.len() - 1], level, ind)
    }
}

/// A statement on its own line(s) at `level`.
pub open spec fn stmt_text(st: Statement, level: usize, ind: Seq<char>) -> Seq<char>
    decreases st,
{
    indent_text(level, ind) + if is_simple(st.kind) {
        simple_text(st.kind) + ";\n"@
    } else {
        match st.kind {
            StatementKind::IfElse(n) => if_text(n, level, ind) + "\n"@,
            StatementKind::For(n) => for_text(n, level, ind) + "\n"@,
            StatementKind::While(n) => while_text(n, level, ind) + "\n"@,
            StatementKind::Block(b) => block_text(b, level, ind) + "\n"@,
            _ => "/* error */;\n"@,
        }
    }
}

/// `if (..) {..}`, with `else if` for an else-block that holds only an
/// `if`.
pub open spec fn if_text(n: IfElse, level: usize, ind: Seq<char>) -> Seq<char>
    decreases n,
{
    "if ("@ + expr_text(n.cond) + ") "@ + block_text(n.then_body, level, ind) + match n.else_body {
        Some(eb) => " else "@ + if eb.stmts@.len() == 1 && eb.stmts@[0].kind is IfElse {
            if_text(eb.stmts@[0].kind->IfElse_0, level, ind)
        } else {
            block_text(eb, level, ind)
        },
        None => Seq::empty(),
    }
}

pub open spec fn for_text(n: ForLoop, level: usize, ind: Seq<char>) -> Seq<char>
    decreases n,
{
    "for ("@ + for_init_text(*n.init) + "; "@ + expr_text(n.cond) + "; "@ + for_step_text(*n.step) + ") "@
        + block_text(n.body, level, ind)
}

pub open spec fn while_text(n: WhileLoop, level: usize, ind: Seq<char>) -> Seq<char>
    decreases n,
{
    "while ("@ + expr_text(n.cond) + ") "@ + block_text(n.body, level, ind)
}

pub open spec fn pragma_text(p: Pragma) -> Seq<char> {
    match p.kind {
        PragmaKind::Version(v) => "pragma circom "@ + decimal_text(v.major as nat) + "."@ + decimal_text(
            v.minor as nat,
        ) + "."@ + decimal_text(v.patch as nat) + ";"@,
        PragmaKind::CustomTemplates => "pragma custom_templates;"@,
    }
}

pub open spec fn template_header_text(t: TemplateDef) -> Seq<char> {
    (if t.is_custom {
        "custom "@
    } else {
        Seq::empty()
    }) + (if t.is_parallel {
        "parallel "@
    } else {
        Seq::empty()
    }) + "template "@ + (if t.is_extern {
        "extern "@
    } else {
        Seq::empty()
    }) + t.name.name@ + "("@ + idents_text(t.params@) + ") "@
}

pub open spec fn function_header_text(f: FunctionDef) -> Seq<char> {
    "function "@ + f.name.name@ + "("@ + idents_text(f.params@) + ") "@
}

/// A member of a bus on its own line at `level`.
pub open spec fn member_text(m: BusMember, level: usize, ind: Seq<char>) -> Seq<char> {
    indent_text(level, ind) + match m {
        BusMember::Signal(d) => signal_decl_text(d),
        BusMember::Bus(b) => bus_field_text(b),
    } + ";"@ + "\n"@
}

pub open spec fn members_text(ms: Seq<BusMember>, level: usize, ind: Seq<char>) -> Seq<char>
    decreases ms.len(),
{
    if ms.len() == 0 {
        Seq::empty()
    } else {
        members_text(ms.drop_last(), level, ind) + member_text(ms.last(), level, ind)
    }
}

pub open spec fn main_text(m: MainComponent) -> Seq<char> {
    "component main"@ + (if m.public_signals@.len() > 0 {
        " {public ["@ + idents_text(m.public_signals@) + "]}"@
    } else {
        Seq::empty()
    }) + " = "@ + expr_text(m.expr) + ";"@
}

/// A top-level item, ending with a newline.
pub open spec fn item_text(item: Item, level: usize, ind: Seq<char>) -> Seq<char> {
    match item {
        Item::Pragma(p) => pragma_text(p) + "\n"@,
        Item::Include(i) => "include \""@ + escaped(i.path@) + "\";\n"@,
        Item::TemplateDef(t) => template_header_text(t) + block_text(t.body, level, ind) + "\n"@,
        Item::FunctionDef(f) => function_header_text(f) + block_text(f.body, level, ind) + "\n"@,
        Item::BusDef(b) => "bus "@ + b.name.name@ + "("@ + idents_text(b.params@) + ") {\n"@ + members_text(
            b.body@,
            next_level(level),
            ind,
        ) + indent_text(level, ind) + "}\n"@,
        Item::MainComponent(m) => main_text(m) + "\n"@,
    }
}

/// The items of a file, separated by blank lines.
pub open spec fn items_text(items: Seq<Item>, level: usize, ind: Seq<char>) -> Seq<char> {
    join_seqs(items.map_values(|it: Item| item_text(it, level, ind)), "\n"@)
}

// ── Blocks and statements ───────────────────────────────────────────

/// If a block holds exactly one statement and it is an `IfElse`, that
/// `IfElse`: `else { if ... }` prints as `else if ...`.
fn as_single_if_else(block: &Block) -> (r: Option<&IfElse>)
    ensures
        r matches Some(inner) ==> block.stmts@.len() == 1 && block.stmts@[0].kind == StatementKind::IfElse(*inner),
        r is None ==> !(block.stmts@.len() == 1 && block.stmts@[0].kind is IfElse),
{
    if block.stmts.len() == 1 {
        match &block.stmts[0].kind {
            StatementKind::IfElse(inner) => {
                return Some(inner);
            },
            _ => {},
        }
    }
    None
}

fn write_block(w: &mut IndentWriter, node: &Block)
    ensures
        final(w).follows(*old(w)),
        old(w).max_line_length is None ==> final(w).buf@ == old(w).buf@ + block_text(*node, old(w).level, old(w).indent@),
    decreases node, 0nat,
{
    w.write_str("{\n");
    let saved = w.level;
    w.indent();
    let ghost start = w.buf@;
    let mut i: usize = 0;
    while i < node.stmts.len()
        invariant
            i <= node.stmts@.len(),
            w.extends(*old(w)),
            w.level == (if saved < usize::MAX { saved + 1 } else { usize::MAX as int }),
            saved == old(w).level,
            start == old(w).buf@ + "{\n"@,
            old(w).max_line_length is None ==> w.buf@ == start + stmts_text(
                node.stmts@.subrange(0, i as int),
                next_level(saved),
                old(w).indent@,
            ),
        decreases node.stmts@.len() - i,
    {
        assert(decreases_to!(node => node.stmts@[i as int]));
        write_statement(w, &node.stmts[i]);
        proof {
            let t = node.stmts@.subrange(0, i + 1);
            assert(t.subrange(0, t.len() - 1) =~= node.stmts@.subrange(0, i as int));
            assert(t[t.len() - 1] == node.stmts@[i as int]);
        }
        i += 1;
    }
    assert(node.stmts@.subrange(0, i as int) =~= node.stmts@);
    w.restore_level(saved);
    w.write_indent();
    w.write_str("}");
}

/// The text of a simple statement up to, not including, its `;`.
/// Returns whether the statement kind was one of them.
fn write_simple_statement(w: &mut IndentWriter, kind: &StatementKind) -> (simple: bool)
    ensures
        final(w).follows(*old(w)),
        old(w).max_line_length is None ==> final(w).buf@ == old(w).buf@ + simple_text(*kind),
        simple == is_simple(*kind),
        simple == (kind is VarDecl || kind is SignalDecl || kind is ComponentDecl || kind is BusDecl
            || kind is Assignment || kind is CompoundAssign || kind is ConstraintEq || kind is TupleAssign
            || kind is Return || kind is Log || kind is Assert || kind is Increment || kind is Decrement
            || kind is Expression),
{
    match kind {
        StatementKind::VarDecl(n) => write_var_decl(w, n),
        StatementKind::SignalDecl(n) => write_signal_decl(w, n),
        StatementKind::ComponentDecl(n) => write_component_decl(w, n),
        StatementKind::BusDecl(n) => write_bus_instance_decl(w, n),
        StatementKind::Assignment(n) => write_assign_stmt(w, n),
        StatementKind::CompoundAssign(n) => write_compound_assign_stmt(w, n),
        StatementKind::ConstraintEq(n) => write_constraint_eq_stmt(w, n),
        StatementKind::TupleAssign(n) => write_tuple_assign_stmt(w, n),
        StatementKind::Return(n) => {
            w.write_str("return ");
            write_expr(w, &n.value);
        },
        StatementKind::Log(n) => write_log_stmt(w, n),
        StatementKind::Assert(n) => {
            w.write_str("assert(");
            write_expr(w, &n.expr);
            w.write_str(")");
        },
        StatementKind::Increment(expr) => {
            write_expr(w, expr);
            w.write_str("++");
        },
        StatementKind::Decrement(expr) => {
            write_expr(w, expr);
            w.write_str("--");
        },
        StatementKind::Expression(expr) => write_expr(w, expr),
        _ => {
            assert(w.buf@ =~= old(w).buf@ + simple_text(*kind));
            return false;
        },
    }
    true
}

fn write_statement(w: &mut IndentWriter, node: &Statement)
    ensures
        final(w).follows(*old(w)),
        old(w).max_line_length is None ==> final(w).buf@ == old(w).buf@ + stmt_text(*node, old(w).level, old(w).indent@),
    decreases node, 0nat,
{
    w.write_indent();
    if write_simple_statement(w, &node.kind) {
        w.write_str(";\n");
        return;
    }
    match &node.kind {
        StatementKind::IfElse(n) => {
            write_if_else(w, n);
            w.write_str("\n");
        },
        StatementKind::For(n) => {
            write_for_loop(w, n);
            w.write_str("\n");
        },
        StatementKind::While(n) => {
            write_while_loop(w, n);
            w.write_str("\n");
        },
        StatementKind::Block(blk) => {
            write_block(w, blk);
            w.write_str("\n");
        },
        _ => w.write_str("/* error */;\n"),
    }
}

fn write_var_decl(w: &mut IndentWriter, node: &VarDecl)
    ensures
        final(w).follows(*old(w)),
        old(w).max_line_length is None ==> final(w).buf@ == old(w).buf@ + var_decl_text(*node),
{
    w.write_str("var ");
    let ghost start = w.buf@;
    let ghost f = |e: VarDeclEntry| var_entry_text(e);
    let mut i: usize = 0;
    while i < node.names.len()
        invariant
            i <= node.names@.len(),
            w.follows(*old(w)),
            start == old(w).buf@ + "var "@,
            f == (|e: VarDeclEntry| var_entry_text(e)),
            old(w).max_line_length is None ==> w.buf@ == start + join_seqs(
                node.names@.subrange(0, i as int).map_values(f),
                ", "@,
            ),
        decreases node.names@.len() - i,
    {
        let ghost b1 = w.buf@;
        if i > 0 {
            w.write_str(", ");
        }
        let ghost b2 = w.buf@;
        let entry = &node.names[i];
        w.write_str(entry.name.name.as_str());
        write_dimensions(w, &entry.dimensions);
        match &entry.init {
            Some(init) => {
                w.write_str(" = ");
                write_expr(w, init);
            },
            None => {},
        }
        proof {
            let ps = node.names@.subrange(0, i as int).map_values(f);
            assert(node.names@.subrange(0, i + 1).map_values(f) =~= ps.push(var_entry_text(*entry)));
            crate::text::lemma_join_push(ps, var_entry_text(*entry), ", "@);
            if old(w).max_line_length is None {
                assert(w.buf@ =~= b2 + var_entry_text(*entry));
            }
        }
        i += 1;
    }
    assert(node.names@.subrange(0, i as int) =~= node.names@);
}

fn write_signal_kind(w: &mut IndentWriter, kind: SignalKind)
    ensures
        final(w).follows(*old(w)),
        final(w).buf@ == old(w).buf@ + signal_kind_text(kind),
{
    match kind {
        SignalKind::Input => w.write_str("input "),
        SignalKind::Output => w.write_str("output "),
        SignalKind::Intermediate => {
            assert(w.buf@ =~= old(w).buf@ + signal_kind_text(kind));
        },
    }
}

fn write_signal_assign_op(w: &mut IndentWriter, op: SignalAssignOp)
    ensures
        final(w).follows(*old(w)),
        final(w).buf@ == old(w).buf@ + signal_op_text(op),
{
    match op {
        SignalAssignOp::SafeLeft => w.write_str(" <== "),
        SignalAssignOp::UnsafeLeft => w.write_str(" <-- "),
    }
}

fn write_signal_decl(w: &mut IndentWriter, node: &SignalDecl)
    ensures
        final(w).follows(*old(w)),
        old(w).max_line_length is None ==> final(w).buf@ == old(w).buf@ + signal_decl_text(*node),
{
    w.write_str("signal ");
    write_signal_kind(w, node.kind);
    if node.tags.len() > 0 {
        w.write_str("{");
        write_comma_sep_idents(w, &node.tags);
        w.write_str("} ");
    }
    let ghost start = w.buf@;
    assert(start =~= old(w).buf@ + "signal "@ + signal_kind_text(node.kind) + tags_text(node.tags@));
    let ghost f = |e: SignalDeclEntry| signal_entry_text(e);
    let mut i: usize = 0;
    while i < node.names.len()
        invariant
            i <= node.names@.len(),
            w.follows(*old(w)),
            start == old(w).buf@ + "signal "@ + signal_kind_text(node.kind) + tags_text(node.tags@),
            f == (|e: SignalDeclEntry| signal_entry_text(e)),
            old(w).max_line_length is None ==> w.buf@ == start + join_seqs(
                node.names@.subrange(0, i as int).map_values(f),
                ", "@,
            ),
        decreases node.names@.len() - i,
    {
        if i > 0 {
            w.write_str(", ");
        }
        let ghost b2 = w.buf@;
        let entry = &node.names[i];
        w.write_str(entry.name.name.as_str());
        write_dimensions(w, &entry.dimensions);
        match &entry.init {
            Some((op, init)) => {
                write_signal_assign_op(w, *op);
                write_expr(w, init);
            },
            None => {},
        }
        proof {
            let ps = node.names@.subrange(0, i as int).map_values(f);
            assert(node.names@.subrange(0, i + 1).map_values(f) =~= ps.push(signal_entry_text(*entry)));
            crate::text::lemma_join_push(ps, signal_entry_text(*entry), ", "@);
            if old(w).max_line_length is None {
                assert(w.buf@ =~= b2 + signal_entry_text(*entry));
            }
        }
        i += 1;
    }
    assert(node.names@.subrange(0, i as int) =~= node.names@);
}

fn write_component_decl(w: &mut IndentWriter, node: &ComponentDecl)
    ensures
        final(w).follows(*old(w)),
        old(w).max_line_length is None ==> final(w).buf@ == old(w).buf@ + component_decl_text(*node),
{
    w.write_str("component ");
    if node.is_parallel {
        w.write_str("parallel ");
    }
    let ghost start = w.buf@;
    let ghost par: Seq<char> = if node.is_parallel {
        "parallel "@
    } else {
        Seq::empty()
    };
    assert(start =~= old(w).buf@ + "component "@ + par);
    let ghost f = |e: ComponentDeclEntry| component_entry_text(e);
    let mut i: usize = 0;
    while i < node.names.len()
        invariant
            i <= node.names@.len(),
            w.follows(*old(w)),
            start == old(w).buf@ + "component "@ + par,
            f == (|e: ComponentDeclEntry| component_entry_text(e)),
            old(w).max_line_length is None ==> w.buf@ == start + join_seqs(
                node.names@.subrange(0, i as int).map_values(f),
                ", "@,
            ),
        decreases node.names@.len() - i,
    {
        if i > 0 {
            w.write_str(", ");
        }
        let ghost b2 = w.buf@;
        let entry = &node.names[i];
        w.write_str(entry.name.name.as_str());
        write_dimensions(w, &entry.dimensions);
        match &entry.init {
            Some(init) => {
                w.write_str(" = ");
                write_expr(w, init);
            },
            None => {},
        }
        proof {
            let ps = node.names@.subrange(0, i as int).map_values(f);
            assert(node.names@.subrange(0, i + 1).map_values(f) =~= ps.push(component_entry_text(*entry)));
            crate::text::lemma_join_push(ps, component_entry_text(*entry), ", "@);
            if old(w).max_line_length is None {
                assert(w.buf@ =~= b2 + component_entry_text(*entry));
            }
        }
        i += 1;
    }
    assert(node.names@.subrange(0, i as int) =~= node.names@);
}

fn write_bus_instance_decl(w: &mut IndentWriter, node: &BusInstanceDecl)
    ensures
        final(w).follows(*old(w)),
        old(w).max_line_length is None ==> final(w).buf@ == old(w).buf@ + bus_instance_text(*node),
{
    write_bus_type(w, &node.bus_type);
    w.write_str(" ");
    write_signal_kind(w, node.signal_kind);
    if node.tags.len() > 0 {
        w.write_str("{");
        write_comma_sep_idents(w, &node.tags);
        w.write_str("} ");
    }
    w.write_str(node.name.name.as_str());
    write_dimensions(w, &node.dimensions);
    match &node.init {
        Some((op, init)) => {
            write_signal_assign_op(w, *op);
            write_expr(w, init);
        },
        None => {},
    }
    proof {
        if old(w).max_line_length is None {
            assert(w.buf@ =~= old(w).buf@ + bus_instance_text(*node));
        }
    }
}

fn write_bus_type(w: &mut IndentWriter, node: &BusType)
    ensures
        final(w).follows(*old(w)),
        old(w).max_line_length is None ==> final(w).buf@ == old(w).buf@ + bus_type_text(*node),
{
    w.write_str(node.name.name.as_str());
    if node.args.len() > 0 {
        w.write_str("(");
        write_comma_sep_exprs_maybe_wrap(w, &node.args, ")");
        w.write_str(")");
    }
}

fn assign_op_str(op: AssignOp) -> (r: &'static str)
    ensures
        r@ == assign_op_text(op),
{
    match op {
        AssignOp::Eq => " = ",
        AssignOp::SafeLeft => " <== ",
        AssignOp::SafeRight => " ==> ",
        AssignOp::UnsafeLeft => " <-- ",
        AssignOp::UnsafeRight => " --> ",
    }
}

fn compound_op_str(op: CompoundOp) -> (r: &'static str)
    ensures
        r@ == compound_op_text(op),
{
    match op {
        CompoundOp::AddAssign => " += ",
        CompoundOp::SubAssign => " -= ",
        CompoundOp::MulAssign => " *= ",
        CompoundOp::PowAssign => " **= ",
        CompoundOp::DivAssign => " /= ",
        CompoundOp::IntDivAssign => " \\= ",
        CompoundOp::ModAssign => " %= ",
        CompoundOp::ShlAssign => " <<= ",
        CompoundOp::ShrAssign => " >>= ",
        CompoundOp::BitAndAssign => " &= ",
        CompoundOp::BitOrAssign => " |= ",
        CompoundOp::BitXorAssign => " ^= ",
    }
}

fn write_assign_stmt(w: &mut IndentWriter, node: &AssignStmt)
    ensures
        final(w).follows(*old(w)),
        old(w).max_line_length is None ==> final(w).buf@ == old(w).buf@ + expr_text(node.lhs) + assign_op_text(node.op) + expr_text(
            node.rhs,
        ),
{
    write_expr(w, &node.lhs);
    w.write_str(assign_op_str(node.op));
    write_expr(w, &node.rhs);
}

fn write_compound_assign_stmt(w: &mut IndentWriter, node: &CompoundAssignStmt)
    ensures
        final(w).follows(*old(w)),
        old(w).max_line_length is None ==> final(w).buf@ == old(w).buf@ + expr_text(node.lhs) + compound_op_text(node.op) + expr_text(
            node.rhs,
        ),
{
    write_expr(w, &node.lhs);
    w.write_str(compound_op_str(node.op));
    write_expr(w, &node.rhs);
}

fn write_constraint_eq_stmt(w: &mut IndentWriter, node: &ConstraintEqStmt)
    ensures
        final(w).follows(*old(w)),
        old(w).max_line_length is None ==> final(w).buf@ == old(w).buf@ + expr_text(node.lhs) + " === "@ + expr_text(
            node.rhs,
        ),
{
    write_expr(w, &node.lhs);
    w.write_str(" === ");
    write_expr(w, &node.rhs);
}

fn write_tuple_assign_stmt(w: &mut IndentWriter, node: &TupleAssignStmt)
    ensures
        final(w).follows(*old(w)),
        old(w).max_line_length is None ==> final(w).buf@ == old(w).buf@ + tuple_assign_text(*node),
{
    w.write_str("(");
    let ghost start = w.buf@;
    let ghost f = |x: Option<Expression>| target_text(x);
    let mut i: usize = 0;
    while i < node.targets.len()
        invariant
            i <= node.targets@.len(),
            w.follows(*old(w)),
            start == old(w).buf@ + "("@,
            f == (|x: Option<Expression>| target_text(x)),
            old(w).max_line_length is None ==> w.buf@ == start + join_seqs(
                node.targets@.subrange(0, i as int).map_values(f),
                ", "@,
            ),
        decreases node.targets@.len() - i,
    {
        if i > 0 {
            w.write_str(", ");
        }
        let ghost b2 = w.buf@;
        match &node.targets[i] {
            Some(expr) => write_expr(w, expr),
            None => w.write_str("_"),
        }
        proof {
            let t = node.targets@[i as int];
            let ps = node.targets@.subrange(0, i as int).map_values(f);
            assert(node.targets@.subrange(0, i + 1).map_values(f) =~= ps.push(target_text(t)));
            crate::text::lemma_join_push(ps, target_text(t), ", "@);
            if old(w).max_line_length is None {
                assert(w.buf@ =~= b2 + target_text(t));
            }
        }
        i += 1;
    }
    assert(node.targets@.subrange(0, i as int) =~= node.targets@);
    w.write_str(")");
    w.write_str(assign_op_str(node.op));
    write_expr(w, &node.rhs);
}

fn write_if_else(w: &mut IndentWriter, node: &IfElse)
    ensures
        final(w).follows(*old(w)),
        old(w).max_line_length is None ==> final(w).buf@ == old(w).buf@ + if_text(*node, old(w).level, old(w).indent@),
    decreases node, 0nat,
{
    w.write_str("if (");
    write_expr(w, &node.cond);
    w.write_str(") ");
    write_block(w, &node.then_body);
    match &node.else_body {
        Some(else_body) => {
            w.write_str(" else ");
            match as_single_if_else(else_body) {
                Some(inner_if) => {
                    assert(decreases_to!(node => else_body.stmts@[0]));
                    let ghost st = else_body.stmts@[0];
                    assert(decreases_to!(st => st.kind));
                    assert(st.kind == StatementKind::IfElse(*inner_if));
                    assert(decreases_to!(st.kind => st.kind->IfElse_0));
                    assert(decreases_to!(node => *inner_if));
                    write_if_else(w, inner_if);
                },
                None => write_block(w, else_body),
            }
        },
        None => {},
    }
    proof {
        if old(w).max_line_length is None {
            assert(w.buf@ =~= old(w).buf@ + if_text(*node, old(w).level, old(w).indent@));
        }
    }
}

fn write_for_loop(w: &mut IndentWriter, node: &ForLoop)
    ensures
        final(w).follows(*old(w)),
        old(w).max_line_length is None ==> final(w).buf@ == old(w).buf@ + for_text(*node, old(w).level, old(w).indent@),
    decreases node, 0nat,
{
    w.write_str("for (");
    write_for_init(w, &node.init);
    w.write_str("; ");
    write_expr(w, &node.cond);
    w.write_str("; ");
    write_for_step(w, &node.step);
    w.write_str(") ");
    write_block(w, &node.body);
}


fn write_unexpected(w: &mut IndentWriter, kind: &StatementKind)
    ensures
        final(w).follows(*old(w)),
        final(w).buf@ == old(w).buf@ + unexpected_text(*kind),
{
    let text = statement_kind_debug(kind);
    w.write_str("/* unexpected: ");
    w.write_str(text.as_str());
    w.write_str(" */");
}

fn write_for_init(w: &mut IndentWriter, stmt: &Statement)
    ensures
        final(w).follows(*old(w)),
        old(w).max_line_length is None ==> final(w).buf@ == old(w).buf@ + for_init_text(*stmt),
{
    match &stmt.kind {
        StatementKind::VarDecl(n) => write_var_decl(w, n),
        StatementKind::Assignment(n) => write_assign_stmt(w, n),
        StatementKind::Expression(expr) => write_expr(w, expr),
        other => write_unexpected(w, other),
    }
}

fn write_for_step(w: &mut IndentWriter, stmt: &Statement)
    ensures
        final(w).follows(*old(w)),
        old(w).max_line_length is None ==> final(w).buf@ == old(w).buf@ + for_step_text(*stmt),
{
    match &stmt.kind {
        StatementKind::Assignment(n) => write_assign_stmt(w, n),
        StatementKind::CompoundAssign(n) => write_compound_assign_stmt(w, n),
        StatementKind::Increment(expr) => {
            write_expr(w, expr);
            w.write_str("++");
        },
        StatementKind::Decrement(expr) => {
            write_expr(w, expr);
            w.write_str("--");
        },
        StatementKind::Expression(expr) => write_expr(w, expr),
        other => write_unexpected(w, other),
    }
}

fn write_while_loop(w: &mut IndentWriter, node: &WhileLoop)
    ensures
        final(w).follows(*old(w)),
        old(w).max_line_length is None ==> final(w).buf@ == old(w).buf@ + while_text(*node, old(w).level, old(w).indent@),
    decreases node, 0nat,
{
    w.write_str("while (");
    write_expr(w, &node.cond);
    w.write_str(") ");
    write_block(w, &node.body);
}

fn write_log_stmt(w: &mut IndentWriter, node: &LogStmt)
    ensures
        final(w).follows(*old(w)),
        old(w).max_line_length is None ==> final(w).buf@ == old(w).buf@ + log_text(*node),
{
    w.write_str("log(");
    let ghost start = w.buf@;
    let ghost f = |a: LogArg| log_arg_text(a);
    let mut i: usize = 0;
    while i < node.args.len()
        invariant
            i <= node.args@.len(),
            w.follows(*old(w)),
            start == old(w).buf@ + "log("@,
            f == (|a: LogArg| log_arg_text(a)),
            old(w).max_line_length is None ==> w.buf@ == start + join_seqs(
                node.args@.subrange(0, i as int).map_values(f),
                ", "@,
            ),
        decreases node.args@.len() - i,
    {
        if i > 0 {
            w.write_str(", ");
        }
        let ghost b2 = w.buf@;
        match &node.args[i] {
            LogArg::Expr(expr) => write_expr(w, expr),
            LogArg::String(s) => {
                w.write_str("\"");
                write_escaped_str(w, s.as_str());
                w.write_str("\"");
            },
        }
        proof {
            let t = node.args@[i as int];
            let ps = node.args@.subrange(0, i as int).map_values(f);
            assert(node.args@.subrange(0, i + 1).map_values(f) =~= ps.push(log_arg_text(t)));
            crate::text::lemma_join_push(ps, log_arg_text(t), ", "@);
            if old(w).max_line_length is None {
                assert(w.buf@ =~= b2 + log_arg_text(t));
            }
        }
        i += 1;
    }
    assert(node.args@.subrange(0, i as int) =~= node.args@);
    w.write_str(")");
}

// ── Whole files ─────────────────────────────────────────────────────

fn write_items(w: &mut IndentWriter, file: &File)
    ensures
        final(w).follows(*old(w)),
        old(w).max_line_length is None ==> final(w).buf@ == old(w).buf@ + items_text(file.items@, old(w).level, old(w).indent@),
{
    let ghost f = |it: Item| item_text(it, old(w).level, old(w).indent@);
    let mut i: usize = 0;
    while i < file.items.len()
        invariant
            i <= file.items@.len(),
            w.follows(*old(w)),
            f == (|it: Item| item_text(it, old(w).level, old(w).indent@)),
            old(w).max_line_length is None ==> w.buf@ == old(w).buf@ + join_seqs(
                file.items@.subrange(0, i as int).map_values(f),
                "\n"@,
            ),
        decreases file.items@.len() - i,
    {
        if i > 0 {
            w.write_str("\n");
        }
        let ghost b2 = w.buf@;
        write_item(w, &file.items[i]);
        proof {
            let t = file.items@[i as int];
            let ps = file.items@.subrange(0, i as int).map_values(f);
            assert(file.items@.subrange(0, i + 1).map_values(f) =~= ps.push(f(t)));
            crate::text::lemma_join_push(ps, f(t), "\n"@);
        }
        i += 1;
    }
    assert(file.items@.subrange(0, i as int) =~= file.items@);
}

impl File {
    /// The canonical Circom source of the file, indented by four spaces
    /// per level and never wrapped.
    pub fn to_string(&self) -> (r: String)
        ensures
            r@ == items_text(self.items@, 0, seq![' ', ' ', ' ', ' ']),
    {
        let mut w = IndentWriter::new();
        write_items(&mut w, self);
        w.buf
    }
}

/// Format a parsed file using the given configuration.
pub fn format_with_config(file: &File, config: &FormatConfig) -> (r: String)
    ensures
        config.max_line_length is None ==> r@ == items_text(file.items@, 0, config.indent@),
{
    let mut w = IndentWriter::with_config(config);
    write_items(&mut w, file);
    w.buf
}


// ── Comments ────────────────────────────────────────────────────────

/// Unicode `White_Space`, the property `char::is_whitespace` tests.
pub open spec fn is_unicode_whitespace(c: char) -> bool {
    ||| ('\t' <= c && c <= '\r')
    ||| c == ' '
    ||| c == '\u{85}'
    ||| c == '\u{A0}'
    ||| c == '\u{1680}'
    ||| ('\u{2000}' <= c && c <= '\u{200A}')
    ||| c == '\u{2028}'
    ||| c == '\u{2029}'
    ||| c == '\u{202F}'
    ||| c == '\u{205F}'
    ||| c == '\u{3000}'
}

fn is_whitespace_char(c: char) -> (r: bool)
    ensures
        r == is_unicode_whitespace(c),
{
    ('\t' <= c && c <= '\r') || c == ' ' || c == '\u{85}' || c == '\u{A0}' || c == '\u{1680}' || (
    '\u{2000}' <= c && c <= '\u{200A}') || c == '\u{2028}' || c == '\u{2029}' || c == '\u{202F}'
        || c == '\u{205F}' || c == '\u{3000}'
}

/// The length in bytes of the whitespace character that `b[j..]` starts
/// with, or 0 when it starts with another character.
fn whitespace_len_at(b: &[u8], j: usize) -> (n: usize)
    requires
        j < b@.len(),
    ensures
        n <= b@.len() - j,
        n == ws_len(b@, j as int),
{
    let c = b[j];
    let rest = b.len() - j;
    if c == 32u8 || (9u8 <= c && c <= 13u8) {
        1
    } else if c == 0xC2u8 && rest >= 2 && (b[j + 1] == 0x85u8 || b[j + 1] == 0xA0u8) {
        2
    } else if c == 0xE1u8 && rest >= 3 && b[j + 1] == 0x9Au8 && b[j + 2] == 0x80u8 {
        3
    } else if c == 0xE2u8 && rest >= 3 && b[j + 1] == 0x80u8 && ((0x80u8 <= b[j + 2] && b[j + 2]
        <= 0x8Au8) || b[j + 2] == 0xA8u8 || b[j + 2] == 0xA9u8 || b[j + 2] == 0xAFu8) {
        3
    } else if c == 0xE2u8 && rest >= 3 && b[j + 1] == 0x81u8 && b[j + 2] == 0x9Fu8 {
        3
    } else if c == 0xE3u8 && rest >= 3 && b[j + 1] == 0x80u8 && b[j + 2] == 0x80u8 {
        3
    } else {
        0
    }
}

/// The length in bytes of the UTF-8 encoding of a `White_Space`
/// character that `b[j..]` starts with, or 0.
pub open spec fn ws_len(b: Seq<u8>, j: int) -> int {
    let c = b[j];
    let rest = b.len() - j;
    let c1 = byte_at(b, j + 1);
    let c2 = byte_at(b, j + 2);
    if c == 32 || (9 <= c && c <= 13) {
        1
    } else if c == 0xC2 && rest >= 2 && (c1 == 0x85 || c1 == 0xA0) {
        2
    } else if c == 0xE1 && rest >= 3 && c1 == 0x9A && c2 == 0x80 {
        3
    } else if c == 0xE2 && rest >= 3 && c1 == 0x80 && ((0x80 <= c2 && c2 <= 0x8A) || c2 == 0xA8 || c2 == 0xA9 || c2
        == 0xAF) {
        3
    } else if c == 0xE2 && rest >= 3 && c1 == 0x81 && c2 == 0x9F {
        3
    } else if c == 0xE3 && rest >= 3 && c1 == 0x80 && c2 == 0x80 {
        3
    } else {
        0
    }
}

/// `b[j]`, or 0 past the end.
pub open spec fn byte_at(b: Seq<u8>, j: int) -> u8 {
    if 0 <= j < b.len() {
        b[j]
    } else {
        0
    }
}

/// Where the line holding offset `s` starts.
pub open spec fn line_start_of(b: Seq<u8>, s: int) -> int
    decreases s,
{
    if s <= 0 || s > b.len() || b[s - 1] == 10 {
        s
    } else {
        line_start_of(b, s - 1)
    }
}

/// Something other than whitespace lies in `b[j..s]`.
pub open spec fn code_in(b: Seq<u8>, j: int, s: int) -> bool
    decreases s - j,
{
    if j >= s || j < 0 || j >= b.len() {
        false
    } else if ws_len(b, j) == 0 {
        true
    } else {
        code_in(b, if ws_len(b, j) <= s - j { j + ws_len(b, j) } else { s }, s)
    }
}

/// Code precedes the comment on its line: the comment trails a statement.
pub open spec fn trails_code(b: Seq<u8>, c: Comment) -> bool {
    let st = if c.span.start <= b.len() { c.span.start as int } else { b.len() as int };
    code_in(b, line_start_of(b, st), st)
}

/// Whether code precedes the comment on its line, i.e. the comment
/// trails a statement.
fn is_trailing_comment(source: &str, comment: &Comment) -> (r: bool)
    ensures
        r == trails_code(source.spec_bytes(), *comment),
{
    let b = source.as_bytes();
    let start = if comment.span.start <= b.len() { comment.span.start } else { b.len() };
    let mut line_start = start;
    while line_start > 0 && b[line_start - 1] != 10u8
        invariant
            line_start <= start <= b@.len(),
            line_start_of(b@, start as int) == line_start_of(b@, line_start as int),
        decreases line_start,
    {
        line_start -= 1;
    }
    let mut j = line_start;
    while j < start
        invariant
            line_start <= j <= start <= b@.len(),
            b@ == source.spec_bytes(),
            trails_code(b@, *comment) == code_in(b@, j as int, start as int),
        decreases start - j,
    {
        let n = whitespace_len_at(b, j);
        if n == 0 {
            return true;
        }
        j = if n <= start - j { j + n } else { start };
    }
    false
}

/// `t` without its leading whitespace.
pub open spec fn trim_start_text(t: Seq<char>) -> Seq<char>
    decreases t.len(),
{
    if t.len() > 0 && is_unicode_whitespace(t[0]) {
        trim_start_text(t.drop_first())
    } else {
        t
    }
}

/// `text` without its leading whitespace.
pub(crate) fn trim_start(text: &str) -> (r: &str)
    ensures
        exists|k: int| 0 <= k <= text@.len() && r@ == text@.subrange(k, text@.len() as int),
        r@.len() > 0 ==> !is_unicode_whitespace(r@[0]),
        r@ == trim_start_text(text@),
{
    let n = text.unicode_len();
    let mut k: usize = 0;
    assert(text@.subrange(0, n as int) =~= text@);
    while k < n && is_whitespace_char(text.get_char(k))
        invariant
            k <= n,
            n == text@.len(),
            trim_start_text(text@) == trim_start_text(text@.subrange(k as int, n as int)),
        decreases n - k,
    {
        assert(text@.subrange(k as int, n as int).drop_first() =~= text@.subrange(k + 1, n as int));
        k += 1;
    }
    text.substring_char(k, n)
}

/// One line of a comment as written: the first after the indentation,
/// each later one on a new line after the indentation and, when it holds
/// more than whitespace, one space before its text without leading
/// whitespace.
pub open spec fn comment_line_text(line: Seq<char>, first: bool, level: usize, ind: Seq<char>) -> Seq<char> {
    if first {
        indent_text(level, ind) + line
    } else {
        seq!['\n'] + indent_text(level, ind) + if trim_start_text(line).len() > 0 {
            seq![' '] + trim_start_text(line)
        } else {
            Seq::empty()
        }
    }
}

/// A comment as written, from byte `i` of its text on, the current line
/// starting at byte `start`: each line of it by [`comment_line_text`].
pub open spec fn comment_text_from(bytes: Seq<u8>, start: int, i: int, level: usize, ind: Seq<char>) -> Seq<char>
    decreases bytes.len() - i,
{
    if i < 0 || i >= bytes.len() {
        comment_line_text(decode_utf8(bytes.subrange(start, bytes.len() as int)), start == 0, level, ind)
    } else if bytes[i] == 10 {
        comment_line_text(decode_utf8(bytes.subrange(start, i)), start == 0, level, ind) + comment_text_from(
            bytes,
            i + 1,
            i + 1,
            level,
            ind,
        )
    } else {
        comment_text_from(bytes, start, i + 1, level, ind)
    }
}

/// The position `end` clamped to the source.
pub open spec fn clamp_to(src: Seq<u8>, end: int) -> int {
    if end <= src.len() {
        end
    } else {
        src.len() as int
    }
}

/// The comment at `k`, written after a node ending at `end` when it trails
/// code on the node's line, and the index after it.
pub open spec fn trailing_step(cs: Seq<Comment>, src: Seq<u8>, k: int, end: int) -> (Seq<char>, int) {
    if 0 <= k < cs.len() && newlines_before(src, clamp_to(src, end)) == newlines_before(
        src,
        clamp_to(src, cs[k].span.start as int),
    ) && trails_code(src, cs[k]) {
        (seq![' '] + cs[k].text@, k + 1)
    } else {
        (Seq::empty(), k)
    }
}

/// A member of a bus at `level`, without its newline.
pub open spec fn member_line(m: BusMember, level: usize, ind: Seq<char>) -> Seq<char> {
    indent_text(level, ind) + match m {
        BusMember::Signal(d) => signal_decl_text(d),
        BusMember::Bus(b) => bus_field_text(b),
    } + ";"@
}

/// The comments from `k` on, each on its own line at `level`.
pub open spec fn remaining_from(cs: Seq<Comment>, k: int, level: usize, ind: Seq<char>) -> Seq<char>
    decreases cs.len() - k,
{
    if 0 <= k < cs.len() {
        indent_text(level, ind) + cs[k].text@ + "\n"@ + remaining_from(cs, k + 1, level, ind)
    } else {
        Seq::empty()
    }
}

/// The items of a file with their comments, separated by blank lines,
/// and the index of the next comment.
pub open spec fn items_trivia(cs: Seq<Comment>, src: Seq<u8>, k: int, items: Seq<Item>, ind: Seq<char>) -> (Seq<char>, int)
    decreases items.len(),
{
    if items.len() == 0 {
        (Seq::empty(), k)
    } else {
        let (t1, k1) = items_trivia(cs, src, k, items.drop_last(), ind);
        let sep = if items.len() > 1 {
            "\n"@
        } else {
            Seq::empty()
        };
        let (t2, k2) = item_trivia(cs, src, k1, items.last(), 0, ind);
        (t1 + sep + t2, k2)
    }
}

/// A file printed with the comments `cs` of its source: the items with
/// their comments, then the comments after the last item.
pub open spec fn trivia_file_text(cs: Seq<Comment>, src: Seq<u8>, items: Seq<Item>, ind: Seq<char>) -> Seq<char> {
    let (t, k) = items_trivia(cs, src, 0, items, ind);
    t + remaining_from(cs, k, 0, ind)
}

/// Texts equal once each has the same text after it are equal.
proof fn lemma_drop_common_suffix(a: Seq<char>, b: Seq<char>, c: Seq<char>)
    requires
        a + c == b + c,
    ensures
        a == b,
{
    assert((a + c).len() == a.len() + c.len());
    assert((b + c).len() == b.len() + c.len());
    assert((a + c).len() == (b + c).len());
    assert(a.len() == b.len());
    assert forall|j: int| 0 <= j < a.len() implies a[j] == b[j] by {
        assert((a + c)[j] == a[j]);
        assert((b + c)[j] == b[j]);
    }
    assert(a =~= b);
}

/// The span of a bus member.
pub open spec fn bus_member_span_of(m: BusMember) -> Span {
    match m {
        BusMember::Signal(d) => d.span,
        BusMember::Bus(d) => d.span,
    }
}

/// A statement at `level` with the comments from `k` on around it: the
/// leading ones before it, the one trailing it after it; and the index
/// of the next comment.
pub open spec fn stmt_trivia(cs: Seq<Comment>, src: Seq<u8>, k: int, st: Statement, level: usize, ind: Seq<char>) -> (
    Seq<char>,
    int,
)
    decreases st,
{
    let (t0, k0) = leading_from(cs, src, k, st.span.start as int, level, ind);
    let i0 = indent_text(level, ind);
    if is_simple(st.kind) {
        let (t1, k1) = trailing_step(cs, src, k0, st.span.end as int);
        (t0 + i0 + simple_text(st.kind) + ";"@ + t1 + "\n"@, k1)
    } else {
        match st.kind {
            StatementKind::IfElse(n) => {
                let (t1, k1) = if_trivia(cs, src, k0, n, level, ind);
                let (t2, k2) = trailing_step(cs, src, k1, st.span.end as int);
                (t0 + i0 + t1 + t2 + "\n"@, k2)
            },
            StatementKind::For(n) => {
                let (t1, k1) = for_trivia(cs, src, k0, n, level, ind);
                let (t2, k2) = trailing_step(cs, src, k1, st.span.end as int);
                (t0 + i0 + t1 + t2 + "\n"@, k2)
            },
            StatementKind::While(n) => {
                let (t1, k1) = while_trivia(cs, src, k0, n, level, ind);
                let (t2, k2) = trailing_step(cs, src, k1, st.span.end as int);
                (t0 + i0 + t1 + t2 + "\n"@, k2)
            },
            StatementKind::Block(b) => {
                let (t1, k1) = block_trivia(cs, src, k0, b, level, ind);
                let (t2, k2) = trailing_step(cs, src, k1, st.span.end as int);
                (t0 + i0 + t1 + t2 + "\n"@, k2)
            },
            _ => (t0 + i0 + "/* error */;\n"@, k0),
        }
    }
}

/// Statements one after another, each by [`stmt_trivia`].
pub open spec fn stmts_trivia(cs: Seq<Comment>, src: Seq<u8>, k: int, ss: Seq<Statement>, level: usize, ind: Seq<char>) -> (
    Seq<char>,
    int,
)
    decreases ss,
{
    if ss.len() == 0 {
        (Seq::empty(), k)
    } else {
        let (t1, k1) = stmts_trivia(cs, src, k, ss.subrange(0, ss.len() - 1), level, ind);
        let (t2, k2) = stmt_trivia(cs, src, k1, ss[ss.len() - 1], level, ind);
        (t1 + t2, k2)
    }
}

/// A block closing at `level` with its comments: the statements one level
/// deeper, then the comments before the closing brace.
pub open spec fn block_trivia(cs: Seq<Comment>, src: Seq<u8>, k: int, b: Block, level: usize, ind: Seq<char>) -> (
    Seq<char>,
    int,
)
    decreases b,
{
    let inner = next_level(level);
    let (t1, k1) = stmts_trivia(cs, src, k, b.stmts@, inner, ind);
    let (t2, k2) = leading_from(cs, src, k1, b.span.end as int, inner, ind);
    ("{\n"@ + t1 + t2 + indent_text(level, ind) + "}"@, k2)
}

/// `if (..) {..}` with its comments, an else-block that holds only an
/// `if` printed as `else if`.
pub open spec fn if_trivia(cs: Seq<Comment>, src: Seq<u8>, k: int, n: IfElse, level: usize, ind: Seq<char>) -> (
    Seq<char>,
    int,
)
    decreases n,
{
    let (tb, k1) = block_trivia(cs, src, k, n.then_body, level, ind);
    let head = "if ("@ + expr_text(n.cond) + ") "@ + tb;
    match n.else_body {
        Some(eb) => if eb.stmts@.len() == 1 && eb.stmts@[0].kind is IfElse {
            let (te, k2) = if_trivia(cs, src, k1, eb.stmts@[0].kind->IfElse_0, level, ind);
            (head + " else "@ + te, k2)
        } else {
            let (te, k2) = block_trivia(cs, src, k1, eb, level, ind);
            (head + " else "@ + te, k2)
        },
        None => (head, k1),
    }
}

/// `for (..) {..}` with its comments.
pub open spec fn for_trivia(cs: Seq<Comment>, src: Seq<u8>, k: int, n: ForLoop, level: usize, ind: Seq<char>) -> (
    Seq<char>,
    int,
)
    decreases n,
{
    let (tb, k1) = block_trivia(cs, src, k, n.body, level, ind);
    ("for ("@ + for_init_text(*n.init) + "; "@ + expr_text(n.cond) + "; "@ + for_step_text(*n.step) + ") "@ + tb, k1)
}

/// `while (..) {..}` with its comments.
pub open spec fn while_trivia(cs: Seq<Comment>, src: Seq<u8>, k: int, n: WhileLoop, level: usize, ind: Seq<char>) -> (
    Seq<char>,
    int,
)
    decreases n,
{
    let (tb, k1) = block_trivia(cs, src, k, n.body, level, ind);
    ("while ("@ + expr_text(n.cond) + ") "@ + tb, k1)
}

/// The members of a bus at `level`, each on its own line with its leading
/// and trailing comments.
pub open spec fn members_trivia(cs: Seq<Comment>, src: Seq<u8>, k: int, ms: Seq<BusMember>, level: usize, ind: Seq<char>) -> (
    Seq<char>,
    int,
)
    decreases ms.len(),
{
    if ms.len() == 0 {
        (Seq::empty(), k)
    } else {
        let (t1, k1) = members_trivia(cs, src, k, ms.drop_last(), level, ind);
        let m = ms.last();
        let (t2, k2) = leading_from(cs, src, k1, bus_member_span_of(m).start as int, level, ind);
        let (t3, k3) = trailing_step(cs, src, k2, bus_member_span_of(m).end as int);
        (t1 + t2 + member_line(m, level, ind) + t3 + "\n"@, k3)
    }
}

/// A bus definition at `level` with its comments.
pub open spec fn bus_trivia(cs: Seq<Comment>, src: Seq<u8>, k: int, b: BusDef, level: usize, ind: Seq<char>) -> (
    Seq<char>,
    int,
) {
    let inner = next_level(level);
    let (t1, k1) = members_trivia(cs, src, k, b.body@, inner, ind);
    let (t2, k2) = leading_from(cs, src, k1, b.span.end as int, inner, ind);
    (
        "bus "@ + b.name.name@ + "("@ + idents_text(b.params@) + ") {\n"@ + t1 + t2 + indent_text(level, ind) + "}\n"@,
        k2,
    )
}

/// A top-level item at `level` with the comments before it and, for a
/// one-line item, the one trailing it.
pub open spec fn item_trivia(cs: Seq<Comment>, src: Seq<u8>, k: int, item: Item, level: usize, ind: Seq<char>) -> (
    Seq<char>,
    int,
) {
    let (t0, k0) = leading_from(cs, src, k, crate::ast::spec_item_span(item).start as int, level, ind);
    match item {
        Item::Pragma(n) => {
            let (t1, k1) = trailing_step(cs, src, k0, n.span.end as int);
            (t0 + pragma_text(n) + t1 + "\n"@, k1)
        },
        Item::Include(n) => {
            let (t1, k1) = trailing_step(cs, src, k0, n.span.end as int);
            (t0 + "include \""@ + escaped(n.path@) + "\";"@ + t1 + "\n"@, k1)
        },
        Item::TemplateDef(n) => {
            let (t1, k1) = block_trivia(cs, src, k0, n.body, level, ind);
            (t0 + template_header_text(n) + t1 + "\n"@, k1)
        },
        Item::FunctionDef(n) => {
            let (t1, k1) = block_trivia(cs, src, k0, n.body, level, ind);
            (t0 + function_header_text(n) + t1 + "\n"@, k1)
        },
        Item::BusDef(n) => {
            let (t1, k1) = bus_trivia(cs, src, k0, n, level, ind);
            (t0 + t1, k1)
        },
        Item::MainComponent(n) => {
            let (t1, k1) = trailing_step(cs, src, k0, n.span.end as int);
            (t0 + main_text(n) + t1 + "\n"@, k1)
        },
    }
}

/// The comments from `k` on that start before `before`, as written, and
/// the index after them: each that does not trail code, on its own lines.
pub open spec fn leading_from(
    cs: Seq<Comment>,
    src: Seq<u8>,
    k: int,
    before: int,
    level: usize,
    ind: Seq<char>,
) -> (Seq<char>, int)
    decreases cs.len() - k,
{
    if 0 <= k < cs.len() && cs[k].span.start < before {
        let t = if !trails_code(src, cs[k]) {
            comment_text_from(encode_utf8(cs[k].text@), 0, 0, level, ind) + seq!['\n']
        } else {
            Seq::empty()
        };
        let (rest, k2) = leading_from(cs, src, k + 1, before, level, ind);
        (t + rest, k2)
    } else {
        (Seq::empty(), k)
    }
}

/// Writes and consumes the comments of a source while a file is printed.
struct TriviaFormatter {
    w: IndentWriter,
    /// Index of the next comment to emit.
    cursor: usize,
}

impl TriviaFormatter {
    spec fn follows(self, prev: TriviaFormatter) -> bool {
        self.w.follows(prev.w) && prev.cursor <= self.cursor
    }

    /// Emit all leading comments whose span starts before `before_pos`.
    /// A comment that trails code is skipped: it belongs to its statement.
    fn emit_leading_comments(&mut self, comments: &Vec<Comment>, source: &str, before_pos: usize)
        ensures
            final(self).follows(*old(self)),
            old(self).cursor <= comments@.len() ==> final(self).cursor <= comments@.len(),
            ({
                let (t, k) = leading_from(
                    comments@,
                    source.spec_bytes(),
                    old(self).cursor as int,
                    before_pos as int,
                    old(self).w.level,
                    old(self).w.indent@,
                );
                final(self).w.buf@ == old(self).w.buf@ + t && final(self).cursor == k
            }),
    {
        let ghost lv = self.w.level;
        let ghost ind = self.w.indent@;
        let ghost src = source.spec_bytes();
        let ghost target = old(self).w.buf@ + leading_from(comments@, src, old(self).cursor as int, before_pos as int, lv, ind).0;
        let ghost kend = leading_from(comments@, src, old(self).cursor as int, before_pos as int, lv, ind).1;
        while self.cursor < comments.len() && comments[self.cursor].span.start < before_pos
            invariant
                self.follows(*old(self)),
                old(self).cursor <= comments@.len() ==> self.cursor <= comments@.len(),
                lv == old(self).w.level,
                ind == old(self).w.indent@,
                src == source.spec_bytes(),
                target == self.w.buf@ + leading_from(comments@, src, self.cursor as int, before_pos as int, lv, ind).0,
                kend == leading_from(comments@, src, self.cursor as int, before_pos as int, lv, ind).1,
            decreases comments@.len() - self.cursor,
        {
            let comment = &comments[self.cursor];
            let ghost buf0 = self.w.buf@;
            if !is_trailing_comment(source, comment) {
                self.write_indented_comment(comment.text.as_str());
                self.w.write_str("\n");
                proof {
                    reveal_strlit("\n");
                    assert("\n"@ =~= seq!['\n']);
                }
            }
            assert(self.w.buf@ =~= buf0 + (if !trails_code(src, comments@[self.cursor as int]) {
                comment_text_from(encode_utf8(comments@[self.cursor as int].text@), 0, 0, lv, ind) + seq!['\n']
            } else {
                Seq::empty()
            }));
            self.cursor += 1;
        }
        assert(self.w.buf@ =~= self.w.buf@ + Seq::<char>::empty());
    }

    /// Write a comment with proper indentation. Each continuation line of
    /// a block comment loses its leading whitespace and gets one space,
    /// so that it lines up with the `*` of `/*`.
    fn write_indented_comment(&mut self, text: &str)
        ensures
            final(self).w.follows(old(self).w),
            final(self).cursor == old(self).cursor,
            final(self).w.buf@ == old(self).w.buf@ + comment_text_from(
                text.spec_bytes(),
                0,
                0,
                old(self).w.level,
                old(self).w.indent@,
            ),
    {
        let b = text.as_bytes();
        let ghost bytes = text.spec_bytes();
        let ghost lv = self.w.level;
        let ghost ind = self.w.indent@;
        let ghost target = old(self).w.buf@ + comment_text_from(bytes, 0, 0, lv, ind);
        proof {
            encode_utf8_valid_utf8(text@);
        }
        let mut start: usize = 0;
        let mut i: usize = 0;
        while i < b.len()
            invariant
                start <= i <= b@.len(),
                b@ == bytes,
                bytes == text.spec_bytes(),
                valid_utf8(bytes),
                at_boundary(bytes, start as int),
                self.w.follows(old(self).w),
                self.cursor == old(self).cursor,
                lv == old(self).w.level,
                ind == old(self).w.indent@,
                target == self.w.buf@ + comment_text_from(bytes, start as int, i as int, lv, ind),
            decreases b@.len() - i,
        {
            if b[i] == 10u8 {
                proof {
                    lemma_ascii_is_boundary(bytes, i as int);
                    lemma_after_ascii(bytes, i as int);
                }
                let line = substring(text, start, i);
                proof {
                    encode_utf8_decode_utf8(line@);
                }
                self.write_comment_line(line.as_str(), start == 0);
                assert(target =~= self.w.buf@ + comment_text_from(bytes, (i + 1) as int, (i + 1) as int, lv, ind));
                start = i + 1;
            }
            i += 1;
        }
        let line = substring(text, start, b.len());
        proof {
            encode_utf8_decode_utf8(line@);
        }
        self.write_comment_line(line.as_str(), start == 0);
        assert(self.w.buf@ =~= target);
    }

    /// One line of a comment: the first as it is, each later one on a new
    /// line after one space.
    fn write_comment_line(&mut self, line: &str, first: bool)
        ensures
            final(self).w.follows(old(self).w),
            final(self).cursor == old(self).cursor,
            final(self).w.buf@ == old(self).w.buf@ + comment_line_text(line@, first, old(self).w.level, old(self).w.indent@),
    {
        proof {
            reveal_strlit("\n");
            reveal_strlit(" ");
            assert("\n"@ =~= seq!['\n']);
            assert(" "@ =~= seq![' ']);
        }
        if first {
            self.w.write_indent();
            self.w.write_str(line);
        } else {
            self.w.write_str("\n");
            self.w.write_indent();
            let trimmed = trim_start(line);
            if trimmed.unicode_len() > 0 {
                self.w.write_str(" ");
                self.w.write_str(trimmed);
            }
        }
        assert(self.w.buf@ =~= old(self).w.buf@ + comment_line_text(line@, first, old(self).w.level, old(self).w.indent@));
    }

    /// Emit the next comment after the node ending at `node_end_pos`, when
    /// it trails code on the same line.
    fn emit_trailing_comment(&mut self, comments: &Vec<Comment>, source: &str, node_end_pos: usize)
        ensures
            final(self).follows(*old(self)),
            old(self).cursor <= comments@.len() ==> final(self).cursor <= comments@.len(),
            ({
                let (t, k) = trailing_step(comments@, source.spec_bytes(), old(self).cursor as int, node_end_pos as int);
                final(self).w.buf@ == old(self).w.buf@ + t && final(self).cursor == k
            }),
    {
        proof {
            reveal_strlit(" ");
            assert(" "@ =~= seq![' ']);
        }
        if self.cursor >= comments.len() {
            return;
        }
        let comment = &comments[self.cursor];
        let src_len = source.as_bytes().len();
        let clamped = if node_end_pos <= src_len { node_end_pos } else { src_len };
        let node_line = line_of(source, clamped);
        let comment_line = line_of(source, comment.span.start);
        if comment_line == node_line && is_trailing_comment(source, comment) {
            let ghost buf0 = self.w.buf@;
            self.w.write_str(" ");
            self.w.write_str(comment.text.as_str());
            assert(self.w.buf@ =~= buf0 + (seq![' '] + comments@[self.cursor as int].text@));
            self.cursor += 1;
        } else {
            assert(self.w.buf@ =~= self.w.buf@ + Seq::<char>::empty());
        }
    }

    /// Emit all remaining comments (e.g., at end of file).
    fn emit_remaining_comments(&mut self, comments: &Vec<Comment>)
        ensures
            final(self).w.follows(old(self).w),
            final(self).cursor >= comments@.len(),
            final(self).w.buf@ == old(self).w.buf@ + remaining_from(
                comments@,
                old(self).cursor as int,
                old(self).w.level,
                old(self).w.indent@,
            ),
    {
        let ghost lv = self.w.level;
        let ghost ind = self.w.indent@;
        let ghost target = old(self).w.buf@ + remaining_from(comments@, old(self).cursor as int, lv, ind);
        while self.cursor < comments.len()
            invariant
                self.w.follows(old(self).w),
                lv == old(self).w.level,
                ind == old(self).w.indent@,
                target == self.w.buf@ + remaining_from(comments@, self.cursor as int, lv, ind),
            decreases comments@.len() - self.cursor,
        {
            self.w.write_indent();
            self.w.write_str(comments[self.cursor].text.as_str());
            self.w.write_str("\n");
            assert(target =~= self.w.buf@ + remaining_from(comments@, self.cursor + 1, lv, ind));
            self.cursor += 1;
        }
        assert(target =~= self.w.buf@ + Seq::<char>::empty());
    }

    // ── Item-level trivia ──────────────────────────────────────────

    #[verifier::rlimit(60)]
    #[verifier::spinoff_prover]
    fn write_item_with_trivia(&mut self, comments: &Vec<Comment>, source: &str, item: &Item)
        ensures
            final(self).follows(*old(self)),
            old(self).cursor <= comments@.len() ==> final(self).cursor <= comments@.len(),
            old(self).w.max_line_length is None ==> ({
                let (t, k) = item_trivia(
                    comments@,
                    source.spec_bytes(),
                    old(self).cursor as int,
                    *item,
                    old(self).w.level,
                    old(self).w.indent@,
                );
                final(self).w.buf@ == old(self).w.buf@ + t && final(self).cursor == k
            }),
    {
        let ghost target = item_trivia(comments@, source.spec_bytes(), old(self).cursor as int, *item, old(self).w.level, old(self).w.indent@);
        let span = item_span(item);
        self.emit_leading_comments(comments, source, span.start);
        match item {
            Item::Pragma(n) => {
                write_pragma_text(&mut self.w, n);
                self.emit_trailing_comment(comments, source, n.span.end);
                self.w.write_str("\n");
            },
            Item::Include(n) => {
                self.w.write_str("include \"");
                write_escaped_str(&mut self.w, n.path.as_str());
                self.w.write_str("\";");
                self.emit_trailing_comment(comments, source, n.span.end);
                self.w.write_str("\n");
            },
            Item::TemplateDef(n) => {
                write_template_header(&mut self.w, n);
                self.write_block_with_trivia(comments, source, &n.body);
                self.w.write_str("\n");
            },
            Item::FunctionDef(n) => {
                write_function_header(&mut self.w, n);
                self.write_block_with_trivia(comments, source, &n.body);
                self.w.write_str("\n");
            },
            Item::BusDef(n) => self.write_bus_def_with_trivia(comments, source, n),
            Item::MainComponent(n) => {
                write_main_component_text(&mut self.w, n);
                self.emit_trailing_comment(comments, source, n.span.end);
                self.w.write_str("\n");
            },
        }
        assert(old(self).w.max_line_length is None ==> self.w.buf@ =~= old(self).w.buf@ + target.0);
    }

    #[verifier::rlimit(40)]
    #[verifier::spinoff_prover]
    fn write_bus_def_with_trivia(&mut self, comments: &Vec<Comment>, source: &str, node: &BusDef)
        ensures
            final(self).follows(*old(self)),
            old(self).cursor <= comments@.len() ==> final(self).cursor <= comments@.len(),
            old(self).w.max_line_length is None ==> ({
                let (t, k) = bus_trivia(
                    comments@,
                    source.spec_bytes(),
                    old(self).cursor as int,
                    *node,
                    old(self).w.level,
                    old(self).w.indent@,
                );
                final(self).w.buf@ == old(self).w.buf@ + t && final(self).cursor == k
            }),
    {
        let ghost cs = comments@;
        let ghost src = source.spec_bytes();
        let ghost ind = self.w.indent@;
        let ghost k0 = old(self).cursor as int;
        write_bus_header(&mut self.w, node);
        let ghost head = self.w.buf@;
        let saved = self.w.level;
        self.w.indent();
        let mut i: usize = 0;
        assert(node.body@.subrange(0, 0) =~= Seq::<BusMember>::empty());
        assert(head =~= head + Seq::<char>::empty());
        while i < node.body.len()
            invariant
                i <= node.body@.len(),
                self.w.extends(old(self).w),
                self.w.level == (if saved < usize::MAX { saved + 1 } else { usize::MAX as int }),
                saved == old(self).w.level,
                old(self).cursor <= self.cursor,
                old(self).cursor <= comments@.len() ==> self.cursor <= comments@.len(),
                cs == comments@,
                src == source.spec_bytes(),
                ind == self.w.indent@,
                k0 == old(self).cursor as int,
                self.w.max_line_length == old(self).w.max_line_length,
                self.w.max_line_length is None ==> ({
                    let (t, k) = members_trivia(cs, src, k0, node.body@.subrange(0, i as int), next_level(saved), ind);
                    self.w.buf@ == head + t && self.cursor == k
                }),
            decreases node.body@.len() - i,
        {
            let member = &node.body[i];
            let member_span = bus_member_span(member);
            let ghost ms = node.body@;
            assert(ms.subrange(0, i + 1).drop_last() =~= ms.subrange(0, i as int));
            assert(ms.subrange(0, i + 1).last() == ms[i as int]);
            self.emit_leading_comments(comments, source, member_span.start);
            let ghost before_member = self.w.buf@;
            write_bus_member_no_newline(&mut self.w, member);
            proof {
                if self.w.max_line_length is None {
                    let ml = member_line(*member, next_level(saved), ind);
                    assert(member_text(*member, next_level(saved), ind) == ml + "\n"@);
                    assert((before_member + ml) + "\n"@ =~= before_member + (ml + "\n"@));
                    lemma_drop_common_suffix(self.w.buf@, before_member + ml, "\n"@);
                }
            }
            self.emit_trailing_comment(comments, source, member_span.end);
            self.w.write_str("\n");
            proof {
                if self.w.max_line_length is None {
                    let t1 = members_trivia(cs, src, k0, ms.subrange(0, i as int), next_level(saved), ind);
                    let t2 = leading_from(cs, src, t1.1, bus_member_span_of(ms[i as int]).start as int, next_level(saved), ind);
                    let t3 = trailing_step(cs, src, t2.1, bus_member_span_of(ms[i as int]).end as int);
                    assert(self.w.buf@ =~= head + (t1.0 + t2.0 + member_line(ms[i as int], next_level(saved), ind) + t3.0 + "\n"@));
                }
            }
            i += 1;
        }
        assert(node.body@.subrange(0, node.body@.len() as int) =~= node.body@);
        // Comments before the closing brace.
        self.emit_leading_comments(comments, source, node.span.end);
        self.w.restore_level(saved);
        self.w.write_indent();
        self.w.write_str("}\n");
        proof {
            if self.w.max_line_length is None {
                let r = bus_trivia(cs, src, k0, *node, saved, ind);
                assert(self.w.buf@ =~= old(self).w.buf@ + r.0);
            }
        }
    }

    // ── Block & statement trivia ───────────────────────────────────

    fn write_block_with_trivia(&mut self, comments: &Vec<Comment>, source: &str, node: &Block)
        ensures
            final(self).follows(*old(self)),
            old(self).cursor <= comments@.len() ==> final(self).cursor <= comments@.len(),
            old(self).w.max_line_length is None ==> ({
                let (t, k) = block_trivia(
                    comments@,
                    source.spec_bytes(),
                    old(self).cursor as int,
                    *node,
                    old(self).w.level,
                    old(self).w.indent@,
                );
                final(self).w.buf@ == old(self).w.buf@ + t && final(self).cursor == k
            }),
        decreases node, 0nat,
    {
        let ghost cs = comments@;
        let ghost src = source.spec_bytes();
        let ghost ind = self.w.indent@;
        let ghost k0 = old(self).cursor as int;
        self.w.write_str("{\n");
        let ghost head = self.w.buf@;
        let saved = self.w.level;
        self.w.indent();
        let mut i: usize = 0;
        assert(node.stmts@.subrange(0, 0) =~= Seq::<Statement>::empty());
        assert(head =~= head + Seq::<char>::empty());
        while i < node.stmts.len()
            invariant
                i <= node.stmts@.len(),
                self.w.extends(old(self).w),
                self.w.level == (if saved < usize::MAX { saved + 1 } else { usize::MAX as int }),
                saved == old(self).w.level,
                old(self).cursor <= self.cursor,
                old(self).cursor <= comments@.len() ==> self.cursor <= comments@.len(),
                cs == comments@,
                src == source.spec_bytes(),
                ind == self.w.indent@,
                k0 == old(self).cursor as int,
                self.w.max_line_length == old(self).w.max_line_length,
                self.w.max_line_length is None ==> ({
                    let (t, k) = stmts_trivia(cs, src, k0, node.stmts@.subrange(0, i as int), next_level(saved), ind);
                    self.w.buf@ == head + t && self.cursor == k
                }),
            decreases node.stmts@.len() - i,
        {
            assert(decreases_to!(node => node.stmts@[i as int]));
            let ghost ss = node.stmts@;
            assert(ss.subrange(0, i + 1).subrange(0, i as int) =~= ss.subrange(0, i as int));
            self.write_statement_with_trivia(comments, source, &node.stmts[i]);
            proof {
                if self.w.max_line_length is None {
                    let t1 = stmts_trivia(cs, src, k0, ss.subrange(0, i as int), next_level(saved), ind);
                    let t2 = stmt_trivia(cs, src, t1.1, ss[i as int], next_level(saved), ind);
                    assert(self.w.buf@ =~= head + (t1.0 + t2.0));
                }
            }
            i += 1;
        }
        assert(node.stmts@.subrange(0, node.stmts@.len() as int) =~= node.stmts@);
        // Comments before the closing brace.
        self.emit_leading_comments(comments, source, node.span.end);
        self.w.restore_level(saved);
        self.w.write_indent();
        self.w.write_str("}");
        proof {
            if self.w.max_line_length is None {
                let r = block_trivia(cs, src, k0, *node, saved, ind);
                assert(self.w.buf@ =~= old(self).w.buf@ + r.0);
            }
        }
    }

    #[verifier::rlimit(60)]
    #[verifier::spinoff_prover]
    fn write_statement_with_trivia(&mut self, comments: &Vec<Comment>, source: &str, node: &Statement)
        ensures
            final(self).follows(*old(self)),
            old(self).cursor <= comments@.len() ==> final(self).cursor <= comments@.len(),
            old(self).w.max_line_length is None ==> ({
                let (t, k) = stmt_trivia(
                    comments@,
                    source.spec_bytes(),
                    old(self).cursor as int,
                    *node,
                    old(self).w.level,
                    old(self).w.indent@,
                );
                final(self).w.buf@ == old(self).w.buf@ + t && final(self).cursor == k
            }),
        decreases node, 0nat,
    {
        let ghost target = stmt_trivia(comments@, source.spec_bytes(), old(self).cursor as int, *node, old(self).w.level, old(self).w.indent@);
        self.emit_leading_comments(comments, source, node.span.start);
        self.w.write_indent();
        if write_simple_statement(&mut self.w, &node.kind) {
            self.w.write_str(";");
            self.emit_trailing_comment(comments, source, node.span.end);
            self.w.write_str("\n");
            assert(old(self).w.max_line_length is None ==> self.w.buf@ =~= old(self).w.buf@ + target.0);
            return;
        }
        match &node.kind {
            StatementKind::IfElse(n) => {
                self.write_if_else_with_trivia(comments, source, n);
                self.emit_trailing_comment(comments, source, node.span.end);
                self.w.write_str("\n");
                assert(old(self).w.max_line_length is None ==> self.w.buf@ =~= old(self).w.buf@ + target.0);
            },
            StatementKind::For(n) => {
                self.write_for_loop_with_trivia(comments, source, n);
                self.emit_trailing_comment(comments, source, node.span.end);
                self.w.write_str("\n");
                assert(old(self).w.max_line_length is None ==> self.w.buf@ =~= old(self).w.buf@ + target.0);
            },
            StatementKind::While(n) => {
                self.write_while_loop_with_trivia(comments, source, n);
                self.emit_trailing_comment(comments, source, node.span.end);
                self.w.write_str("\n");
                assert(old(self).w.max_line_length is None ==> self.w.buf@ =~= old(self).w.buf@ + target.0);
            },
            StatementKind::Block(blk) => {
                self.write_block_with_trivia(comments, source, blk);
                self.emit_trailing_comment(comments, source, node.span.end);
                self.w.write_str("\n");
                assert(old(self).w.max_line_length is None ==> self.w.buf@ =~= old(self).w.buf@ + target.0);
            },
            _ => {
                self.w.write_str("/* error */;\n");
                assert(old(self).w.max_line_length is None ==> self.w.buf@ =~= old(self).w.buf@ + target.0);
            },
        }
    }

    fn write_if_else_with_trivia(&mut self, comments: &Vec<Comment>, source: &str, node: &IfElse)
        ensures
            final(self).follows(*old(self)),
            old(self).cursor <= comments@.len() ==> final(self).cursor <= comments@.len(),
            old(self).w.max_line_length is None ==> ({
                let (t, k) = if_trivia(
                    comments@,
                    source.spec_bytes(),
                    old(self).cursor as int,
                    *node,
                    old(self).w.level,
                    old(self).w.indent@,
                );
                final(self).w.buf@ == old(self).w.buf@ + t && final(self).cursor == k
            }),
        decreases node, 0nat,
    {
        let ghost target = if_trivia(comments@, source.spec_bytes(), old(self).cursor as int, *node, old(self).w.level, old(self).w.indent@);
        self.w.write_str("if (");
        write_expr(&mut self.w, &node.cond);
        self.w.write_str(") ");
        self.write_block_with_trivia(comments, source, &node.then_body);
        match &node.else_body {
            Some(else_body) => {
                self.w.write_str(" else ");
                match as_single_if_else(else_body) {
                    Some(inner_if) => {
                        assert(decreases_to!(node => else_body.stmts@[0]));
                        let ghost st = else_body.stmts@[0];
                        assert(decreases_to!(st => st.kind));
                        assert(st.kind == StatementKind::IfElse(*inner_if));
                        assert(decreases_to!(st.kind => st.kind->IfElse_0));
                        assert(decreases_to!(node => *inner_if));
                        self.write_if_else_with_trivia(comments, source, inner_if);
                    },
                    None => self.write_block_with_trivia(comments, source, else_body),
                }
            },
            None => {},
        }
        assert(old(self).w.max_line_length is None ==> self.w.buf@ =~= old(self).w.buf@ + target.0);
    }

    fn write_for_loop_with_trivia(&mut self, comments: &Vec<Comment>, source: &str, node: &ForLoop)
        ensures
            final(self).follows(*old(self)),
            old(self).cursor <= comments@.len() ==> final(self).cursor <= comments@.len(),
            old(self).w.max_line_length is None ==> ({
                let (t, k) = for_trivia(
                    comments@,
                    source.spec_bytes(),
                    old(self).cursor as int,
                    *node,
                    old(self).w.level,
                    old(self).w.indent@,
                );
                final(self).w.buf@ == old(self).w.buf@ + t && final(self).cursor == k
            }),
        decreases node, 0nat,
    {
        let ghost target = for_trivia(comments@, source.spec_bytes(), old(self).cursor as int, *node, old(self).w.level, old(self).w.indent@);
        self.w.write_str("for (");
        write_for_init(&mut self.w, &node.init);
        self.w.write_str("; ");
        write_expr(&mut self.w, &node.cond);
        self.w.write_str("; ");
        write_for_step(&mut self.w, &node.step);
        self.w.write_str(") ");
        self.write_block_with_trivia(comments, source, &node.body);
        assert(old(self).w.max_line_length is None ==> self.w.buf@ =~= old(self).w.buf@ + target.0);
    }

    fn write_while_loop_with_trivia(&mut self, comments: &Vec<Comment>, source: &str, node: &WhileLoop)
        ensures
            final(self).follows(*old(self)),
            old(self).cursor <= comments@.len() ==> final(self).cursor <= comments@.len(),
            old(self).w.max_line_length is None ==> ({
                let (t, k) = while_trivia(
                    comments@,
                    source.spec_bytes(),
                    old(self).cursor as int,
                    *node,
                    old(self).w.level,
                    old(self).w.indent@,
                );
                final(self).w.buf@ == old(self).w.buf@ + t && final(self).cursor == k
            }),
        decreases node, 0nat,
    {
        let ghost target = while_trivia(comments@, source.spec_bytes(), old(self).cursor as int, *node, old(self).w.level, old(self).w.indent@);
        self.w.write_str("while (");
        write_expr(&mut self.w, &node.cond);
        self.w.write_str(") ");
        self.write_block_with_trivia(comments, source, &node.body);
        assert(old(self).w.max_line_length is None ==> self.w.buf@ =~= old(self).w.buf@ + target.0);
    }
}

/// The span of a bus member.
fn bus_member_span(member: &BusMember) -> (s: Span)
    ensures
        s == (match member {
            BusMember::Signal(d) => d.span,
            BusMember::Bus(d) => d.span,
        }),
{
    match member {
        BusMember::Signal(d) => d.span,
        BusMember::Bus(d) => d.span,
    }
}

/// Format a parsed file while preserving comments from the original source.
///
/// Extracts comments from `source`, then interleaves them into the
/// formatted output at positions corresponding to their original locations
/// relative to AST nodes.
pub fn format_with_trivia(source: &str, file: &File, config: &FormatConfig) -> (r: String)
    ensures
        crate::lexer::comment_ranges(source.spec_bytes(), 0).len() == 0 && config.max_line_length is None ==> r@
            == items_text(file.items@, 0, config.indent@),
        crate::lexer::comment_ranges(source.spec_bytes(), 0).len() > 0 && config.max_line_length is None ==> exists|
            cs: Seq<Comment>,
        |
            crate::trivia::trivia_ok(source.spec_bytes(), cs) && crate::trivia::trivia_ranges(cs)
                == crate::lexer::comment_ranges(source.spec_bytes(), 0) && r@ == trivia_file_text(
                cs,
                source.spec_bytes(),
                file.items@,
                config.indent@,
            ),
{
    let comments = extract_comments(source);
    if comments.len() == 0 {
        return format_with_config(file, config);
    }
    assert(crate::trivia::trivia_ranges(comments@).len() > 0);
    let ghost cs = comments@;
    let ghost src = source.spec_bytes();
    let ghost ind = config.indent@;
    let mut tf = TriviaFormatter { w: IndentWriter::with_config(config), cursor: 0 };
    let mut i: usize = 0;
    while i < file.items.len()
        invariant
            i <= file.items@.len(),
            tf.cursor <= comments@.len(),
            cs == comments@,
            src == source.spec_bytes(),
            ind == config.indent@,
            tf.w.level == 0,
            tf.w.indent@ == ind,
            tf.w.max_line_length == config.max_line_length,
            config.max_line_length is None ==> ({
                let (t, k) = items_trivia(cs, src, 0, file.items@.subrange(0, i as int), ind);
                tf.w.buf@ == t && tf.cursor == k
            }),
        decreases file.items@.len() - i,
    {
        let ghost its = file.items@;
        assert(its.subrange(0, i + 1).drop_last() =~= its.subrange(0, i as int));
        assert(its.subrange(0, i + 1).last() == its[i as int]);
        if i > 0 {
            tf.w.write_str("\n");
        }
        let ghost buf0 = tf.w.buf@;
        tf.write_item_with_trivia(&comments, source, &file.items[i]);
        proof {
            if config.max_line_length is None {
                let p = items_trivia(cs, src, 0, its.subrange(0, i as int), ind);
                let sep = if i + 1 > 1 { "\n"@ } else { Seq::<char>::empty() };
                let q = item_trivia(cs, src, p.1, its[i as int], 0, ind);
                assert(buf0 =~= p.0 + sep);
                assert(tf.w.buf@ =~= p.0 + sep + q.0);
            }
        }
        i += 1;
    }
    assert(file.items@.subrange(0, file.items@.len() as int) =~= file.items@);
    // Emit any trailing comments after the last item.
    tf.emit_remaining_comments(&comments);
    tf.w.buf
}

} // verus!
