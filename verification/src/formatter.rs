//! Source-level formatter for Circom.
//!
//! The formatter parses the source, reuses the AST from [`crate::parser`]
//! and produces a canonical, opinionated rendering that:
//!
//! - preserves line and block comments by interleaving them with AST
//!   nodes based on the original byte offsets, and
//! - honours a configurable maximum line length, wrapping long argument
//!   lists, declarations and binary chains at sensible points.
//!
//! The public entry point used by the LSP handler and by tests is
//! [`format_source`].

use vstd::prelude::*;
use vstd::string::StringSliceAdditionalSpecFns;
use vstd::utf8::*;

use crate::ast::{
    statement_kind_debug,
    item_span, AnonCompInput, AnonymousComp, AssignOp, AssignStmt, BinaryOp, Block, BusDef,
    BusFieldDecl, BusInstanceDecl, BusMember, BusType, ComponentDecl, ComponentDeclEntry,
    CompoundAssignStmt, CompoundOp, ConstraintEqStmt, Expression, ExpressionKind, File, ForLoop,
    FunctionDef, Identifier, IfElse, Include, Item, LogArg, LogStmt, MainComponent, Pragma,
    PragmaKind, SignalAssignOp, SignalDecl, SignalDeclEntry, SignalKind, Statement, StatementKind,
    TemplateDef, TupleAssignStmt, UnaryOp, VarDecl, VarDeclEntry, WhileLoop,
};
use crate::lexer::{extract_comments, Comment, CommentKind};
use crate::parser;
use crate::pretty_print::{
    assign_op_text, binop_text, compound_op_text, component_entry_text, dims_text, expr_text, exprs_text,
    idents_text, input_text, inputs_text, signal_entry_text, signal_op_text, trim_start, var_entry_text,
};
use crate::span::{line_number, LineIndex, Span};
use crate::text::{at_boundary, join_seqs, lemma_after_ascii, lemma_ascii_is_boundary, lemma_encode_utf8_concat, substring, views};

verus! {

broadcast use vstd::utf8::group_utf8_lib;

/// User-configurable options for the formatter.
#[derive(Debug, Clone, Copy)]
pub struct FormatConfig {
    /// Soft maximum line length. Lines longer than this are wrapped
    /// where the formatter has a natural break point (call arguments,
    /// signal-declaration entries, binary-operator chains). String and
    /// comment contents are never broken.
    pub max_line_length: usize,
    /// Width of a single indentation step, in spaces.
    pub indent_width: usize,
}

impl Default for FormatConfig {
    /// Lines of at most 100 columns, four spaces per level.
    fn default() -> (c: FormatConfig)
        ensures
            c.max_line_length == 100,
            c.indent_width == 4,
    {
        FormatConfig { max_line_length: 100, indent_width: 4 }
    }
}

/// An error produced by the formatter. Currently the only failure mode
/// is a source with parse errors — the formatter refuses to rewrite
/// malformed input because it cannot guarantee semantic preservation.
#[derive(Debug, Clone, Copy, PartialEq, Eq, Structural)]
pub enum FormatError {
    /// One or more parse errors were encountered. The original source
    /// is returned unchanged by [`format_source_safe`].
    ParseFailed,
}

/// Format `source` according to `config`. Returns an error if the
/// source cannot be parsed.
pub fn format_source(source: &str, config: &FormatConfig) -> (r: Result<String, FormatError>)
    ensures
        r is Err ==> r == Err::<String, FormatError>(FormatError::ParseFailed),
        r matches Ok(t) ==> t@.len() > 0 && t@.last() == '\n',
        crate::lexer::lex_from(source.spec_bytes(), 0).1.len() > 0 ==> r == Err::<String, FormatError>(
            FormatError::ParseFailed,
        ),
{
    let (file, errors) = parser::parse(source);
    format_parsed(source, &file, &errors, config)
}

/// Format `file`, the parse of `source` with the parse errors `errors`:
/// refused exactly when there is a parse error.
pub fn format_parsed(source: &str, file: &File, errors: &Vec<parser::ParseError>, config: &FormatConfig) -> (r: Result<
    String,
    FormatError,
>)
    ensures
        errors@.len() > 0 <==> r is Err,
        r is Err ==> r == Err::<String, FormatError>(FormatError::ParseFailed),
        r matches Ok(t) ==> t@.len() > 0 && t@.last() == '\n',
{
    if errors.len() > 0 {
        return Err(FormatError::ParseFailed);
    }
    let comments = extract_comments(source);
    Ok(render(source, file, &comments, config))
}

/// Like [`format_source`] but returns the original text verbatim if the
/// source cannot be parsed. This is the variant the LSP handler uses —
/// we don't want to corrupt a partially-edited buffer.
pub fn format_source_safe(source: &str, config: &FormatConfig) -> (r: String)
    ensures
        crate::lexer::lex_from(source.spec_bytes(), 0).1.len() > 0 ==> r@ == source@,
        r@ == source@ || (r@.len() > 0 && r@.last() == '\n'),
{
    match format_source(source, config) {
        Ok(formatted) => formatted,
        Err(_) => source.to_owned(),
    }
}

// ── Output buffer ───────────────────────────────────────────────────

/// Text written so far. Trailing newlines are kept apart as a count, so
/// that they can be inspected and taken back cheaply.
struct Out {
    /// Everything but the trailing newlines.
    text: String,
    /// The number of newlines after `text`.
    pending: usize,
    /// Bytes of `text` after its last newline.
    col: usize,
}

/// One line of a block comment, given by its bytes, as written: the first
/// as it is; each later one on a new line after the indentation `ind`,
/// without its leading whitespace, with one space before a `*`.
pub open spec fn block_line_bytes(line: Seq<u8>, first: bool, ind: Seq<u8>) -> Seq<u8> {
    if first {
        line
    } else {
        let t = encode_utf8(crate::pretty_print::trim_start_text(decode_utf8(line)));
        seq![10u8] + ind + if t.len() > 0 {
            (if t[0] == 42 {
                seq![32u8]
            } else {
                Seq::empty()
            }) + t
        } else {
            Seq::empty()
        }
    }
}

/// A block comment, from byte `i` of its text on, the current line
/// starting at byte `start`, as written: each line by
/// [`block_line_bytes`].
pub open spec fn block_comment_bytes_from(bytes: Seq<u8>, start: int, i: int, ind: Seq<u8>) -> Seq<u8>
    decreases bytes.len() - i,
{
    if i < 0 || i >= bytes.len() {
        block_line_bytes(bytes.subrange(start, bytes.len() as int), start == 0, ind)
    } else if bytes[i] == 10 {
        block_line_bytes(bytes.subrange(start, i), start == 0, ind) + block_comment_bytes_from(bytes, i + 1, i + 1, ind)
    } else {
        block_comment_bytes_from(bytes, start, i + 1, ind)
    }
}

/// The width of the indentation at `level` steps of `width` spaces
/// (`usize::MAX` when that overflows).
pub open spec fn indent_width_at(level: usize, width: usize) -> nat {
    if level * width <= usize::MAX {
        (level * width) as nat
    } else {
        usize::MAX as nat
    }
}

/// A comment as written at indentation `ind`: a line comment as it is,
/// a block comment by [`block_comment_bytes_from`].
pub open spec fn comment_bytes(c: Comment, ind: Seq<u8>) -> Seq<u8> {
    match c.kind {
        CommentKind::Line => encode_utf8(c.text@),
        CommentKind::Block => block_comment_bytes_from(encode_utf8(c.text@), 0, 0, ind),
    }
}

/// The comments from `k` on that start before `before` (all of them when
/// there is no bound), each on its own line after the indentation `ind`,
/// and the index after them.
pub open spec fn flushed_from(cs: Seq<Comment>, k: int, before: Option<int>, ind: Seq<u8>) -> (Seq<u8>, int)
    decreases cs.len() - k,
{
    if 0 <= k < cs.len() && (before matches Some(b) ==> cs[k].start < b) {
        let (rest, k2) = flushed_from(cs, k + 1, before, ind);
        (ind + comment_bytes(cs[k], ind) + seq![10u8] + rest, k2)
    } else {
        (Seq::empty(), k)
    }
}

/// The comments from `k` on that trail code on line `line`, each after two
/// spaces, and the index after them.
pub open spec fn trailing_run(cs: Seq<Comment>, k: int, line: u32, starts: Seq<usize>, ind: Seq<u8>) -> (Seq<u8>, int)
    decreases cs.len() - k,
{
    if 0 <= k < cs.len() && cs[k].trailing && line_number(starts, cs[k].start as int) == line {
        let (rest, k2) = trailing_run(cs, k + 1, line, starts, ind);
        (seq![32u8, 32u8] + comment_bytes(cs[k], ind) + rest, k2)
    } else {
        (Seq::empty(), k)
    }
}

/// `n` spaces, as bytes.
pub open spec fn space_bytes(n: nat) -> Seq<u8> {
    Seq::new(n, |i: int| 32u8)
}

/// The encoding of spaces is one byte each.
proof fn lemma_encode_spaces(n: nat)
    ensures
        encode_utf8(Seq::new(n, |i: int| ' ')) == space_bytes(n),
    decreases n,
{
    let sp = Seq::new(n, |i: int| ' ');
    if n > 0 {
        lemma_encode_spaces((n - 1) as nat);
        assert(sp.drop_first() =~= Seq::new((n - 1) as nat, |i: int| ' '));
        assert(((32u32 & 0x7Fu32) as u8) == 32u8) by (bit_vector);
        assert(encode_scalar(' ' as u32) =~= seq![32u8]);
        assert(space_bytes(n) =~= seq![32u8] + space_bytes((n - 1) as nat));
    } else {
        assert(sp =~= Seq::<char>::empty());
        assert(space_bytes(n) =~= Seq::<u8>::empty());
    }
}

/// `n` newline bytes.
spec fn newline_bytes(n: nat) -> Seq<u8> {
    Seq::new(n, |i: int| 10u8)
}

impl Out {
    /// The bytes written so far, trailing newlines included.
    spec fn bytes(self) -> Seq<u8> {
        encode_utf8(self.text@) + newline_bytes(self.pending as nat)
    }

    fn new() -> Out {
        Out { text: String::new(), pending: 0, col: 0 }
    }

    fn push_newline(&mut self)
        ensures
            old(self).pending < usize::MAX ==> final(self).bytes() == old(self).bytes().push(10u8),
            old(self).pending < usize::MAX ==> final(self).pending == old(self).pending + 1,
            final(self).pending <= old(self).pending + 1,
            final(self).pending > 0,
    {
        self.pending = self.pending.saturating_add(1);
        assert(old(self).pending < usize::MAX ==> self.bytes() =~= old(self).bytes().push(10u8));
    }

    /// Whether the text ends with a newline.
    fn ends_with_newline(&self) -> (r: bool)
        ensures
            r == (self.pending > 0),
    {
        self.pending > 0
    }

    /// Whether the text ends with two newlines.
    fn ends_with_blank_line(&self) -> (r: bool)
        ensures
            r == (self.pending >= 2),
    {
        self.pending >= 2
    }

    /// Drop one trailing newline.
    fn pop_newline(&mut self)
        requires
            old(self).pending > 0,
        ensures
            final(self).pending == old(self).pending - 1,
            final(self).bytes() == old(self).bytes().drop_last(),
            old(self).bytes().last() == 10u8,
    {
        self.pending = self.pending - 1;
        assert(self.bytes() =~= old(self).bytes().drop_last());
    }

    /// The column (in bytes) at which the next character would go.
    fn current_column(&self) -> usize {
        if self.pending > 0 {
            0
        } else {
            self.col
        }
    }

    fn flush_pending(&mut self)
        ensures
            final(self).pending == 0,
            final(self).bytes() == old(self).bytes(),
            final(self).text@ == old(self).text@ + Seq::new(old(self).pending as nat, |i: int| '\n'),
    {
        while self.pending > 0
            invariant
                self.bytes() == old(self).bytes(),
                self.pending <= old(self).pending,
                self.text@ == old(self).text@ + Seq::new((old(self).pending - self.pending) as nat, |i: int| '\n'),
            decreases self.pending,
        {
            let ghost before_text = self.text@;
            let ghost before_pending = self.pending;
            let ghost before = self.text@;
            self.text.append("\n");
            proof {
                reveal_strlit("\n");
                crate::text::lemma_encode_utf8_concat(before, "\n"@);
                assert("\n"@ =~= seq!['\n']);
                assert(seq!['\n'].drop_first() =~= Seq::<char>::empty());
                assert(((10u32 & 0x7Fu32) as u8) == 10u8) by (bit_vector);
                assert(encode_scalar('\n' as u32) =~= seq![10u8]);
                assert(encode_utf8(seq!['\n']) =~= seq![10u8] + encode_utf8(Seq::<char>::empty()));
            }
            self.pending = self.pending - 1;
            self.col = 0;
            assert(self.bytes() =~= old(self).bytes());
            assert(self.text@ =~= old(self).text@ + Seq::new((old(self).pending - self.pending) as nat, |i: int| '\n'))
                by {
                reveal_strlit("\n");
                assert(self.text@ == before_text + "\n"@);
            }
        }
    }

    /// Append `s`.
    fn push_str(&mut self, s: &str)
        ensures
            old(self).pending + s.spec_bytes().len() <= usize::MAX ==> final(self).bytes()
                == old(self).bytes() + s.spec_bytes(),
            final(self).pending <= old(self).pending + s.spec_bytes().len(),
    {
        let b = s.as_bytes();
        let ghost bytes = s.spec_bytes();
        proof {
            encode_utf8_valid_utf8(s@);
        }
        // Split off the trailing newlines.
        let mut body_end = b.len();
        while body_end > 0 && b[body_end - 1] == 10u8
            invariant
                body_end <= b@.len(),
                forall|k: int| body_end <= k < b@.len() ==> b@[k] == 10,
            decreases body_end,
        {
            body_end -= 1;
        }
        let trailing = b.len() - body_end;
        if body_end > 0 {
            proof {
                if body_end < b@.len() {
                    lemma_ascii_is_boundary(bytes, body_end as int);
                }
            }
            let body = substring(s, 0, body_end);
            self.flush_pending();
            let ghost t1 = self.text@;
            self.text.append(body.as_str());
            proof {
                crate::text::lemma_encode_utf8_concat(t1, body@);
                assert(newline_bytes(trailing as nat) =~= bytes.subrange(body_end as int, bytes.len() as int));
                assert(bytes =~= bytes.subrange(0, body_end as int) + bytes.subrange(body_end as int, bytes.len() as int));
            }
            let ghost text_after = self.text@;
            // Track the column after the last newline of `body`.
            let mut j = body_end;
            let mut count: usize = 0;
            let mut saw_newline = false;
            while j > 0
                invariant
                    j <= body_end <= b@.len(),
                    count <= body_end - j,
                decreases j,
            {
                if b[j - 1] == 10u8 {
                    saw_newline = true;
                    break;
                }
                count += 1;
                j -= 1;
            }
            self.col = if saw_newline { count } else { self.col.saturating_add(count) };
            self.pending = trailing;
            assert(self.text@ == text_after);
            assert(self.bytes() =~= old(self).bytes() + bytes);
        } else {
            self.pending = self.pending.saturating_add(trailing);
            proof {
                if old(self).pending + bytes.len() <= usize::MAX {
                    assert(newline_bytes(self.pending as nat) =~= newline_bytes(old(self).pending as nat) + bytes);
                    assert(self.bytes() =~= old(self).bytes() + bytes);
                }
            }
        }
    }

    fn finish(self) -> (r: String)
        ensures
            r@ == self.text@ + Seq::new(self.pending as nat, |i: int| '\n'),
    {
        let mut o = self;
        o.flush_pending();
        o.text
    }
}


/// `n` spaces.
fn spaces(n: usize) -> (r: String)
    ensures
        r@ == Seq::new(n as nat, |i: int| ' '),
{
    let mut s = String::new();
    let mut i: usize = 0;
    proof {
        reveal_strlit(" ");
    }
    while i < n
        invariant
            i <= n,
            s@ == Seq::new(i as nat, |k: int| ' '),
            " "@ == seq![' '],
        decreases n - i,
    {
        s.append(" ");
        i += 1;
        assert(s@ =~= Seq::new(i as nat, |k: int| ' '));
    }
    s
}

/// The decimal digits of `n`.
fn u32_text(n: u32) -> (r: String)
    ensures
        r@ == crate::pretty_print::decimal_text(n as nat),
{
    let mut digits: Vec<u8> = Vec::new();
    let mut v = n;
    loop
        invariant_except_break
            v > 0 || n == 0,
            v == 0 ==> digits@.len() == 0,
            crate::pretty_print::decimal_text(n as nat) == (if v > 0 || digits@.len() == 0 {
                crate::pretty_print::decimal_text(v as nat)
            } else {
                Seq::empty()
            }) + crate::pretty_print::digits_text(digits@),
        invariant
            v <= n,
            forall|k: int| 0 <= k < digits@.len() ==> #[trigger] digits@[k] < 10,
        ensures
            forall|k: int| 0 <= k < digits@.len() ==> #[trigger] digits@[k] < 10,
            crate::pretty_print::decimal_text(n as nat) == crate::pretty_print::digits_text(digits@),
        decreases v,
    {
        let d = (v % 10) as u8;
        let ghost before = digits@;
        let ghost v0 = v;
        digits.push(d);
        proof {
            crate::pretty_print::lemma_digits_text_push(before, d);
        }
        v = v / 10;
        if v == 0 {
            assert(v0 < 10);
            assert(d == v0 as u8);
            assert(crate::pretty_print::decimal_text(v0 as nat) == crate::pretty_print::digit_text(d));
            break;
        }
    }
    let mut s = String::new();
    let mut i = digits.len();
    while i > 0
        invariant
            i <= digits@.len(),
            forall|k: int| 0 <= k < digits@.len() ==> #[trigger] digits@[k] < 10,
            s@ == crate::pretty_print::digits_text(digits@.subrange(i as int, digits@.len() as int)),
        decreases i,
    {
        i -= 1;
        s.append(digit_text(digits[i]));
        proof {
            let t = digits@.subrange(i as int, digits@.len() as int);
            assert(t.drop_first() =~= digits@.subrange(i + 1, digits@.len() as int));
            assert(t[0] == digits@[i as int]);
        }
    }
    assert(digits@.subrange(0, digits@.len() as int) =~= digits@);
    s
}

fn digit_text(d: u8) -> (r: &'static str)
    ensures
        r@ == crate::pretty_print::digit_text(d),
{
    match d {
        0 => "0",
        1 => "1",
        2 => "2",
        3 => "3",
        4 => "4",
        5 => "5",
        6 => "6",
        7 => "7",
        8 => "8",
        _ => "9",
    }
}

// ── Renderer ────────────────────────────────────────────────────────

struct Renderer {
    out: Out,
    next_comment: usize,
    level: usize,
    max_line_length: usize,
    indent_width: usize,
    line_index: LineIndex,
}

impl Renderer {
    fn new(source: &str, config: &FormatConfig) -> (r: Renderer)
        ensures
            r.line_index.wf(),
    {
        Renderer {
            out: Out::new(),
            next_comment: 0,
            level: 0,
            max_line_length: config.max_line_length,
            indent_width: config.indent_width,
            line_index: LineIndex::new(source),
        }
    }

    fn line_of(&self, offset: usize) -> (r: Option<u32>)
        requires
            self.line_index.wf(),
        ensures
            r == Some(line_number(self.line_index.starts(), offset as int)),
    {
        match self.line_index.line_col(offset) {
            Some(lc) => {
                proof {
                    self.line_index.lemma_locates_line(offset as int, lc);
                }
                Some(lc.line)
            },
            None => None,
        }
    }

    /// The number of spaces of the current indentation.
    fn indent_len(&self) -> (n: usize)
        ensures
            n == (if self.level * self.indent_width <= usize::MAX {
                self.level * self.indent_width
            } else {
                usize::MAX as int
            }),
    {
        match self.level.checked_mul(self.indent_width) {
            Some(n) => n,
            None => usize::MAX,
        }
    }

    /// Width available on the current continuation line after
    /// indentation.
    fn avail(&self) -> usize {
        self.max_line_length.saturating_sub(self.indent_len())
    }

    fn write_indent(&mut self)
        ensures
            final(self).indent_width == old(self).indent_width,
            final(self).line_index == old(self).line_index,
            final(self).level == old(self).level,
            final(self).next_comment == old(self).next_comment,
            ({
                let ind = space_bytes(indent_width_at(old(self).level, old(self).indent_width));
                &&& old(self).out.pending + ind.len() <= usize::MAX ==> final(self).out.bytes() == old(self).out.bytes()
                    + ind
                &&& final(self).out.pending <= old(self).out.pending + ind.len()
            }),
    {
        let n = self.indent_len();
        let sp = spaces(n);
        proof {
            lemma_encode_spaces(n as nat);
        }
        self.out.push_str(sp.as_str());
    }

    fn push(&mut self, s: &str)
        ensures
            final(self).indent_width == old(self).indent_width,
            final(self).line_index == old(self).line_index,
            final(self).level == old(self).level,
            final(self).next_comment == old(self).next_comment,
            old(self).out.pending + s.spec_bytes().len() <= usize::MAX ==> final(self).out.bytes()
                == old(self).out.bytes() + s.spec_bytes(),
            final(self).out.pending <= old(self).out.pending + s.spec_bytes().len(),
    {
        self.out.push_str(s);
    }

    fn ensure_newline(&mut self)
        ensures
            final(self).indent_width == old(self).indent_width,
            final(self).line_index == old(self).line_index,
            final(self).level == old(self).level,
            final(self).next_comment == old(self).next_comment,
            old(self).out.pending == 0 ==> final(self).out.bytes() == old(self).out.bytes().push(10u8)
                && final(self).out.pending == 1,
            old(self).out.pending > 0 ==> final(self).out == old(self).out,
    {
        if !self.out.ends_with_newline() {
            self.out.push_newline();
        }
    }

    fn newline(&mut self)
        ensures
            final(self).indent_width == old(self).indent_width,
            final(self).line_index == old(self).line_index,
            final(self).level == old(self).level,
            final(self).next_comment == old(self).next_comment,
            old(self).out.pending < usize::MAX ==> final(self).out.bytes() == old(self).out.bytes().push(10u8),
            final(self).out.pending <= old(self).out.pending + 1,
            final(self).out.pending > 0,
    {
        self.out.push_newline();
    }

    // ── Comment placement ─────────────────────────────────────────

    /// Emit every pending comment whose start offset is `< before`.
    /// Each emitted comment goes on its own indented line.
    fn flush_leading_comments_before(&mut self, comments: &Vec<Comment>, before: usize)
        ensures
            final(self).line_index == old(self).line_index,
            final(self).level == old(self).level,
            old(self).next_comment <= final(self).next_comment,
            ({
                let ind = space_bytes(indent_width_at(old(self).level, old(self).indent_width));
                let (t, k) = flushed_from(comments@, old(self).next_comment as int, Some(before as int), ind);
                let lead = if old(self).out.pending == 0 && t.len() > 0 {
                    seq![10u8]
                } else {
                    Seq::empty()
                };
                &&& final(self).next_comment == k
                &&& old(self).out.pending + 1 + t.len() <= usize::MAX ==> final(self).out.bytes() == old(self).out.bytes()
                    + lead + t
            }),
    {
        let ghost ind = space_bytes(indent_width_at(self.level, self.indent_width));
        let ghost total = flushed_from(comments@, self.next_comment as int, Some(before as int), ind);
        let ghost b0 = self.out.bytes();
        let ghost p0 = self.out.pending as int;
        let ghost lead = if p0 == 0 && total.0.len() > 0 {
            seq![10u8]
        } else {
            Seq::<u8>::empty()
        };
        while self.next_comment < comments.len() && comments[self.next_comment].start < before
            invariant
                self.line_index == old(self).line_index,
                self.level == old(self).level,
                old(self).next_comment <= self.next_comment,
                ind == space_bytes(indent_width_at(self.level, self.indent_width)),
                self.indent_width == old(self).indent_width,
                total.1 == flushed_from(comments@, self.next_comment as int, Some(before as int), ind).1,
                lead == (if p0 == 0 && total.0.len() > 0 {
                    seq![10u8]
                } else {
                    Seq::<u8>::empty()
                }),
                self.next_comment == old(self).next_comment ==> self.out.bytes() == b0 && self.out.pending == p0,
                self.next_comment == old(self).next_comment ==> flushed_from(comments@, self.next_comment as int, Some(before as int), ind).0
                    == total.0,
                self.next_comment > old(self).next_comment && p0 + 1 + total.0.len() <= usize::MAX ==> ({
                    let rest = flushed_from(comments@, self.next_comment as int, Some(before as int), ind).0;
                    &&& self.out.pending > 0
                    &&& self.out.bytes() + rest == b0 + lead + total.0
                    &&& self.out.pending + rest.len() <= p0 + 1 + total.0.len()
                }),
            decreases comments@.len() - self.next_comment,
        {
            let c = &comments[self.next_comment];
            let ghost k = self.next_comment as int;
            let ghost w0 = self.out.bytes();
            let ghost q0 = self.out.pending as int;
            let ghost cb = comment_bytes(comments@[k], ind);
            let ghost rest1 = flushed_from(comments@, k + 1, Some(before as int), ind).0;
            let ghost rest0 = flushed_from(comments@, k, Some(before as int), ind).0;
            assert(rest0 == ind + cb + seq![10u8] + rest1);
            self.next_comment += 1;
            // Leading comments go on their own line, at the current
            // indentation.
            self.ensure_newline();
            let ghost w1 = self.out.bytes();
            let ghost q1 = self.out.pending as int;
            self.write_indent();
            let ghost w2 = self.out.bytes();
            self.write_comment_text(c);
            let ghost w3 = self.out.bytes();
            self.newline();
            proof {
                if p0 + 1 + total.0.len() <= usize::MAX {
                    let lk = if k == old(self).next_comment && p0 == 0 {
                        seq![10u8]
                    } else {
                        Seq::<u8>::empty()
                    };
                    assert(w1 == w0 + lk);
                    assert(q1 + rest0.len() <= p0 + 1 + total.0.len());
                    assert(w2 == w1 + ind);
                    assert(w3 == w2 + cb);
                    assert(self.out.bytes() == w3.push(10u8));
                    assert(self.out.bytes() + rest1 =~= w0 + lk + rest0);
                    if k == old(self).next_comment {
                        assert(rest0 == total.0);
                        assert(total.0.len() > 0);
                        assert(lk == lead);
                        assert(w0 == b0);
                        assert(w0 + lk + rest0 =~= b0 + lead + total.0);
                    }
                }
            }
        }
        proof {
            if self.next_comment == old(self).next_comment {
                assert(total.0 =~= Seq::<u8>::empty());
                assert(self.out.bytes() =~= b0 + lead + total.0);
            } else if p0 + 1 + total.0.len() <= usize::MAX {
                assert(self.out.bytes() =~= self.out.bytes() + Seq::<u8>::empty());
            }
        }
    }

    /// Emit trailing comments that live on the same source line as a
    /// statement whose span ends at `end_offset`. Each trailing
    /// comment is appended to the current line with two leading
    /// spaces; subsequent trailing comments on the same line are kept
    /// adjacent.
    #[verifier::rlimit(80)]
    #[verifier::spinoff_prover]
    fn flush_trailing_comments_for(&mut self, comments: &Vec<Comment>, end_offset: usize) -> (wrote: bool)
        requires
            old(self).line_index.wf(),
        ensures
            final(self).line_index == old(self).line_index,
            final(self).level == old(self).level,
            old(self).next_comment <= final(self).next_comment,
            ({
                let ind = space_bytes(indent_width_at(old(self).level, old(self).indent_width));
                let line = line_number(
                    old(self).line_index.starts(),
                    if end_offset > 0 { end_offset - 1 } else { 0 },
                );
                let (t, k) = trailing_run(comments@, old(self).next_comment as int, line, old(self).line_index.starts(), ind);
                let base = if old(self).out.pending > 0 {
                    old(self).out.bytes().drop_last()
                } else {
                    old(self).out.bytes()
                };
                &&& final(self).next_comment == k
                &&& wrote == (k > old(self).next_comment)
                &&& old(self).out.pending + 3 + t.len() <= usize::MAX ==> final(self).out.bytes() == if wrote {
                    base + t + seq![10u8]
                } else {
                    old(self).out.bytes()
                }
            }),
    {
        let ghost ind = space_bytes(indent_width_at(self.level, self.indent_width));
        let ghost starts = self.line_index.starts();
        let stmt_line = self.line_of(end_offset.saturating_sub(1));
        let ghost line = line_number(starts, if end_offset > 0 { end_offset - 1 } else { 0 });
        let ghost total = trailing_run(comments@, self.next_comment as int, line, starts, ind);
        let ghost p0 = self.out.pending as int;
        let ghost b0 = self.out.bytes();
        let ghost base = if p0 > 0 { b0.drop_last() } else { b0 };
        proof {
            reveal_strlit("  ");
            assert(((32u32 & 0x7Fu32) as u8) == 32u8) by (bit_vector);
            assert("  "@ =~= seq![' ', ' ']);
            assert(encode_scalar(' ' as u32) =~= seq![32u8]);
            assert(seq![' ', ' '].drop_first() =~= seq![' ']);
            assert(seq![' '].drop_first() =~= Seq::<char>::empty());
            assert(encode_utf8(seq![' ']) =~= seq![32u8] + encode_utf8(Seq::<char>::empty()));
            assert(encode_utf8(seq![' ', ' ']) =~= seq![32u8] + encode_utf8(seq![' ']));
        }
        let mut wrote = false;
        while self.next_comment < comments.len()
            invariant_except_break
                total.1 == trailing_run(comments@, self.next_comment as int, line, starts, ind).1,
            invariant
                self.line_index == old(self).line_index,
                self.line_index.wf(),
                self.level == old(self).level,
                self.indent_width == old(self).indent_width,
                old(self).next_comment <= self.next_comment,
                starts == self.line_index.starts(),
                stmt_line == Some(line),
                ind == space_bytes(indent_width_at(self.level, self.indent_width)),
                encode_utf8("  "@) == seq![32u8, 32u8],
                wrote == (self.next_comment > old(self).next_comment),
                !wrote ==> self.out.bytes() == b0 && self.out.pending == p0,
                !wrote ==> trailing_run(comments@, self.next_comment as int, line, starts, ind) == total,
                base == (if p0 > 0 { b0.drop_last() } else { b0 }),
                wrote && p0 + 3 + total.0.len() <= usize::MAX ==> ({
                    let rest = trailing_run(comments@, self.next_comment as int, line, starts, ind).0;
                    &&& self.out.pending > 0
                    &&& self.out.bytes().drop_last() + rest == base + total.0
                    &&& self.out.bytes().last() == 10u8
                    &&& self.out.bytes().len() > 0
                    &&& self.out.pending + rest.len() <= p0 + 2 + total.0.len()
                }),
            ensures
                total.1 == self.next_comment,
                trailing_run(comments@, self.next_comment as int, line, starts, ind).0.len() == 0,
            decreases comments@.len() - self.next_comment,
        {
            let c = &comments[self.next_comment];
            if !c.trailing {
                break;
            }
            let c_line = self.line_of(c.start);
            if c_line != stmt_line {
                break;
            }
            let ghost k = self.next_comment as int;
            let ghost cb = comment_bytes(comments@[k], ind);
            let ghost rest0 = trailing_run(comments@, k, line, starts, ind).0;
            let ghost rest1 = trailing_run(comments@, k + 1, line, starts, ind).0;
            assert(rest0 == seq![32u8, 32u8] + cb + rest1);
            let ghost w0 = self.out.bytes();
            self.next_comment += 1;
            if self.out.ends_with_newline() {
                self.out.pop_newline();
            }
            let ghost w1 = self.out.bytes();
            self.push("  ");
            let ghost w2 = self.out.bytes();
            self.write_comment_text(c);
            let ghost w3 = self.out.bytes();
            self.newline();
            proof {
                if p0 + 3 + total.0.len() <= usize::MAX {
                    if k == old(self).next_comment {
                        assert(w1 == base);
                    } else {
                        assert(w1 == w0.drop_last());
                    }
                    assert(w2 == w1 + seq![32u8, 32u8]);
                    assert(w3 == w2 + cb);
                    assert(self.out.bytes() == w3.push(10u8));
                    assert(self.out.bytes().drop_last() =~= w3);
                    assert(self.out.bytes().drop_last() + rest1 =~= w1 + rest0);
                }
            }
            wrote = true;
        }
        proof {
            if wrote && p0 + 3 + total.0.len() <= usize::MAX {
                let rest = trailing_run(comments@, self.next_comment as int, line, starts, ind).0;
                assert(rest =~= Seq::<u8>::empty());
                assert(self.out.bytes() =~= self.out.bytes().drop_last().push(10u8));
                assert(self.out.bytes() =~= base + total.0 + seq![10u8]);
            }
        }
        wrote
    }

    /// Emit all remaining comments (end-of-file trivia).
    fn flush_remaining_comments(&mut self, comments: &Vec<Comment>)
        ensures
            final(self).line_index == old(self).line_index,
            final(self).level == old(self).level,
            old(self).next_comment <= final(self).next_comment,
            ({
                let ind = space_bytes(indent_width_at(old(self).level, old(self).indent_width));
                let (t, k) = flushed_from(comments@, old(self).next_comment as int, None::<int>, ind);
                let lead = if old(self).out.pending == 0 && t.len() > 0 {
                    seq![10u8]
                } else {
                    Seq::empty()
                };
                &&& final(self).next_comment == k
                &&& old(self).out.pending + 1 + t.len() <= usize::MAX ==> final(self).out.bytes() == old(self).out.bytes()
                    + lead + t
            }),
    {
        let ghost ind = space_bytes(indent_width_at(self.level, self.indent_width));
        let ghost total = flushed_from(comments@, self.next_comment as int, None::<int>, ind);
        let ghost b0 = self.out.bytes();
        let ghost p0 = self.out.pending as int;
        let ghost lead = if p0 == 0 && total.0.len() > 0 {
            seq![10u8]
        } else {
            Seq::<u8>::empty()
        };
        while self.next_comment < comments.len()
            invariant
                self.line_index == old(self).line_index,
                self.level == old(self).level,
                old(self).next_comment <= self.next_comment,
                ind == space_bytes(indent_width_at(self.level, self.indent_width)),
                self.indent_width == old(self).indent_width,
                total.1 == flushed_from(comments@, self.next_comment as int, None::<int>, ind).1,
                lead == (if p0 == 0 && total.0.len() > 0 {
                    seq![10u8]
                } else {
                    Seq::<u8>::empty()
                }),
                self.next_comment == old(self).next_comment ==> self.out.bytes() == b0 && self.out.pending == p0,
                self.next_comment == old(self).next_comment ==> flushed_from(comments@, self.next_comment as int, None::<int>, ind).0
                    == total.0,
                self.next_comment > old(self).next_comment && p0 + 1 + total.0.len() <= usize::MAX ==> ({
                    let rest = flushed_from(comments@, self.next_comment as int, None::<int>, ind).0;
                    &&& self.out.pending > 0
                    &&& self.out.bytes() + rest == b0 + lead + total.0
                    &&& self.out.pending + rest.len() <= p0 + 1 + total.0.len()
                }),
            decreases comments@.len() - self.next_comment,
        {
            let c = &comments[self.next_comment];
            let ghost k = self.next_comment as int;
            let ghost w0 = self.out.bytes();
            let ghost q0 = self.out.pending as int;
            let ghost cb = comment_bytes(comments@[k], ind);
            let ghost rest1 = flushed_from(comments@, k + 1, None::<int>, ind).0;
            let ghost rest0 = flushed_from(comments@, k, None::<int>, ind).0;
            assert(rest0 == ind + cb + seq![10u8] + rest1);
            self.next_comment += 1;
            // Leading comments go on their own line, at the current
            // indentation.
            self.ensure_newline();
            let ghost w1 = self.out.bytes();
            let ghost q1 = self.out.pending as int;
            self.write_indent();
            let ghost w2 = self.out.bytes();
            self.write_comment_text(c);
            let ghost w3 = self.out.bytes();
            self.newline();
            proof {
                if p0 + 1 + total.0.len() <= usize::MAX {
                    let lk = if k == old(self).next_comment && p0 == 0 {
                        seq![10u8]
                    } else {
                        Seq::<u8>::empty()
                    };
                    assert(w1 == w0 + lk);
                    assert(q1 + rest0.len() <= p0 + 1 + total.0.len());
                    assert(w2 == w1 + ind);
                    assert(w3 == w2 + cb);
                    assert(self.out.bytes() == w3.push(10u8));
                    assert(self.out.bytes() + rest1 =~= w0 + lk + rest0);
                    if k == old(self).next_comment {
                        assert(rest0 == total.0);
                        assert(total.0.len() > 0);
                        assert(lk == lead);
                        assert(w0 == b0);
                        assert(w0 + lk + rest0 =~= b0 + lead + total.0);
                    }
                }
            }
        }
        proof {
            if self.next_comment == old(self).next_comment {
                assert(total.0 =~= Seq::<u8>::empty());
                assert(self.out.bytes() =~= b0 + lead + total.0);
            } else if p0 + 1 + total.0.len() <= usize::MAX {
                assert(self.out.bytes() =~= self.out.bytes() + Seq::<u8>::empty());
            }
        }
    }

    fn write_comment_text(&mut self, c: &Comment)
        ensures
            final(self).indent_width == old(self).indent_width,
            final(self).line_index == old(self).line_index,
            final(self).level == old(self).level,
            final(self).next_comment == old(self).next_comment,
            c.kind == CommentKind::Line && old(self).out.pending + encode_utf8(c.text@).len() <= usize::MAX
                ==> final(self).out.bytes() == old(self).out.bytes() + encode_utf8(c.text@),
            ({
                let t = block_comment_bytes_from(
                    encode_utf8(c.text@),
                    0,
                    0,
                    space_bytes(indent_width_at(old(self).level, old(self).indent_width)),
                );
                c.kind == CommentKind::Block && old(self).out.pending + t.len() <= usize::MAX ==> final(self).out.bytes()
                    == old(self).out.bytes() + t
            }),
            final(self).out.pending <= old(self).out.pending + comment_bytes(
                *c,
                space_bytes(indent_width_at(old(self).level, old(self).indent_width)),
            ).len(),
    {
        match c.kind {
            CommentKind::Line => self.push(c.text.as_str()),
            CommentKind::Block => {
                // Continuation lines of a multi-line block comment are
                // re-indented to the current indentation.
                let indent = spaces(self.indent_len());
                let text = c.text.as_str();
                let b = text.as_bytes();
                let ghost bytes = text.spec_bytes();
                let ghost ind = space_bytes(indent_width_at(self.level, self.indent_width));
                let ghost target = block_comment_bytes_from(bytes, 0, 0, ind);
                let ghost b0 = self.out.bytes();
                let ghost p0 = self.out.pending as int;
                proof {
                    encode_utf8_valid_utf8(text@);
                    lemma_encode_spaces(indent_width_at(self.level, self.indent_width));
                }
                let mut start: usize = 0;
                let mut i: usize = 0;
                while i < b.len()
                    invariant
                        start <= i <= b@.len(),
                        b@ == bytes,
                        bytes == text.spec_bytes(),
                        valid_utf8(bytes),
                        at_boundary(bytes, start as int),
                        self.line_index == old(self).line_index,
                        self.level == old(self).level,
                        self.next_comment == old(self).next_comment,
                        encode_utf8(indent@) == ind,
                        self.indent_width == old(self).indent_width,
                        self.out.pending + block_comment_bytes_from(bytes, start as int, i as int, ind).len() <= p0
                            + target.len(),
                        p0 + target.len() <= usize::MAX ==> self.out.bytes() + block_comment_bytes_from(
                            bytes,
                            start as int,
                            i as int,
                            ind,
                        ) == b0 + target,
                    decreases b@.len() - i,
                {
                    if b[i] == 10u8 {
                        proof {
                            lemma_ascii_is_boundary(bytes, i as int);
                            lemma_after_ascii(bytes, i as int);
                        }
                        let line = substring(text, start, i);
                        let ghost w0 = self.out.bytes();
                        self.write_block_comment_line(line.as_str(), start == 0, indent.as_str());
                        proof {
                            let blk = block_line_bytes(bytes.subrange(start as int, i as int), start == 0, ind);
                            let rest2 = block_comment_bytes_from(bytes, i + 1, i + 1, ind);
                            assert(block_comment_bytes_from(bytes, start as int, i as int, ind) == blk + rest2);
                            if p0 + target.len() <= usize::MAX {
                                assert(self.out.bytes() + rest2 =~= w0 + (blk + rest2));
                            }
                        }
                        start = i + 1;
                    }
                    i += 1;
                }
                let line = substring(text, start, b.len());
                self.write_block_comment_line(line.as_str(), start == 0, indent.as_str());
            },
        }
    }

    /// One line of a block comment: the first as it is, each later one on
    /// a new line after the indentation, with one space before a `*`.
    fn write_block_comment_line(&mut self, line: &str, first: bool, indent: &str)
        ensures
            final(self).indent_width == old(self).indent_width,
            final(self).line_index == old(self).line_index,
            final(self).level == old(self).level,
            final(self).next_comment == old(self).next_comment,
            ({
                let blk = block_line_bytes(line.spec_bytes(), first, indent.spec_bytes());
                &&& old(self).out.pending + blk.len() <= usize::MAX ==> final(self).out.bytes() == old(self).out.bytes()
                    + blk
                &&& final(self).out.pending <= old(self).out.pending + blk.len()
            }),
    {
        let ghost blk = block_line_bytes(line.spec_bytes(), first, indent.spec_bytes());
        let ghost b0 = self.out.bytes();
        proof {
            encode_utf8_decode_utf8(line@);
            reveal_strlit(" ");
            assert(((32u32 & 0x7Fu32) as u8) == 32u8) by (bit_vector);
            assert(" "@ =~= seq![' ']);
            assert(encode_scalar(' ' as u32) =~= seq![32u8]);
            assert(seq![' '].drop_first() =~= Seq::<char>::empty());
            assert(encode_utf8(seq![' ']) =~= seq![32u8] + encode_utf8(Seq::<char>::empty()));
        }
        if first {
            self.push(line);
        } else {
            self.newline();
            let trimmed = trim_start(line);
            self.push(indent);
            if trimmed.len() > 0 {
                if trimmed.as_bytes()[0] == 42u8 {
                    self.push(" ");
                }
                self.push(trimmed);
            }
            proof {
                if old(self).out.pending + blk.len() <= usize::MAX {
                    assert(self.out.bytes() =~= b0 + blk);
                }
            }
        }
    }

    // ── Top-level ─────────────────────────────────────────────────

    fn render_file(&mut self, comments: &Vec<Comment>, file: &File)
        requires
            old(self).line_index.wf(),
    {
        let mut i: usize = 0;
        while i < file.items.len()
            invariant
                i <= file.items@.len(),
                self.line_index.wf(),
            decreases file.items@.len() - i,
        {
            let item = &file.items[i];
            let start = item_span(item).start;
            self.flush_leading_comments_before(comments, start);
            if i > 0 && !self.out.ends_with_blank_line() {
                self.ensure_newline();
                self.newline();
            }
            self.render_item(comments, item);
            let end = item_span(item).end;
            self.flush_trailing_comments_for(comments, end);
            i += 1;
        }
        self.flush_remaining_comments(comments);
    }

    fn render_item(&mut self, comments: &Vec<Comment>, item: &Item)
        requires
            old(self).line_index.wf(),
        ensures
            final(self).line_index == old(self).line_index,
            final(self).level == old(self).level,
            old(self).next_comment <= final(self).next_comment,
    {
        match item {
            Item::Pragma(p) => self.render_pragma(p),
            Item::Include(i) => self.render_include(i),
            Item::TemplateDef(t) => self.render_template_def(comments, t),
            Item::FunctionDef(f) => self.render_function_def(comments, f),
            Item::BusDef(b) => self.render_bus_def(comments, b),
            Item::MainComponent(m) => self.render_main_component(m),
        }
    }

    #[verifier::rlimit(40)]
    fn render_pragma(&mut self, node: &Pragma)
        ensures
            final(self).line_index == old(self).line_index,
            final(self).level == old(self).level,
            final(self).next_comment == old(self).next_comment,
            old(self).out.pending + encode_utf8(crate::pretty_print::pragma_text(*node) + "\n"@).len() <= usize::MAX
                ==> final(self).out.bytes() == old(self).out.bytes() + encode_utf8(
                crate::pretty_print::pragma_text(*node) + "\n"@,
            ),
    {
        let ghost b0 = self.out.bytes();
        let ghost p0 = self.out.pending;
        let ghost total = encode_utf8(crate::pretty_print::pragma_text(*node) + "\n"@);
        proof {
            reveal_strlit("\n");
            reveal_strlit(";");
            reveal_strlit(";\n");
            reveal_strlit("pragma custom_templates;");
            reveal_strlit("pragma custom_templates;\n");
        }
        match &node.kind {
            PragmaKind::Version(v) => {
                let t1 = u32_text(v.major);
                let t2 = u32_text(v.minor);
                let t3 = u32_text(v.patch);
                proof {
                    let a = "pragma circom "@ + t1@ + "."@ + t2@ + "."@ + t3@;
                    assert(";\n"@ =~= ";"@ + "\n"@);
                    assert(crate::pretty_print::pragma_text(*node) + "\n"@ =~= a + ";\n"@);
                    lemma_encode_utf8_concat("pragma circom "@ + t1@ + "."@ + t2@ + "."@, t3@);
                    lemma_encode_utf8_concat("pragma circom "@ + t1@ + "."@ + t2@, "."@);
                    lemma_encode_utf8_concat("pragma circom "@ + t1@ + "."@, t2@);
                    lemma_encode_utf8_concat("pragma circom "@ + t1@, "."@);
                    lemma_encode_utf8_concat("pragma circom "@, t1@);
                    lemma_encode_utf8_concat(a, ";\n"@);
                }
                self.push("pragma circom ");
                self.push(t1.as_str());
                self.push(".");
                self.push(t2.as_str());
                self.push(".");
                self.push(t3.as_str());
                self.push(";\n");
                proof {
                    if p0 + total.len() <= usize::MAX {
                        assert(self.out.bytes() =~= b0 + total);
                    }
                }
            },
            PragmaKind::CustomTemplates => {
                assert("pragma custom_templates;\n"@ =~= "pragma custom_templates;"@ + "\n"@);
                self.push("pragma custom_templates;\n");
            },
        }
    }

    fn render_include(&mut self, node: &Include)
        ensures
            final(self).line_index == old(self).line_index,
            final(self).level == old(self).level,
            final(self).next_comment == old(self).next_comment,
    {
        self.push("include \"");
        self.push(node.path.as_str());
        self.push("\";\n");
    }

    fn render_template_def(&mut self, comments: &Vec<Comment>, node: &TemplateDef)
        requires
            old(self).line_index.wf(),
        ensures
            final(self).line_index == old(self).line_index,
            final(self).level == old(self).level,
            old(self).next_comment <= final(self).next_comment,
    {
        let mut header = String::new();
        if node.is_custom {
            header.append("custom ");
        }
        header.append("template ");
        if node.is_extern {
            header.append("extern ");
        }
        if node.is_parallel {
            header.append("parallel ");
        }
        header.append(node.name.name.as_str());
        header.append("(");
        header.append(comma_sep_idents_inline(&node.params).as_str());
        header.append(") ");
        self.write_indent();
        self.push(header.as_str());
        self.render_block(comments, &node.body);
        self.newline();
    }

    fn render_function_def(&mut self, comments: &Vec<Comment>, node: &FunctionDef)
        requires
            old(self).line_index.wf(),
        ensures
            final(self).line_index == old(self).line_index,
            final(self).level == old(self).level,
            old(self).next_comment <= final(self).next_comment,
    {
        self.write_indent();
        self.push("function ");
        self.push(node.name.name.as_str());
        self.push("(");
        self.push(comma_sep_idents_inline(&node.params).as_str());
        self.push(") ");
        self.render_block(comments, &node.body);
        self.newline();
    }

    fn render_bus_def(&mut self, comments: &Vec<Comment>, node: &BusDef)
        requires
            old(self).line_index.wf(),
        ensures
            final(self).line_index == old(self).line_index,
            final(self).level == old(self).level,
            old(self).next_comment <= final(self).next_comment,
    {
        self.write_indent();
        self.push("bus ");
        self.push(node.name.name.as_str());
        self.push("(");
        self.push(comma_sep_idents_inline(&node.params).as_str());
        self.push(") {\n");
        let saved = self.level;
        self.level = self.level.saturating_add(1);
        let mut i: usize = 0;
        while i < node.body.len()
            invariant
                i <= node.body@.len(),
                self.line_index == old(self).line_index,
                self.line_index.wf(),
                old(self).next_comment <= self.next_comment,
            decreases node.body@.len() - i,
        {
            let member = &node.body[i];
            let mspan = bus_member_span(member);
            self.flush_leading_comments_before(comments, mspan.start);
            self.write_indent();
            self.render_bus_member(member);
            self.push(";\n");
            self.flush_trailing_comments_for(comments, mspan.end);
            i += 1;
        }
        self.level = saved;
        self.write_indent();
        self.push("}\n");
    }

    fn render_bus_member(&mut self, node: &BusMember)
        ensures
            final(self).line_index == old(self).line_index,
            final(self).level == old(self).level,
            final(self).next_comment == old(self).next_comment,
    {
        match node {
            BusMember::Signal(s) => self.render_signal_decl(s),
            BusMember::Bus(b) => self.render_bus_field_decl(b),
        }
    }

    fn render_bus_field_decl(&mut self, node: &BusFieldDecl)
        ensures
            final(self).line_index == old(self).line_index,
            final(self).level == old(self).level,
            final(self).next_comment == old(self).next_comment,
    {
        let mut head = render_bus_type(&node.bus_type);
        if node.tags.len() > 0 {
            head.append(" {");
            head.append(comma_sep_idents_inline(&node.tags).as_str());
            head.append("}");
        }
        head.append(" ");
        head.append(node.name.name.as_str());
        append_dimensions(&mut head, &node.dimensions);
        self.push(head.as_str());
    }

    fn render_main_component(&mut self, node: &MainComponent)
        ensures
            final(self).line_index == old(self).line_index,
            final(self).level == old(self).level,
            final(self).next_comment == old(self).next_comment,
    {
        self.write_indent();
        self.push("component main");
        if node.public_signals.len() > 0 {
            self.push(" {public [");
            self.push(comma_sep_idents_inline(&node.public_signals).as_str());
            self.push("]}");
        }
        self.push(" = ");
        self.render_expr(&node.expr);
        self.push(";\n");
    }

    // ── Statements & blocks ───────────────────────────────────────

    fn render_block(&mut self, comments: &Vec<Comment>, block: &Block)
        requires
            old(self).line_index.wf(),
        ensures
            final(self).line_index == old(self).line_index,
            final(self).level == old(self).level,
            old(self).next_comment <= final(self).next_comment,
        decreases block, 0nat,
    {
        self.push("{\n");
        let saved = self.level;
        self.level = self.level.saturating_add(1);
        let mut i: usize = 0;
        while i < block.stmts.len()
            invariant
                i <= block.stmts@.len(),
                self.line_index == old(self).line_index,
                self.line_index.wf(),
                old(self).next_comment <= self.next_comment,
            decreases block.stmts@.len() - i,
        {
            let stmt = &block.stmts[i];
            let s = stmt.span;
            self.flush_leading_comments_before(comments, s.start);
            assert(decreases_to!(block => block.stmts@[i as int]));
            self.render_statement(comments, stmt);
            self.flush_trailing_comments_for(comments, s.end);
            i += 1;
        }
        // Flush comments that sit before the closing brace so they are
        // not lost to end-of-file trivia.
        self.flush_leading_comments_before(comments, block.span.end);
        self.level = saved;
        self.write_indent();
        self.push("}");
    }

    /// Render a statement that ends in `;` and a newline, and say whether
    /// the statement was one.
    fn render_simple_stmt_body(&mut self, stmt: &Statement) -> (simple: bool)
        ensures
            final(self).line_index == old(self).line_index,
            final(self).level == old(self).level,
            final(self).next_comment == old(self).next_comment,
    {
        match &stmt.kind {
            StatementKind::VarDecl(n) => self.render_var_decl(n),
            StatementKind::SignalDecl(n) => self.render_signal_decl(n),
            StatementKind::ComponentDecl(n) => self.render_component_decl(n),
            StatementKind::BusDecl(n) => self.render_bus_instance_decl(n),
            StatementKind::Assignment(n) => self.render_assign_stmt(n),
            StatementKind::CompoundAssign(n) => self.render_compound_assign_stmt(n),
            StatementKind::ConstraintEq(n) => self.render_constraint_eq_stmt(n),
            StatementKind::TupleAssign(n) => self.render_tuple_assign_stmt(n),
            StatementKind::Return(n) => {
                self.push("return ");
                self.render_expr(&n.value);
            },
            StatementKind::Log(n) => self.render_log_stmt(n),
            StatementKind::Assert(n) => {
                self.push("assert(");
                self.render_expr(&n.expr);
                self.push(")");
            },
            StatementKind::Expression(expr) => self.render_expr(expr),
            _ => {
                return false;
            },
        }
        self.push(";\n");
        true
    }

    fn render_statement(&mut self, comments: &Vec<Comment>, stmt: &Statement)
        requires
            old(self).line_index.wf(),
        ensures
            final(self).line_index == old(self).line_index,
            final(self).level == old(self).level,
            old(self).next_comment <= final(self).next_comment,
        decreases stmt, 0nat,
    {
        self.write_indent();
        if self.render_simple_stmt_body(stmt) {
            return;
        }
        match &stmt.kind {
            StatementKind::IfElse(n) => {
                self.render_if_else(comments, n);
                self.newline();
            },
            StatementKind::For(n) => {
                self.render_for_loop(comments, n);
                self.newline();
            },
            StatementKind::While(n) => {
                self.render_while_loop(comments, n);
                self.newline();
            },
            StatementKind::Increment(expr) => {
                self.render_expr(expr);
                self.push("++;\n");
            },
            StatementKind::Decrement(expr) => {
                self.render_expr(expr);
                self.push("--;\n");
            },
            StatementKind::Block(blk) => {
                self.render_block(comments, blk);
                self.newline();
            },
            StatementKind::Error => self.push("/* error */;\n"),
            _ => {},
        }
    }

    fn render_var_decl(&mut self, node: &VarDecl)
        ensures
            final(self).line_index == old(self).line_index,
            final(self).level == old(self).level,
            final(self).next_comment == old(self).next_comment,
    {
        self.push("var ");
        let mut entries: Vec<String> = Vec::new();
        let mut i: usize = 0;
        while i < node.names.len()
            invariant
                i <= node.names@.len(),
            decreases node.names@.len() - i,
        {
            entries.push(render_var_decl_entry(&node.names[i]));
            i += 1;
        }
        self.emit_wrapped_entries(&entries, "var ");
    }

    fn render_signal_decl(&mut self, node: &SignalDecl)
        ensures
            final(self).line_index == old(self).line_index,
            final(self).level == old(self).level,
            final(self).next_comment == old(self).next_comment,
    {
        let mut prefix = String::from_str("signal ");
        match node.kind {
            SignalKind::Input => prefix.append("input "),
            SignalKind::Output => prefix.append("output "),
            SignalKind::Intermediate => {},
        }
        if node.tags.len() > 0 {
            prefix.append("{");
            prefix.append(comma_sep_idents_inline(&node.tags).as_str());
            prefix.append("} ");
        }
        self.push(prefix.as_str());
        let mut entries: Vec<String> = Vec::new();
        let mut i: usize = 0;
        while i < node.names.len()
            invariant
                i <= node.names@.len(),
            decreases node.names@.len() - i,
        {
            entries.push(render_signal_decl_entry(&node.names[i]));
            i += 1;
        }
        self.emit_wrapped_entries(&entries, prefix.as_str());
    }

    fn render_component_decl(&mut self, node: &ComponentDecl)
        ensures
            final(self).line_index == old(self).line_index,
            final(self).level == old(self).level,
            final(self).next_comment == old(self).next_comment,
    {
        let mut prefix = String::from_str("component ");
        if node.is_parallel {
            prefix.append("parallel ");
        }
        self.push(prefix.as_str());
        let mut entries: Vec<String> = Vec::new();
        let mut i: usize = 0;
        while i < node.names.len()
            invariant
                i <= node.names@.len(),
            decreases node.names@.len() - i,
        {
            entries.push(render_component_decl_entry(&node.names[i]));
            i += 1;
        }
        self.emit_wrapped_entries(&entries, prefix.as_str());
    }

    fn render_bus_instance_decl(&mut self, node: &BusInstanceDecl)
        ensures
            final(self).line_index == old(self).line_index,
            final(self).level == old(self).level,
            final(self).next_comment == old(self).next_comment,
    {
        self.push("signal ");
        match node.signal_kind {
            SignalKind::Input => self.push("input "),
            SignalKind::Output => self.push("output "),
            SignalKind::Intermediate => {},
        }
        self.push(render_bus_type(&node.bus_type).as_str());
        self.push(" ");
        if node.tags.len() > 0 {
            self.push("{");
            self.push(comma_sep_idents_inline(&node.tags).as_str());
            self.push("} ");
        }
        self.push(node.name.name.as_str());
        let mut dims = String::new();
        append_dimensions(&mut dims, &node.dimensions);
        self.push(dims.as_str());
        match &node.init {
            Some((op, init)) => {
                self.push(signal_assign_op_str(*op));
                self.render_expr(init);
            },
            None => {},
        }
    }

    fn render_assign_stmt(&mut self, node: &AssignStmt)
        ensures
            final(self).line_index == old(self).line_index,
            final(self).level == old(self).level,
            final(self).next_comment == old(self).next_comment,
    {
        self.render_expr(&node.lhs);
        self.push(assign_op_str(node.op));
        self.render_expr(&node.rhs);
    }

    fn render_compound_assign_stmt(&mut self, node: &CompoundAssignStmt)
        ensures
            final(self).line_index == old(self).line_index,
            final(self).level == old(self).level,
            final(self).next_comment == old(self).next_comment,
    {
        self.render_expr(&node.lhs);
        self.push(compound_op_str(node.op));
        self.render_expr(&node.rhs);
    }

    fn render_constraint_eq_stmt(&mut self, node: &ConstraintEqStmt)
        ensures
            final(self).line_index == old(self).line_index,
            final(self).level == old(self).level,
            final(self).next_comment == old(self).next_comment,
    {
        self.render_expr(&node.lhs);
        self.push(" === ");
        self.render_expr(&node.rhs);
    }

    fn render_tuple_assign_stmt(&mut self, node: &TupleAssignStmt)
        ensures
            final(self).line_index == old(self).line_index,
            final(self).level == old(self).level,
            final(self).next_comment == old(self).next_comment,
    {
        self.push("(");
        let mut i: usize = 0;
        while i < node.targets.len()
            invariant
                i <= node.targets@.len(),
                self.line_index == old(self).line_index,
                self.level == old(self).level,
                self.next_comment == old(self).next_comment,
            decreases node.targets@.len() - i,
        {
            if i > 0 {
                self.push(", ");
            }
            match &node.targets[i] {
                Some(e) => self.push(render_expr_inline(e).as_str()),
                None => self.push("_"),
            }
            i += 1;
        }
        self.push(")");
        self.push(assign_op_str(node.op));
        self.render_expr(&node.rhs);
    }

    fn render_if_else(&mut self, comments: &Vec<Comment>, node: &IfElse)
        requires
            old(self).line_index.wf(),
        ensures
            final(self).line_index == old(self).line_index,
            final(self).level == old(self).level,
            old(self).next_comment <= final(self).next_comment,
        decreases node, 0nat,
    {
        self.push("if (");
        self.render_expr(&node.cond);
        self.push(") ");
        self.render_block(comments, &node.then_body);
        match &node.else_body {
            Some(else_body) => {
                if else_body.stmts.len() == 1 {
                    match &else_body.stmts[0].kind {
                        StatementKind::IfElse(inner) => {
                            self.push(" else ");
                            assert(decreases_to!(node => else_body.stmts@[0]));
                            let ghost st = else_body.stmts@[0];
                            assert(decreases_to!(st => st.kind));
                            assert(decreases_to!(st.kind => st.kind->IfElse_0));
                            self.render_if_else(comments, inner);
                            return;
                        },
                        _ => {},
                    }
                }
                self.push(" else ");
                self.render_block(comments, else_body);
            },
            None => {},
        }
    }

    fn render_for_loop(&mut self, comments: &Vec<Comment>, node: &ForLoop)
        requires
            old(self).line_index.wf(),
        ensures
            final(self).line_index == old(self).line_index,
            final(self).level == old(self).level,
            old(self).next_comment <= final(self).next_comment,
        decreases node, 0nat,
    {
        self.push("for (");
        self.render_for_init(&node.init);
        self.push("; ");
        self.render_expr(&node.cond);
        self.push("; ");
        self.render_for_step(&node.step);
        self.push(") ");
        self.render_block(comments, &node.body);
    }

    fn render_for_init(&mut self, stmt: &Statement)
        ensures
            final(self).line_index == old(self).line_index,
            final(self).level == old(self).level,
            final(self).next_comment == old(self).next_comment,
    {
        match &stmt.kind {
            StatementKind::VarDecl(n) => self.render_var_decl(n),
            StatementKind::Assignment(n) => self.render_assign_stmt(n),
            StatementKind::Expression(e) => self.render_expr(e),
            other => {
                self.push("/* unsupported for-init: ");
                self.push(statement_kind_debug(other).as_str());
                self.push(" */");
            },
        }
    }

    fn render_for_step(&mut self, stmt: &Statement)
        ensures
            final(self).line_index == old(self).line_index,
            final(self).level == old(self).level,
            final(self).next_comment == old(self).next_comment,
    {
        match &stmt.kind {
            StatementKind::Assignment(n) => self.render_assign_stmt(n),
            StatementKind::CompoundAssign(n) => self.render_compound_assign_stmt(n),
            StatementKind::Increment(e) => {
                self.render_expr(e);
                self.push("++");
            },
            StatementKind::Decrement(e) => {
                self.render_expr(e);
                self.push("--");
            },
            StatementKind::Expression(e) => self.render_expr(e),
            other => {
                self.push("/* unsupported for-step: ");
                self.push(statement_kind_debug(other).as_str());
                self.push(" */");
            },
        }
    }

    fn render_while_loop(&mut self, comments: &Vec<Comment>, node: &WhileLoop)
        requires
            old(self).line_index.wf(),
        ensures
            final(self).line_index == old(self).line_index,
            final(self).level == old(self).level,
            old(self).next_comment <= final(self).next_comment,
        decreases node, 0nat,
    {
        self.push("while (");
        self.render_expr(&node.cond);
        self.push(") ");
        self.render_block(comments, &node.body);
    }

    fn render_log_stmt(&mut self, node: &LogStmt)
        ensures
            final(self).line_index == old(self).line_index,
            final(self).level == old(self).level,
            final(self).next_comment == old(self).next_comment,
    {
        self.push("log(");
        let mut i: usize = 0;
        while i < node.args.len()
            invariant
                i <= node.args@.len(),
                self.line_index == old(self).line_index,
                self.level == old(self).level,
                self.next_comment == old(self).next_comment,
            decreases node.args@.len() - i,
        {
            if i > 0 {
                self.push(", ");
            }
            match &node.args[i] {
                LogArg::Expr(e) => self.push(render_expr_inline(e).as_str()),
                LogArg::String(s) => {
                    self.push("\"");
                    self.push(s.as_str());
                    self.push("\"");
                },
            }
            i += 1;
        }
        self.push(")");
    }

    // ── Expression rendering ──────────────────────────────────────

    /// Render an expression, wrapping it onto multiple lines when the
    /// resulting text would overflow the configured max line length.
    fn render_expr(&mut self, expr: &Expression)
        ensures
            final(self).line_index == old(self).line_index,
            final(self).level == old(self).level,
            final(self).next_comment == old(self).next_comment,
        decreases expr, 1nat,
    {
        let inline = render_expr_inline(expr);
        let col = self.out.current_column();
        if inline.as_str().len() <= self.max_line_length && col <= self.max_line_length - inline.as_str().len() {
            self.push(inline.as_str());
            return;
        }
        self.render_expr_wrapped(expr);
    }

    fn render_expr_wrapped(&mut self, expr: &Expression)
        ensures
            final(self).line_index == old(self).line_index,
            final(self).level == old(self).level,
            final(self).next_comment == old(self).next_comment,
        decreases expr, 0nat,
    {
        match &*expr.kind {
            ExpressionKind::Call(callee, args) => {
                if args.len() > 0 {
                    self.push(render_expr_inline(callee).as_str());
                    let rendered = render_exprs_inline(args);
                    self.emit_wrapped_args(&rendered);
                } else {
                    self.push(render_expr_inline(expr).as_str());
                }
            },
            ExpressionKind::Binary(_, _, _) => {
                let mut tail: Vec<(BinaryOp, &Expression)> = Vec::new();
                let head = flatten_left_binary(expr, &mut tail);
                self.emit_wrapped_binary(head, &tail);
            },
            ExpressionKind::Paren(inner) => {
                self.push("(");
                self.render_expr(inner);
                self.push(")");
            },
            ExpressionKind::AnonymousComp(comp) => {
                self.render_anonymous_comp_wrapped(comp);
            },
            _ => {
                // Emit as inline even if too long: strings, identifiers
                // and comments are never broken.
                self.push(render_expr_inline(expr).as_str());
            },
        }
    }

    fn render_anonymous_comp_wrapped(&mut self, node: &AnonymousComp)
        ensures
            final(self).line_index == old(self).line_index,
            final(self).level == old(self).level,
            final(self).next_comment == old(self).next_comment,
    {
        self.push(render_expr_inline(&node.template).as_str());
        let args = render_exprs_inline(&node.template_args);
        self.emit_wrapped_args(&args);
        let mut inputs: Vec<String> = Vec::new();
        let mut i: usize = 0;
        while i < node.inputs.len()
            invariant
                i <= node.inputs@.len(),
            decreases node.inputs@.len() - i,
        {
            let text = match &node.inputs[i] {
                AnonCompInput::Positional(e) => render_expr_inline(e),
                AnonCompInput::Named(id, e) => {
                    let mut t = String::from_str(id.name.as_str());
                    t.append(" <== ");
                    t.append(render_expr_inline(e).as_str());
                    t
                },
            };
            inputs.push(text);
            i += 1;
        }
        self.emit_wrapped_args(&inputs);
    }

    /// Emit `(arg0, arg1, …)` either on one line (fits) or split with
    /// one argument per indented line.
    fn emit_wrapped_args(&mut self, args: &Vec<String>)
        ensures
            final(self).line_index == old(self).line_index,
            final(self).level == old(self).level,
            final(self).next_comment == old(self).next_comment,
    {
        let col = self.out.current_column();
        let joined = join_comma(args);
        let need = joined.as_str().len().saturating_add(2);
        if need <= self.max_line_length && col <= self.max_line_length - need {
            self.push("(");
            self.push(joined.as_str());
            self.push(")");
            return;
        }
        self.push("(");
        self.newline();
        let saved = self.level;
        self.level = self.level.saturating_add(1);
        let mut i: usize = 0;
        while i < args.len()
            invariant
                i <= args@.len(),
                self.line_index == old(self).line_index,
                self.next_comment == old(self).next_comment,
            decreases args@.len() - i,
        {
            self.write_indent();
            self.push(args[i].as_str());
            if i + 1 != args.len() {
                self.push(",");
            }
            self.newline();
            i += 1;
        }
        self.level = saved;
        self.write_indent();
        self.push(")");
    }

    /// Emit a list of already-rendered entry strings (e.g. signal
    /// declaration entries) comma-separated. If the combined length
    /// exceeds the line budget we break after each comma and align to
    /// the length of `prefix`.
    fn emit_wrapped_entries(&mut self, entries: &Vec<String>, prefix: &str)
        ensures
            final(self).line_index == old(self).line_index,
            final(self).level == old(self).level,
            final(self).next_comment == old(self).next_comment,
    {
        let col = self.out.current_column();
        let joined = join_comma(entries);
        if joined.as_str().len() <= self.max_line_length && col <= self.max_line_length - joined.as_str().len() {
            self.push(joined.as_str());
            return;
        }
        // Break after each comma, aligning continuation lines to the
        // column after the prefix.
        let align = self.indent_len().saturating_add(prefix.len());
        let align_str = spaces(align);
        let mut i: usize = 0;
        while i < entries.len()
            invariant
                i <= entries@.len(),
                self.line_index == old(self).line_index,
                self.level == old(self).level,
                self.next_comment == old(self).next_comment,
            decreases entries@.len() - i,
        {
            if i == 0 {
                self.push(entries[i].as_str());
            } else {
                self.push(",\n");
                self.push(align_str.as_str());
                self.push(entries[i].as_str());
            }
            i += 1;
        }
    }

    /// Emit a left-associative binary chain (`a op b op c op …`) with
    /// each continuation line starting with the operator.
    fn emit_wrapped_binary(&mut self, head: &Expression, tail: &Vec<(BinaryOp, &Expression)>)
        ensures
            final(self).line_index == old(self).line_index,
            final(self).level == old(self).level,
            final(self).next_comment == old(self).next_comment,
    {
        // Try inline first.
        let mut inline = render_expr_inline(head);
        let mut k: usize = 0;
        while k < tail.len()
            invariant
                k <= tail@.len(),
            decreases tail@.len() - k,
        {
            inline.append(binary_op_str(tail[k].0));
            inline.append(render_expr_inline(tail[k].1).as_str());
            k += 1;
        }
        let col = self.out.current_column();
        if inline.as_str().len() <= self.max_line_length && col <= self.max_line_length - inline.as_str().len() {
            self.push(inline.as_str());
            return;
        }
        let align_str = spaces(col);
        self.push(render_expr_inline(head).as_str());
        let mut i: usize = 0;
        while i < tail.len()
            invariant
                i <= tail@.len(),
                self.line_index == old(self).line_index,
                self.level == old(self).level,
                self.next_comment == old(self).next_comment,
            decreases tail@.len() - i,
        {
            self.newline();
            self.push(align_str.as_str());
            self.push(binary_op_lead_str(tail[i].0));
            self.push(" ");
            self.push(render_expr_inline(tail[i].1).as_str());
            i += 1;
        }
    }
}


// ── Inline (single-line) rendering helpers ──────────────────────────

fn append_dimensions(s: &mut String, dims: &Vec<Expression>)
    ensures
        final(s)@ == old(s)@ + dims_text(dims@),
{
    let mut i: usize = 0;
    while i < dims.len()
        invariant
            i <= dims@.len(),
            s@ == old(s)@ + dims_text(dims@.subrange(0, i as int)),
        decreases dims@.len() - i,
    {
        s.append("[");
        s.append(render_expr_inline(&dims[i]).as_str());
        s.append("]");
        proof {
            let t = dims@.subrange(0, i + 1);
            assert(t.drop_last() =~= dims@.subrange(0, i as int));
            assert(t.last() == dims@[i as int]);
        }
        i += 1;
    }
    assert(dims@.subrange(0, i as int) =~= dims@);
}

fn render_var_decl_entry(entry: &VarDeclEntry) -> (r: String)
    ensures
        r@ == var_entry_text(*entry),
{
    let mut s = String::from_str(entry.name.name.as_str());
    append_dimensions(&mut s, &entry.dimensions);
    match &entry.init {
        Some(init) => {
            s.append(" = ");
            s.append(render_expr_inline(init).as_str());
        },
        None => {},
    }
    s
}

fn render_signal_decl_entry(entry: &SignalDeclEntry) -> (r: String)
    ensures
        r@ == signal_entry_text(*entry),
{
    let mut s = String::from_str(entry.name.name.as_str());
    append_dimensions(&mut s, &entry.dimensions);
    match &entry.init {
        Some((op, init)) => {
            s.append(signal_assign_op_str(*op));
            s.append(render_expr_inline(init).as_str());
        },
        None => {},
    }
    s
}

fn render_component_decl_entry(entry: &ComponentDeclEntry) -> (r: String)
    ensures
        r@ == component_entry_text(*entry),
{
    let mut s = String::from_str(entry.name.name.as_str());
    append_dimensions(&mut s, &entry.dimensions);
    match &entry.init {
        Some(init) => {
            s.append(" = ");
            s.append(render_expr_inline(init).as_str());
        },
        None => {},
    }
    s
}

fn render_bus_type(node: &BusType) -> (r: String)
    ensures
        r@ == node.name.name@ + "("@ + exprs_text(node.args@) + ")"@,
{
    let mut s = String::from_str(node.name.name.as_str());
    s.append("(");
    let ghost start = s@;
    let mut i: usize = 0;
    while i < node.args.len()
        invariant
            i <= node.args@.len(),
            s@ == start + exprs_text(node.args@.subrange(0, i as int)),
        decreases node.args@.len() - i,
    {
        if i > 0 {
            s.append(", ");
        }
        s.append(render_expr_inline(&node.args[i]).as_str());
        proof {
            let t = node.args@.subrange(0, i + 1);
            assert(t.subrange(0, t.len() - 1) =~= node.args@.subrange(0, i as int));
            assert(t[t.len() - 1] == node.args@[i as int]);
        }
        i += 1;
    }
    assert(node.args@.subrange(0, i as int) =~= node.args@);
    s.append(")");
    s
}

/// Each expression rendered on one line.
fn render_exprs_inline(exprs: &Vec<Expression>) -> (r: Vec<String>)
    ensures
        r@.len() == exprs@.len(),
        forall|k: int| 0 <= k < exprs@.len() ==> (#[trigger] r@[k])@ == expr_text(exprs@[k]),
{
    let mut out: Vec<String> = Vec::new();
    let mut i: usize = 0;
    while i < exprs.len()
        invariant
            i <= exprs@.len(),
            out@.len() == i,
            forall|k: int| 0 <= k < i ==> (#[trigger] out@[k])@ == expr_text(exprs@[k]),
        decreases exprs@.len() - i,
    {
        out.push(render_expr_inline(&exprs[i]));
        i += 1;
    }
    out
}

/// The strings joined with `, `.
fn join_comma(parts: &Vec<String>) -> (r: String)
    ensures
        r@ == join_seqs(views(parts@), ", "@),
{
    let mut s = String::new();
    let mut i: usize = 0;
    while i < parts.len()
        invariant
            i <= parts@.len(),
            s@ == join_seqs(views(parts@.subrange(0, i as int)), ", "@),
        decreases parts@.len() - i,
    {
        if i > 0 {
            s.append(", ");
        }
        s.append(parts[i].as_str());
        proof {
            let ps = views(parts@.subrange(0, i as int));
            assert(views(parts@.subrange(0, i + 1)) =~= ps.push(parts@[i as int]@));
            crate::text::lemma_join_push(ps, parts@[i as int]@, ", "@);
        }
        i += 1;
    }
    assert(parts@.subrange(0, i as int) =~= parts@);
    s
}

fn render_expr_inline(expr: &Expression) -> (r: String)
    ensures
        r@ == expr_text(*expr),
{
    let mut s = String::new();
    write_expr_inline(&mut s, expr);
    s
}

fn write_expr_inline(s: &mut String, expr: &Expression)
    ensures
        final(s)@ == old(s)@ + expr_text(*expr),
    decreases expr, 1nat,
{
    let ghost s0 = s@;
    match &*expr.kind {
        ExpressionKind::Number(n) => s.append(n.as_str()),
        ExpressionKind::Ident(name) => s.append(name.as_str()),
        ExpressionKind::Unary(op, e) => {
            s.append(
                match op {
                    UnaryOp::Neg => "-",
                    UnaryOp::Not => "!",
                    UnaryOp::BitNot => "~",
                },
            );
            write_expr_inline(s, e);
        },
        ExpressionKind::Binary(lhs, op, rhs) => {
            write_expr_inline(s, lhs);
            s.append(binary_op_str(*op));
            write_expr_inline(s, rhs);
        },
        ExpressionKind::Ternary(c, t, e) => {
            write_expr_inline(s, c);
            s.append(" ? ");
            write_expr_inline(s, t);
            s.append(" : ");
            write_expr_inline(s, e);
        },
        ExpressionKind::Index(base, idx) => {
            write_expr_inline(s, base);
            s.append("[");
            write_expr_inline(s, idx);
            s.append("]");
        },
        ExpressionKind::Member(base, ident) => {
            write_expr_inline(s, base);
            s.append(".");
            s.append(ident.name.as_str());
        },
        ExpressionKind::Call(callee, args) => {
            write_expr_inline(s, callee);
            s.append("(");
            write_exprs_inline(s, args);
            s.append(")");
        },
        ExpressionKind::AnonymousComp(comp) => write_anon_comp_inline(s, comp),
        ExpressionKind::ArrayLit(elems) => {
            s.append("[");
            write_exprs_inline(s, elems);
            s.append("]");
        },
        ExpressionKind::Paren(e) => {
            s.append("(");
            write_expr_inline(s, e);
            s.append(")");
        },
        ExpressionKind::Parallel(e) => {
            s.append("parallel ");
            write_expr_inline(s, e);
        },
        ExpressionKind::Underscore => s.append("_"),
        ExpressionKind::Error => s.append("/* error */"),
    }
    assert(s@ =~= s0 + expr_text(*expr));
}

/// Expressions separated by `, `.
fn write_exprs_inline(s: &mut String, exprs: &Vec<Expression>)
    ensures
        final(s)@ == old(s)@ + exprs_text(exprs@),
    decreases exprs, 2nat,
{
    let mut i: usize = 0;
    while i < exprs.len()
        invariant
            i <= exprs@.len(),
            s@ == old(s)@ + exprs_text(exprs@.subrange(0, i as int)),
        decreases exprs@.len() - i,
    {
        if i > 0 {
            s.append(", ");
        }
        assert(decreases_to!(exprs => exprs@[i as int]));
        write_expr_inline(s, &exprs[i]);
        proof {
            let t = exprs@.subrange(0, i + 1);
            assert(t.subrange(0, t.len() - 1) =~= exprs@.subrange(0, i as int));
            assert(t[t.len() - 1] == exprs@[i as int]);
            assert(s@ =~= old(s)@ + exprs_text(t));
        }
        i += 1;
    }
    assert(exprs@.subrange(0, i as int) =~= exprs@);
}

fn write_anon_comp_inline(s: &mut String, comp: &AnonymousComp)
    ensures
        final(s)@ == old(s)@ + expr_text(comp.template) + "("@ + exprs_text(comp.template_args@) + ")("@ + inputs_text(
            comp.inputs@,
        ) + ")"@,
    decreases comp, 0nat,
{
    write_expr_inline(s, &comp.template);
    s.append("(");
    write_exprs_inline(s, &comp.template_args);
    s.append(")(");
    let ghost start = s@;
    let mut i: usize = 0;
    while i < comp.inputs.len()
        invariant
            i <= comp.inputs@.len(),
            s@ == start + inputs_text(comp.inputs@.subrange(0, i as int)),
        decreases comp.inputs@.len() - i,
    {
        if i > 0 {
            s.append(", ");
        }
        assert(decreases_to!(comp => comp.inputs@[i as int]));
        let ghost b2 = s@;
        match &comp.inputs[i] {
            AnonCompInput::Positional(e) => write_expr_inline(s, e),
            AnonCompInput::Named(id, e) => {
                s.append(id.name.as_str());
                s.append(" <== ");
                write_expr_inline(s, e);
            },
        }
        assert(s@ =~= b2 + input_text(comp.inputs@[i as int]));
        proof {
            let t = comp.inputs@.subrange(0, i + 1);
            assert(t.subrange(0, t.len() - 1) =~= comp.inputs@.subrange(0, i as int));
            assert(t[t.len() - 1] == comp.inputs@[i as int]);
            assert(s@ =~= start + inputs_text(t));
        }
        i += 1;
    }
    assert(comp.inputs@.subrange(0, i as int) =~= comp.inputs@);
    s.append(")");
}

fn binary_op_str(op: BinaryOp) -> (r: &'static str)
    ensures
        r@ == binop_text(op),
{
    match op {
        BinaryOp::Add => " + ",
        BinaryOp::Sub => " - ",
        BinaryOp::Mul => " * ",
        BinaryOp::Div => " / ",
        BinaryOp::IntDiv => " \\ ",
        BinaryOp::Mod => " % ",
        BinaryOp::Pow => " ** ",
        BinaryOp::Shl => " << ",
        BinaryOp::Shr => " >> ",
        BinaryOp::BitAnd => " & ",
        BinaryOp::BitOr => " | ",
        BinaryOp::BitXor => " ^ ",
        BinaryOp::And => " && ",
        BinaryOp::Or => " || ",
        BinaryOp::Eq => " == ",
        BinaryOp::Ne => " != ",
        BinaryOp::Lt => " < ",
        BinaryOp::Gt => " > ",
        BinaryOp::Le => " <= ",
        BinaryOp::Ge => " >= ",
    }
}

/// The operator text that starts a continuation line.
pub open spec fn binop_lead_text(op: BinaryOp) -> Seq<char> {
    match op {
        BinaryOp::Add => "+ "@,
        BinaryOp::Sub => "- "@,
        BinaryOp::Mul => "* "@,
        BinaryOp::Div => "/ "@,
        BinaryOp::IntDiv => "\\ "@,
        BinaryOp::Mod => "% "@,
        BinaryOp::Pow => "** "@,
        BinaryOp::Shl => "<< "@,
        BinaryOp::Shr => ">> "@,
        BinaryOp::BitAnd => "& "@,
        BinaryOp::BitOr => "| "@,
        BinaryOp::BitXor => "^ "@,
        BinaryOp::And => "&& "@,
        BinaryOp::Or => "|| "@,
        BinaryOp::Eq => "== "@,
        BinaryOp::Ne => "!= "@,
        BinaryOp::Lt => "< "@,
        BinaryOp::Gt => "> "@,
        BinaryOp::Le => "<= "@,
        BinaryOp::Ge => ">= "@,
    }
}

/// The operator text that starts a continuation line: the operator and
/// the space after it.
fn binary_op_lead_str(op: BinaryOp) -> (r: &'static str)
    ensures
        r@ == binop_lead_text(op),
{
    match op {
        BinaryOp::Add => "+ ",
        BinaryOp::Sub => "- ",
        BinaryOp::Mul => "* ",
        BinaryOp::Div => "/ ",
        BinaryOp::IntDiv => "\\ ",
        BinaryOp::Mod => "% ",
        BinaryOp::Pow => "** ",
        BinaryOp::Shl => "<< ",
        BinaryOp::Shr => ">> ",
        BinaryOp::BitAnd => "& ",
        BinaryOp::BitOr => "| ",
        BinaryOp::BitXor => "^ ",
        BinaryOp::And => "&& ",
        BinaryOp::Or => "|| ",
        BinaryOp::Eq => "== ",
        BinaryOp::Ne => "!= ",
        BinaryOp::Lt => "< ",
        BinaryOp::Gt => "> ",
        BinaryOp::Le => "<= ",
        BinaryOp::Ge => ">= ",
    }
}

fn assign_op_str(op: AssignOp) -> (r: &'static str)
    ensures
        r@ == assign_op_text(op),
{
    match op {
        AssignOp::Eq => " = ",
        AssignOp::SafeLeft => " <== ",
        AssignOp::SafeRight => " ==> ",
        AssignOp::UnsafeLeft => " <-- ",
        AssignOp::UnsafeRight => " --> ",
    }
}

fn signal_assign_op_str(op: SignalAssignOp) -> (r: &'static str)
    ensures
        r@ == signal_op_text(op),
{
    match op {
        SignalAssignOp::SafeLeft => " <== ",
        SignalAssignOp::UnsafeLeft => " <-- ",
    }
}

fn compound_op_str(op: CompoundOp) -> (r: &'static str)
    ensures
        r@ == compound_op_text(op),
{
    match op {
        CompoundOp::AddAssign => " += ",
        CompoundOp::SubAssign => " -= ",
        CompoundOp::MulAssign => " *= ",
        CompoundOp::PowAssign => " **= ",
        CompoundOp::DivAssign => " /= ",
        CompoundOp::IntDivAssign => " \\= ",
        CompoundOp::ModAssign => " %= ",
        CompoundOp::ShlAssign => " <<= ",
        CompoundOp::ShrAssign => " >>= ",
        CompoundOp::BitAndAssign => " &= ",
        CompoundOp::BitOrAssign => " |= ",
        CompoundOp::BitXorAssign => " ^= ",
    }
}

fn comma_sep_idents_inline(idents: &Vec<Identifier>) -> (r: String)
    ensures
        r@ == idents_text(idents@),
{
    let mut s = String::new();
    let ghost f = |id: Identifier| id.name@;
    let mut i: usize = 0;
    while i < idents.len()
        invariant
            i <= idents@.len(),
            f == (|id: Identifier| id.name@),
            s@ == join_seqs(idents@.subrange(0, i as int).map_values(f), ", "@),
        decreases idents@.len() - i,
    {
        if i > 0 {
            s.append(", ");
        }
        s.append(idents[i].name.as_str());
        proof {
            let ps = idents@.subrange(0, i as int).map_values(f);
            assert(idents@.subrange(0, i + 1).map_values(f) =~= ps.push(idents@[i as int].name@));
            crate::text::lemma_join_push(ps, idents@[i as int].name@, ", "@);
        }
        i += 1;
    }
    assert(idents@.subrange(0, i as int) =~= idents@);
    s
}

// ── Binary chain flattening ─────────────────────────────────────────

/// Flatten a left-associative binary chain `head op1 rhs1 op2 rhs2 …`:
/// pushes the (operator, right operand) pairs onto `tail`, innermost
/// first, and returns the head.
fn flatten_left_binary<'a>(expr: &'a Expression, tail: &mut Vec<(BinaryOp, &'a Expression)>) -> (head: &'a Expression)
    ensures
        !(*head.kind is Binary),
        old(tail)@.len() <= final(tail)@.len(),
        final(tail)@.subrange(0, old(tail)@.len() as int) == old(tail)@,
        expr_text(*expr) == expr_text(*head) + chain_text(
            final(tail)@.subrange(old(tail)@.len() as int, final(tail)@.len() as int),
        ),
    decreases expr,
{
    match &*expr.kind {
        ExpressionKind::Binary(lhs, op, rhs) => {
            let ghost t0 = tail@;
            let head = flatten_left_binary(lhs, tail);
            let ghost t1 = tail@;
            tail.push((*op, rhs));
            proof {
                let part = t1.subrange(t0.len() as int, t1.len() as int);
                assert(tail@.subrange(t0.len() as int, tail@.len() as int) =~= part.push((*op, rhs)));
                assert(tail@.subrange(0, t0.len() as int) =~= t1.subrange(0, t0.len() as int));
                assert(part.push((*op, rhs)).drop_last() =~= part);
            }
            head
        },
        _ => {
            assert(tail@.subrange(tail@.len() as int, tail@.len() as int) =~= Seq::<(BinaryOp, &Expression)>::empty());
            assert(tail@.subrange(0, tail@.len() as int) =~= tail@);
            expr
        },
    }
}

/// The operators and right operands of a binary chain, each operator with
/// its surrounding spaces.
spec fn chain_text(t: Seq<(BinaryOp, &Expression)>) -> Seq<char>
    decreases t.len(),
{
    if t.len() == 0 {
        Seq::empty()
    } else {
        chain_text(t.drop_last()) + binop_text(t.last().0) + expr_text(*t.last().1)
    }
}

// ── Span helpers ────────────────────────────────────────────────────

fn bus_member_span(member: &BusMember) -> Span {
    match member {
        BusMember::Signal(s) => s.span,
        BusMember::Bus(b) => b.span,
    }
}

// ── Top-level entry ────────────────────────────────────────────────

fn render(source: &str, file: &File, comments: &Vec<Comment>, config: &FormatConfig) -> (r: String)
    ensures
        r@.len() > 0,
        r@.last() == '\n',
{
    let mut r = Renderer::new(source, config);
    r.render_file(comments, file);
    // Ensure the output ends with exactly one newline.
    while r.out.ends_with_blank_line()
        invariant
            r.out.pending >= 0,
        decreases r.out.pending,
    {
        r.out.pop_newline();
    }
    if !r.out.ends_with_newline() {
        r.out.push_newline();
    }
    assert(r.out.pending == 1);
    let t = r.out.finish();
    assert(t@.last() == '\n');
    t
}
} // verus!
