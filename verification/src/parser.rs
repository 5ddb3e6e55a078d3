//! Recursive-descent parser for Circom v2.2.3.
//!
//! Features:
//! - Produces structured [`ast`](crate::ast) nodes (not a parse tree).
//! - Error recovery: continues after syntax errors and collects all diagnostics.
//! - Source location tracked on every node.

use vstd::prelude::*;
use vstd::string::StringSliceAdditionalSpecFns;
use vstd::utf8::encode_utf8;

use crate::ast::{
    item_span, spec_item_span, version_lt, AnonCompInput, AnonymousComp, AssertStmt, AssignOp,
    AssignStmt, BinaryOp, Block, BusDef, BusFieldDecl, BusInstanceDecl, BusMember, BusType,
    CompoundAssignStmt, CompoundOp, ComponentDecl, ComponentDeclEntry, ConstraintEqStmt,
    Expression, ExpressionKind, File, ForLoop, FunctionDef, Identifier, IfElse, Include, Item,
    LogArg, LogStmt, MainComponent, Pragma, PragmaKind, ReturnStmt, SignalAssignOp, SignalDecl,
    SignalDeclEntry, SignalKind, Statement, StatementKind, TemplateDef, TupleAssignStmt,
    UnaryOp, VarDecl, VarDeclEntry, Version, WhileLoop,
};
use crate::lexer::{kind_of, range_spans, token_spans, tokenize, SpannedToken, Token, TokenKind};
use crate::span::{spec_max, spec_min, Span};

verus! {

// ── Diagnostics ─────────────────────────────────────────────────────

#[derive(Debug, Clone, PartialEq)]
pub struct ParseError {
    pub span: Span,
    pub message: String,
}

// ── Parser state ────────────────────────────────────────────────────

pub struct Parser {
    tokens: Vec<SpannedToken>,
    pos: usize,
    errors: Vec<ParseError>,
    /// The declared `pragma circom` version, if any.
    version: Option<Version>,
}

/// The merge of two spans.
pub open spec fn spec_merge(a: Span, b: Span) -> Span {
    Span { start: spec_min(a.start, b.start), end: spec_max(a.end, b.end) }
}

/// Parse a Circom source string into an AST, collecting errors.
///
/// Every byte the tokenizer cannot read yields an "unexpected character"
/// error first; the syntax errors follow in source order.
pub fn parse(source: &str) -> (res: (File, Vec<ParseError>))
    ensures
        res.0.items@.len() == 0 ==> res.0.span == (Span { start: 0, end: source.spec_bytes().len() as usize }),
        res.0.items@.len() > 0 ==> res.0.span == spec_merge(
            spec_item_span(res.0.items@[0]),
            spec_item_span(res.0.items@.last()),
        ),
        ({
            let lex = crate::lexer::lex_from(source.spec_bytes(), 0).1;
            &&& lex.len() <= res.1@.len()
            &&& crate::lexer::lex_from(source.spec_bytes(), 0).0.len() == 0 ==> res.0.items@.len() == 0
                && res.1@.len() == lex.len()
            &&& forall|k: int|
                0 <= k < lex.len() ==> {
                    &&& (#[trigger] res.1@[k]).span.start == lex[k].0
                    &&& res.1@[k].span.end == lex[k].1
                    &&& res.1@[k].message@ == "unexpected character"@
                }
        }),
{
    let (tokens, lex_errors) = tokenize(source);
    let mut parser = Parser { tokens, pos: 0, errors: Vec::new(), version: None };
    let ghost lex = crate::lexer::lex_from(source.spec_bytes(), 0).1;
    let ghost toks0 = parser.tokens@;
    assert(token_spans(toks0).len() == toks0.len());

    // Convert lex errors
    let mut i: usize = 0;
    while i < lex_errors.len()
        invariant
            i <= lex_errors@.len(),
            parser.pos <= parser.tokens@.len(),
            parser.errors@.len() == i,
            parser.pos == 0,
            parser.tokens@ == toks0,
            range_spans(lex_errors@) == lex,
            forall|k: int|
                0 <= k < i ==> {
                    &&& (#[trigger] parser.errors@[k]).span.start == lex[k].0
                    &&& parser.errors@[k].span.end == lex[k].1
                    &&& parser.errors@[k].message@ == "unexpected character"@
                },
        decreases lex_errors@.len() - i,
    {
        let r = &lex_errors[i];
        let ghost before = parser.errors@;
        parser.errors.push(ParseError { span: Span::new(r.start, r.end), message: String::from_str("unexpected character") });
        assert(lex[i as int] == (r.start as int, r.end as int));
        assert forall|k: int| 0 <= k < i + 1 implies {
            &&& (#[trigger] parser.errors@[k]).span.start == lex[k].0
            &&& parser.errors@[k].span.end == lex[k].1
            &&& parser.errors@[k].message@ == "unexpected character"@
        } by {
            if k < i {
                assert(parser.errors@[k] == before[k]);
            }
        }
        i += 1;
    }

    assert(token_spans(parser.tokens@).len() == parser.tokens@.len());
    let items = parser.parse_file();
    let span = if items.len() == 0 {
        Span::new(0, source.len())
    } else {
        item_span(&items[0]).merge(item_span(&items[items.len() - 1]))
    };

    let file = File { span, items };
    (file, parser.errors)
}

/// The name a keyword token has when it is used where an identifier is
/// expected.
pub open spec fn spec_keyword_as_ident(k: TokenKind) -> Option<&'static str> {
    match k {
        TokenKind::Main => Some("main"),
        TokenKind::Input => Some("input"),
        TokenKind::Output => Some("output"),
        TokenKind::Signal => Some("signal"),
        TokenKind::Component => Some("component"),
        TokenKind::Var => Some("var"),
        TokenKind::Log => Some("log"),
        TokenKind::Assert => Some("assert"),
        TokenKind::Template => Some("template"),
        TokenKind::Function => Some("function"),
        TokenKind::Bus => Some("bus"),
        TokenKind::Custom => Some("custom"),
        TokenKind::Public => Some("public"),
        TokenKind::Parallel => Some("parallel"),
        TokenKind::Extern => Some("extern"),
        _ => None,
    }
}

/// Keywords that must not be used as declaration names (signal,
/// variable, or component names). `main` is a contextual keyword and is
/// intentionally excluded — it may appear as an identifier.
pub open spec fn spec_is_reserved(k: TokenKind) -> bool {
    spec_keyword_as_ident(k) is Some && k != TokenKind::Main
}

pub open spec fn spec_assign_op(k: TokenKind) -> Option<AssignOp> {
    match k {
        TokenKind::Eq => Some(AssignOp::Eq),
        TokenKind::LeftSignalAssign => Some(AssignOp::SafeLeft),
        TokenKind::RightSignalAssign => Some(AssignOp::SafeRight),
        TokenKind::LeftUnsafeAssign => Some(AssignOp::UnsafeLeft),
        TokenKind::RightUnsafeAssign => Some(AssignOp::UnsafeRight),
        _ => None,
    }
}

pub open spec fn spec_compound_op(k: TokenKind) -> Option<CompoundOp> {
    match k {
        TokenKind::PlusAssign => Some(CompoundOp::AddAssign),
        TokenKind::MinusAssign => Some(CompoundOp::SubAssign),
        TokenKind::StarAssign => Some(CompoundOp::MulAssign),
        TokenKind::PowerAssign => Some(CompoundOp::PowAssign),
        TokenKind::SlashAssign => Some(CompoundOp::DivAssign),
        TokenKind::IntDivAssign => Some(CompoundOp::IntDivAssign),
        TokenKind::ModAssign => Some(CompoundOp::ModAssign),
        TokenKind::ShlAssign => Some(CompoundOp::ShlAssign),
        TokenKind::ShrAssign => Some(CompoundOp::ShrAssign),
        TokenKind::BitAndAssign => Some(CompoundOp::BitAndAssign),
        TokenKind::BitOrAssign => Some(CompoundOp::BitOrAssign),
        TokenKind::BitXorAssign => Some(CompoundOp::BitXorAssign),
        _ => None,
    }
}

/// Tokens at which error recovery stops skipping.
pub open spec fn spec_is_sync_point(k: TokenKind) -> bool {
    k == TokenKind::Pragma || k == TokenKind::Include || k == TokenKind::Template || k
        == TokenKind::Function || k == TokenKind::Bus || k == TokenKind::Component || k
        == TokenKind::Signal || k == TokenKind::Var || k == TokenKind::If || k == TokenKind::For
        || k == TokenKind::While || k == TokenKind::Return || k == TokenKind::Log || k
        == TokenKind::Assert || k == TokenKind::RBrace
}

/// The text a token carries (empty for the others).
pub open spec fn token_payload(t: Token) -> Seq<char> {
    match t {
        Token::Ident(s) => s@,
        Token::NumberLit(s) => s@,
        Token::StringLit(s) => s@,
        _ => Seq::empty(),
    }
}

/// The `Debug` name of a token kind.
pub open spec fn kind_name_text(k: TokenKind) -> Seq<char> {
    match k {
        TokenKind::Pragma => "Pragma"@,
        TokenKind::Circom => "Circom"@,
        TokenKind::Include => "Include"@,
        TokenKind::Template => "Template"@,
        TokenKind::Custom => "Custom"@,
        TokenKind::Function => "Function"@,
        TokenKind::Component => "Component"@,
        TokenKind::Bus => "Bus"@,
        TokenKind::Signal => "Signal"@,
        TokenKind::Input => "Input"@,
        TokenKind::Output => "Output"@,
        TokenKind::Public => "Public"@,
        TokenKind::Var => "Var"@,
        TokenKind::If => "If"@,
        TokenKind::Else => "Else"@,
        TokenKind::For => "For"@,
        TokenKind::While => "While"@,
        TokenKind::Return => "Return"@,
        TokenKind::Log => "Log"@,
        TokenKind::Assert => "Assert"@,
        TokenKind::Parallel => "Parallel"@,
        TokenKind::Main => "Main"@,
        TokenKind::Extern => "Extern"@,
        TokenKind::NumberLit => "NumberLit"@,
        TokenKind::StringLit => "StringLit"@,
        TokenKind::Ident => "Ident"@,
        TokenKind::LeftSignalAssign => "LeftSignalAssign"@,
        TokenKind::RightSignalAssign => "RightSignalAssign"@,
        TokenKind::LeftUnsafeAssign => "LeftUnsafeAssign"@,
        TokenKind::RightUnsafeAssign => "RightUnsafeAssign"@,
        TokenKind::ConstraintEq => "ConstraintEq"@,
        TokenKind::PlusAssign => "PlusAssign"@,
        TokenKind::MinusAssign => "MinusAssign"@,
        TokenKind::StarAssign => "StarAssign"@,
        TokenKind::PowerAssign => "PowerAssign"@,
        TokenKind::SlashAssign => "SlashAssign"@,
        TokenKind::IntDivAssign => "IntDivAssign"@,
        TokenKind::ModAssign => "ModAssign"@,
        TokenKind::ShlAssign => "ShlAssign"@,
        TokenKind::ShrAssign => "ShrAssign"@,
        TokenKind::BitAndAssign => "BitAndAssign"@,
        TokenKind::BitOrAssign => "BitOrAssign"@,
        TokenKind::BitXorAssign => "BitXorAssign"@,
        TokenKind::PlusPlus => "PlusPlus"@,
        TokenKind::MinusMinus => "MinusMinus"@,
        TokenKind::Le => "Le"@,
        TokenKind::Ge => "Ge"@,
        TokenKind::EqEq => "EqEq"@,
        TokenKind::Ne => "Ne"@,
        TokenKind::And => "And"@,
        TokenKind::Or => "Or"@,
        TokenKind::Bang => "Bang"@,
        TokenKind::Power => "Power"@,
        TokenKind::Plus => "Plus"@,
        TokenKind::Minus => "Minus"@,
        TokenKind::Star => "Star"@,
        TokenKind::Slash => "Slash"@,
        TokenKind::IntDiv => "IntDiv"@,
        TokenKind::Mod => "Mod"@,
        TokenKind::Shl => "Shl"@,
        TokenKind::Shr => "Shr"@,
        TokenKind::Amp => "Amp"@,
        TokenKind::Pipe => "Pipe"@,
        TokenKind::Caret => "Caret"@,
        TokenKind::Tilde => "Tilde"@,
        TokenKind::Lt => "Lt"@,
        TokenKind::Gt => "Gt"@,
        TokenKind::LParen => "LParen"@,
        TokenKind::RParen => "RParen"@,
        TokenKind::LBrace => "LBrace"@,
        TokenKind::RBrace => "RBrace"@,
        TokenKind::LBracket => "LBracket"@,
        TokenKind::RBracket => "RBracket"@,
        TokenKind::Semi => "Semi"@,
        TokenKind::Comma => "Comma"@,
        TokenKind::Dot => "Dot"@,
        TokenKind::Eq => "Eq"@,
        TokenKind::Question => "Question"@,
        TokenKind::Colon => "Colon"@,
        TokenKind::Underscore => "Underscore"@,
    }
}

/// The `Debug` name of a token kind.
fn kind_name(k: TokenKind) -> (r: &'static str)
    ensures
        r@ == kind_name_text(k),
{
    match k {
        TokenKind::Pragma => "Pragma",
        TokenKind::Circom => "Circom",
        TokenKind::Include => "Include",
        TokenKind::Template => "Template",
        TokenKind::Custom => "Custom",
        TokenKind::Function => "Function",
        TokenKind::Component => "Component",
        TokenKind::Bus => "Bus",
        TokenKind::Signal => "Signal",
        TokenKind::Input => "Input",
        TokenKind::Output => "Output",
        TokenKind::Public => "Public",
        TokenKind::Var => "Var",
        TokenKind::If => "If",
        TokenKind::Else => "Else",
        TokenKind::For => "For",
        TokenKind::While => "While",
        TokenKind::Return => "Return",
        TokenKind::Log => "Log",
        TokenKind::Assert => "Assert",
        TokenKind::Parallel => "Parallel",
        TokenKind::Main => "Main",
        TokenKind::Extern => "Extern",
        TokenKind::NumberLit => "NumberLit",
        TokenKind::StringLit => "StringLit",
        TokenKind::Ident => "Ident",
        TokenKind::LeftSignalAssign => "LeftSignalAssign",
        TokenKind::RightSignalAssign => "RightSignalAssign",
        TokenKind::LeftUnsafeAssign => "LeftUnsafeAssign",
        TokenKind::RightUnsafeAssign => "RightUnsafeAssign",
        TokenKind::ConstraintEq => "ConstraintEq",
        TokenKind::PlusAssign => "PlusAssign",
        TokenKind::MinusAssign => "MinusAssign",
        TokenKind::StarAssign => "StarAssign",
        TokenKind::PowerAssign => "PowerAssign",
        TokenKind::SlashAssign => "SlashAssign",
        TokenKind::IntDivAssign => "IntDivAssign",
        TokenKind::ModAssign => "ModAssign",
        TokenKind::ShlAssign => "ShlAssign",
        TokenKind::ShrAssign => "ShrAssign",
        TokenKind::BitAndAssign => "BitAndAssign",
        TokenKind::BitOrAssign => "BitOrAssign",
        TokenKind::BitXorAssign => "BitXorAssign",
        TokenKind::PlusPlus => "PlusPlus",
        TokenKind::MinusMinus => "MinusMinus",
        TokenKind::Le => "Le",
        TokenKind::Ge => "Ge",
        TokenKind::EqEq => "EqEq",
        TokenKind::Ne => "Ne",
        TokenKind::And => "And",
        TokenKind::Or => "Or",
        TokenKind::Bang => "Bang",
        TokenKind::Power => "Power",
        TokenKind::Plus => "Plus",
        TokenKind::Minus => "Minus",
        TokenKind::Star => "Star",
        TokenKind::Slash => "Slash",
        TokenKind::IntDiv => "IntDiv",
        TokenKind::Mod => "Mod",
        TokenKind::Shl => "Shl",
        TokenKind::Shr => "Shr",
        TokenKind::Amp => "Amp",
        TokenKind::Pipe => "Pipe",
        TokenKind::Caret => "Caret",
        TokenKind::Tilde => "Tilde",
        TokenKind::Lt => "Lt",
        TokenKind::Gt => "Gt",
        TokenKind::LParen => "LParen",
        TokenKind::RParen => "RParen",
        TokenKind::LBrace => "LBrace",
        TokenKind::RBrace => "RBrace",
        TokenKind::LBracket => "LBracket",
        TokenKind::RBracket => "RBracket",
        TokenKind::Semi => "Semi",
        TokenKind::Comma => "Comma",
        TokenKind::Dot => "Dot",
        TokenKind::Eq => "Eq",
        TokenKind::Question => "Question",
        TokenKind::Colon => "Colon",
        TokenKind::Underscore => "Underscore",
    }
}

/// The `Debug` rendering of a token, e.g. `Semi` or `Ident("x")`.
pub open spec fn token_debug_text(t: Token) -> Seq<char> {
    match t {
        Token::NumberLit(s) => "NumberLit(\""@ + s@ + "\")"@,
        Token::StringLit(s) => "StringLit(\""@ + s@ + "\")"@,
        Token::Ident(s) => "Ident(\""@ + s@ + "\")"@,
        _ => kind_name_text(kind_of(t)),
    }
}

/// The `Debug` rendering of a token, e.g. `Semi` or `Ident("x")`.
fn describe_token(t: &Token) -> (r: String)
    ensures
        r@ == token_debug_text(*t),
{
    match t {
        Token::NumberLit(s) => wrap_payload("NumberLit(\"", s),
        Token::StringLit(s) => wrap_payload("StringLit(\"", s),
        Token::Ident(s) => wrap_payload("Ident(\"", s),
        _ => String::from_str(kind_name(t.kind())),
    }
}

fn wrap_payload(head: &str, s: &String) -> (r: String)
    ensures
        r@ == head@ + s@ + "\")"@,
{
    let mut out = String::from_str(head);
    out.append(s.as_str());
    out.append("\")");
    out
}

/// `"<a><b>"`
fn join2(a: &str, b: &str) -> String {
    let mut out = String::from_str(a);
    out.append(b);
    out
}

/// `"<a><b><c><d>"`
fn join4(a: &str, b: &str, c: &str, d: &str) -> String {
    let mut out = String::from_str(a);
    out.append(b);
    out.append(c);
    out.append(d);
    out
}

// ── Helpers ─────────────────────────────────────────────────────────

/// Whether the group of `ks` that starts at `i`, nested `depth` deep in
/// parentheses, holds a comma at depth 1 before the group closes.
pub open spec fn comma_in_group(ks: Seq<TokenKind>, i: int, depth: int) -> bool
    decreases ks.len() - i,
{
    if i < 0 || i >= ks.len() {
        false
    } else {
        match ks[i] {
            TokenKind::LParen => comma_in_group(ks, i + 1, depth + 1),
            TokenKind::RParen => if depth == 1 {
                false
            } else {
                comma_in_group(ks, i + 1, depth - 1)
            },
            TokenKind::Comma => depth == 1 || comma_in_group(ks, i + 1, depth),
            _ => comma_in_group(ks, i + 1, depth),
        }
    }
}

impl Parser {
    /// `self` is a later state of the same parse as `prev`: same tokens,
    /// a position no earlier, and the earlier errors kept in order.
    pub(crate) closed spec fn evolves(self, prev: Parser) -> bool {
        &&& self.tokens@ == prev.tokens@
        &&& prev.pos <= self.pos <= self.tokens@.len()
        &&& prev.errors@.len() <= self.errors@.len()
        &&& forall|i: int| 0 <= i < prev.errors@.len() ==> self.errors@[i] == prev.errors@[i]
    }

    /// At least one token was consumed unless the input was exhausted.
    pub(crate) closed spec fn progressed(self, prev: Parser) -> bool {
        prev.pos < prev.tokens@.len() ==> prev.pos < self.pos
    }

    pub(crate) closed spec fn wf(self) -> bool {
        self.pos <= self.tokens@.len()
    }

    pub(crate) closed spec fn spec_peek(self) -> Option<TokenKind> {
        if self.pos < self.tokens@.len() {
            Some(kind_of(self.tokens@[self.pos as int].token))
        } else {
            None
        }
    }

    pub(crate) closed spec fn spec_span_of(self, pos: int) -> Span {
        if 0 <= pos < self.tokens@.len() {
            Span { start: self.tokens@[pos].span.start, end: self.tokens@[pos].span.end }
        } else {
            Span { start: usize::MAX, end: usize::MAX }
        }
    }

    fn peek_kind(&self) -> (r: Option<TokenKind>)
        ensures
            r == self.spec_peek(),
    {
        if self.pos < self.tokens.len() {
            Some(self.tokens[self.pos].token.kind())
        } else {
            None
        }
    }

    /// The kind of the token after the current one.
    fn peek_next_kind(&self) -> (r: Option<TokenKind>)
        requires
            self.wf(),
        ensures
            r == (if self.pos + 1 < self.tokens@.len() {
                Some(kind_of(self.tokens@[self.pos + 1].token))
            } else {
                None::<TokenKind>
            }),
    {
        if self.tokens.len() - self.pos > 1 {
            Some(self.tokens[self.pos + 1].token.kind())
        } else {
            None
        }
    }

    fn at_end(&self) -> (r: bool)
        ensures
            r == (self.pos >= self.tokens@.len()),
    {
        self.pos >= self.tokens.len()
    }

    fn advance(&mut self)
        requires
            old(self).wf(),
        ensures
            final(self).evolves(*old(self)),
            final(self).progressed(*old(self)),
            final(self).errors == old(self).errors,
            final(self).version == old(self).version,
            final(self).pos == (if old(self).pos < old(self).tokens@.len() {
                old(self).pos + 1
            } else {
                old(self).pos as int
            }),
    {
        if self.pos < self.tokens.len() {
            self.pos += 1;
        }
    }

    fn span_of(&self, pos: usize) -> (s: Span)
        ensures
            s == self.spec_span_of(pos as int),
    {
        if pos < self.tokens.len() {
            let t = &self.tokens[pos];
            Span::new(t.span.start, t.span.end)
        } else {
            Span::dummy()
        }
    }

    fn current_span(&self) -> (s: Span)
        ensures
            s == self.spec_span_of(self.pos as int),
    {
        self.span_of(self.pos)
    }

    fn prev_span(&self) -> (s: Span)
        ensures
            s == (if self.pos > 0 {
                self.spec_span_of(self.pos - 1)
            } else {
                Span { start: 0, end: 0 }
            }),
    {
        if self.pos > 0 {
            self.span_of(self.pos - 1)
        } else {
            Span::new(0, 0)
        }
    }

    fn check(&self, expected: TokenKind) -> (r: bool)
        ensures
            r == (self.spec_peek() == Some(expected)),
    {
        match self.peek_kind() {
            Some(k) => k == expected,
            None => false,
        }
    }

    fn eat(&mut self, expected: TokenKind) -> (r: bool)
        requires
            old(self).wf(),
        ensures
            r == (old(self).spec_peek() == Some(expected)),
            final(self).evolves(*old(self)),
            final(self).errors == old(self).errors,
            final(self).version == old(self).version,
            final(self).pos == (if r { old(self).pos + 1 } else { old(self).pos as int }),
    {
        if self.check(expected) {
            self.advance();
            true
        } else {
            false
        }
    }

    fn expect(&mut self, expected: TokenKind) -> (r: bool)
        requires
            old(self).wf(),
        ensures
            r == (old(self).spec_peek() == Some(expected)),
            final(self).evolves(*old(self)),
            final(self).version == old(self).version,
            final(self).pos == (if r { old(self).pos + 1 } else { old(self).pos as int }),
            r ==> final(self).errors == old(self).errors,
            !r ==> final(self).errors@.len() == old(self).errors@.len() + 1,
    {
        if self.eat(expected) {
            true
        } else {
            let span = self.current_span();
            let found = if self.pos < self.tokens.len() {
                describe_token(&self.tokens[self.pos].token)
            } else {
                String::from_str("EOF")
            };
            let message = join4("expected ", kind_name(expected), ", found ", found.as_str());
            self.errors.push(ParseError { span, message });
            false
        }
    }

    fn expect_semi(&mut self)
        requires
            old(self).wf(),
        ensures
            final(self).evolves(*old(self)),
            final(self).version == old(self).version,
    {
        self.expect(TokenKind::Semi);
    }

    fn keyword_as_ident(k: TokenKind) -> (r: Option<&'static str>)
        ensures
            r == spec_keyword_as_ident(k),
    {
        match k {
            TokenKind::Main => Some("main"),
            TokenKind::Input => Some("input"),
            TokenKind::Output => Some("output"),
            TokenKind::Signal => Some("signal"),
            TokenKind::Component => Some("component"),
            TokenKind::Var => Some("var"),
            TokenKind::Log => Some("log"),
            TokenKind::Assert => Some("assert"),
            TokenKind::Template => Some("template"),
            TokenKind::Function => Some("function"),
            TokenKind::Bus => Some("bus"),
            TokenKind::Custom => Some("custom"),
            TokenKind::Public => Some("public"),
            TokenKind::Parallel => Some("parallel"),
            TokenKind::Extern => Some("extern"),
            _ => None,
        }
    }

    fn is_reserved_keyword(k: TokenKind) -> (r: bool)
        ensures
            r == spec_is_reserved(k),
    {
        Self::keyword_as_ident(k).is_some() && k != TokenKind::Main
    }

    /// The text of the current token, which carries one.
    fn current_text(&self) -> (r: String)
        requires
            self.pos < self.tokens@.len(),
        ensures
            r@ == token_payload(self.tokens@[self.pos as int].token),
    {
        match &self.tokens[self.pos].token {
            Token::Ident(s) => s.clone(),
            Token::NumberLit(s) => s.clone(),
            Token::StringLit(s) => s.clone(),
            _ => {
                let r = String::new();
                assert(r@ =~= Seq::<char>::empty());
                r
            },
        }
    }

    /// Like `expect_ident`, but rejects reserved keywords as declaration names.
    fn expect_decl_name(&mut self) -> (id: Identifier)
        requires
            old(self).wf(),
        ensures
            final(self).evolves(*old(self)),
            final(self).version == old(self).version,
            old(self).spec_peek() matches Some(k) && (k == TokenKind::Ident || spec_keyword_as_ident(k) is Some)
                ==> final(self).pos == old(self).pos + 1,
            old(self).spec_peek() matches Some(k) && spec_is_reserved(k) ==> final(self).errors@.len() == old(self).errors@.len() + 1,
    {
        if let Some(k) = self.peek_kind() {
            if Self::is_reserved_keyword(k) {
                let span = self.current_span();
                let name = Self::keyword_as_ident(k).unwrap();
                self.error(join4("keyword `", name, "` cannot be used as a name", ""));
                self.advance();
                return Identifier { span, name: String::from_str(name) };
            }
        }
        self.expect_ident()
    }

    /// The name the token at `pos` gives as an identifier, if it can be
    /// one: an identifier's text, or a keyword allowed as a name.
    pub(crate) closed spec fn ident_text_at(self, pos: int) -> Option<Seq<char>> {
        if 0 <= pos < self.tokens@.len() {
            let t = self.tokens@[pos].token;
            if kind_of(t) == TokenKind::Ident {
                Some(token_payload(t))
            } else {
                match spec_keyword_as_ident(kind_of(t)) {
                    Some(s) => Some(s@),
                    None => None,
                }
            }
        } else {
            None
        }
    }

    /// The kind of the token at `pos`, if there is one.
    pub(crate) closed spec fn kind_at(self, pos: int) -> Option<TokenKind> {
        if 0 <= pos < self.tokens@.len() {
            Some(kind_of(self.tokens@[pos].token))
        } else {
            None
        }
    }

    /// An identifier expected at `pos`: its name (empty when the token can
    /// be none), its span, and the position after it.
    pub(crate) closed spec fn ident_step(self, pos: int) -> (Seq<char>, Span, int) {
        match self.ident_text_at(pos) {
            Some(n) => (n, self.spec_span_of(pos), pos + 1),
            None => (Seq::empty(), self.spec_span_of(pos), pos),
        }
    }

    /// Comma-separated identifiers expected from `pos` on, each by
    /// [`Self::ident_step`], and the position after them.
    spec fn ident_list_from(self, pos: int) -> (Seq<(Seq<char>, Span)>, int)
        decreases self.tokens@.len() - pos,
    {
        let (n, sp, p1) = self.ident_step(pos);
        if self.kind_at(p1) == Some(TokenKind::Comma) && p1 >= pos {
            let (rest, p2) = self.ident_list_from(p1 + 1);
            (seq![(n, sp)] + rest, p2)
        } else {
            (seq![(n, sp)], p1)
        }
    }

    /// What follows an identifier of a list at `pos`: the identifiers after
    /// a comma there, and the position after them.
    spec fn ident_tail_from(self, pos: int) -> (Seq<(Seq<char>, Span)>, int) {
        if self.kind_at(pos) == Some(TokenKind::Comma) {
            self.ident_list_from(pos + 1)
        } else {
            (Seq::empty(), pos)
        }
    }

    /// The identifiers of a list as (name, span) pairs.
    pub(crate) open spec fn ident_pairs(ids: Seq<Identifier>) -> Seq<(Seq<char>, Span)> {
        ids.map_values(|id: Identifier| (id.name@, id.span))
    }

    fn expect_ident(&mut self) -> (id: Identifier)
        requires
            old(self).wf(),
        ensures
            id.name@ == old(self).ident_step(old(self).pos as int).0,
            id.span == old(self).ident_step(old(self).pos as int).1,
            final(self).pos == old(self).ident_step(old(self).pos as int).2,
            final(self).evolves(*old(self)),
            final(self).version == old(self).version,
            old(self).spec_peek() matches Some(k) && (k == TokenKind::Ident || spec_keyword_as_ident(k) is Some)
                ==> final(self).pos == old(self).pos + 1 && final(self).errors == old(self).errors,
            !(old(self).spec_peek() matches Some(k) && (k == TokenKind::Ident || spec_keyword_as_ident(k) is Some))
                ==> final(self).pos == old(self).pos && final(self).errors@.len() == old(self).errors@.len() + 1,
    {
        match self.peek_kind() {
            Some(TokenKind::Ident) => {
                let span = self.current_span();
                let name = self.current_text();
                self.advance();
                Identifier { span, name }
            },
            Some(k) if Self::keyword_as_ident(k).is_some() => {
                let span = self.current_span();
                let name = Self::keyword_as_ident(k).unwrap();
                self.advance();
                Identifier { span, name: String::from_str(name) }
            },
            _ => {
                let span = self.current_span();
                let found = if self.pos < self.tokens.len() {
                    describe_token(&self.tokens[self.pos].token)
                } else {
                    String::from_str("EOF")
                };
                self.errors.push(ParseError { span, message: join2("expected identifier, found ", found.as_str()) });
                Identifier { span, name: String::new() }
            },
        }
    }

    fn error(&mut self, message: String)
        requires
            old(self).wf(),
        ensures
            final(self).evolves(*old(self)),
            final(self).pos == old(self).pos,
            final(self).version == old(self).version,
            final(self).errors@ == old(self).errors@.push(ParseError { span: old(self).spec_span_of(old(self).pos as int), message }),
    {
        let span = self.current_span();
        self.errors.push(ParseError { span, message });
    }

    /// Emit `message` if the declared pragma version is below `min`.
    /// No-op when no pragma has been seen (permissive by default).
    fn require_version(&mut self, min: Version, message: &str, span: Span)
        requires
            old(self).wf(),
        ensures
            final(self).evolves(*old(self)),
            final(self).pos == old(self).pos,
            final(self).version == old(self).version,
            (old(self).version matches Some(v) && version_lt(v, min)) ==> {
                &&& final(self).errors@.len() == old(self).errors@.len() + 1
                &&& final(self).errors@.last().span == span
                &&& final(self).errors@.last().message@ == message@
            },
            !(old(self).version matches Some(v) && version_lt(v, min)) ==> final(self).errors == old(self).errors,
    {
        if let Some(ver) = self.version {
            if ver.older_than(&min) {
                self.errors.push(ParseError { span, message: String::from_str(message) });
            }
        }
    }

    /// Skip tokens until we find something that could start a new statement/item.
    fn synchronize(&mut self)
        requires
            old(self).wf(),
        ensures
            final(self).evolves(*old(self)),
            final(self).errors == old(self).errors,
            final(self).version == old(self).version,
            final(self).pos == final(self).tokens@.len() || (final(self).pos > 0
                && kind_of(final(self).tokens@[final(self).pos - 1].token) == TokenKind::Semi
                && final(self).pos > old(self).pos) || spec_is_sync_point(
                kind_of(final(self).tokens@[final(self).pos as int].token),
            ),
    {
        while !self.at_end()
            invariant
                self.evolves(*old(self)),
                self.errors == old(self).errors,
                self.version == old(self).version,
            decreases self.tokens@.len() - self.pos,
        {
            if self.eat(TokenKind::Semi) {
                return;
            }
            match self.peek_kind() {
                Some(k) => {
                    if spec_sync(k) {
                        return;
                    }
                    self.advance();
                },
                None => {
                    self.advance();
                },
            }
        }
    }
}

fn spec_sync(k: TokenKind) -> (r: bool)
    ensures
        r == spec_is_sync_point(k),
{
    match k {
        TokenKind::Pragma | TokenKind::Include | TokenKind::Template | TokenKind::Function
        | TokenKind::Bus | TokenKind::Component | TokenKind::Signal | TokenKind::Var
        | TokenKind::If | TokenKind::For | TokenKind::While | TokenKind::Return | TokenKind::Log
        | TokenKind::Assert | TokenKind::RBrace => true,
        _ => false,
    }
}

// ── Expression parsing (precedence climbing) ────────────────────────

impl Parser {
    fn parse_expression(&mut self) -> (e: Expression)
        requires
            old(self).wf(),
        ensures
            final(self).evolves(*old(self)),
            final(self).progressed(*old(self)),
        decreases old(self).tokens@.len() - old(self).pos, 20nat,
    {
        self.parse_ternary()
    }

    fn parse_ternary(&mut self) -> (e: Expression)
        requires
            old(self).wf(),
        ensures
            final(self).evolves(*old(self)),
            final(self).progressed(*old(self)),
        decreases old(self).tokens@.len() - old(self).pos, 19nat,
    {
        let start = self.current_span();
        let expr = self.parse_or();
        if self.eat(TokenKind::Question) {
            let then_expr = self.parse_expression();
            self.expect(TokenKind::Colon);
            let else_expr = self.parse_expression();
            let span = start.merge(self.prev_span());
            Expression { span, kind: Box::new(ExpressionKind::Ternary(expr, then_expr, else_expr)) }
        } else {
            expr
        }
    }

    fn parse_or(&mut self) -> (e: Expression)
        requires
            old(self).wf(),
        ensures
            final(self).evolves(*old(self)),
            final(self).progressed(*old(self)),
        decreases old(self).tokens@.len() - old(self).pos, 18nat,
    {
        let start = self.current_span();
        let mut left = self.parse_and();
        loop
            invariant
                self.evolves(*old(self)),
                self.progressed(*old(self)),
            decreases self.tokens@.len() - self.pos,
        {
            let op = match self.peek_kind() {
                Some(TokenKind::Or) => BinaryOp::Or,
                _ => break,
            };
            self.advance();
            let right = self.parse_and();
            let span = start.merge(self.prev_span());
            left = Expression { span, kind: Box::new(ExpressionKind::Binary(left, op, right)) };
        }
        left
    }

    fn parse_and(&mut self) -> (e: Expression)
        requires
            old(self).wf(),
        ensures
            final(self).evolves(*old(self)),
            final(self).progressed(*old(self)),
        decreases old(self).tokens@.len() - old(self).pos, 17nat,
    {
        let start = self.current_span();
        let mut left = self.parse_bit_or();
        loop
            invariant
                self.evolves(*old(self)),
                self.progressed(*old(self)),
            decreases self.tokens@.len() - self.pos,
        {
            let op = match self.peek_kind() {
                Some(TokenKind::And) => BinaryOp::And,
                _ => break,
            };
            self.advance();
            let right = self.parse_bit_or();
            let span = start.merge(self.prev_span());
            left = Expression { span, kind: Box::new(ExpressionKind::Binary(left, op, right)) };
        }
        left
    }

    fn parse_bit_or(&mut self) -> (e: Expression)
        requires
            old(self).wf(),
        ensures
            final(self).evolves(*old(self)),
            final(self).progressed(*old(self)),
        decreases old(self).tokens@.len() - old(self).pos, 16nat,
    {
        let start = self.current_span();
        let mut left = self.parse_bit_xor();
        loop
            invariant
                self.evolves(*old(self)),
                self.progressed(*old(self)),
            decreases self.tokens@.len() - self.pos,
        {
            let op = match self.peek_kind() {
                Some(TokenKind::Pipe) => BinaryOp::BitOr,
                _ => break,
            };
            self.advance();
            let right = self.parse_bit_xor();
            let span = start.merge(self.prev_span());
            left = Expression { span, kind: Box::new(ExpressionKind::Binary(left, op, right)) };
        }
        left
    }

    fn parse_bit_xor(&mut self) -> (e: Expression)
        requires
            old(self).wf(),
        ensures
            final(self).evolves(*old(self)),
            final(self).progressed(*old(self)),
        decreases old(self).tokens@.len() - old(self).pos, 15nat,
    {
        let start = self.current_span();
        let mut left = self.parse_bit_and();
        loop
            invariant
                self.evolves(*old(self)),
                self.progressed(*old(self)),
            decreases self.tokens@.len() - self.pos,
        {
            let op = match self.peek_kind() {
                Some(TokenKind::Caret) => BinaryOp::BitXor,
                _ => break,
            };
            self.advance();
            let right = self.parse_bit_and();
            let span = start.merge(self.prev_span());
            left = Expression { span, kind: Box::new(ExpressionKind::Binary(left, op, right)) };
        }
        left
    }

    fn parse_bit_and(&mut self) -> (e: Expression)
        requires
            old(self).wf(),
        ensures
            final(self).evolves(*old(self)),
            final(self).progressed(*old(self)),
        decreases old(self).tokens@.len() - old(self).pos, 14nat,
    {
        let start = self.current_span();
        let mut left = self.parse_equality();
        loop
            invariant
                self.evolves(*old(self)),
                self.progressed(*old(self)),
            decreases self.tokens@.len() - self.pos,
        {
            let op = match self.peek_kind() {
                Some(TokenKind::Amp) => BinaryOp::BitAnd,
                _ => break,
            };
            self.advance();
            let right = self.parse_equality();
            let span = start.merge(self.prev_span());
            left = Expression { span, kind: Box::new(ExpressionKind::Binary(left, op, right)) };
        }
        left
    }

    fn parse_equality(&mut self) -> (e: Expression)
        requires
            old(self).wf(),
        ensures
            final(self).evolves(*old(self)),
            final(self).progressed(*old(self)),
        decreases old(self).tokens@.len() - old(self).pos, 13nat,
    {
        let start = self.current_span();
        let mut left = self.parse_relational();
        loop
            invariant
                self.evolves(*old(self)),
                self.progressed(*old(self)),
            decreases self.tokens@.len() - self.pos,
        {
            let op = match self.peek_kind() {
                Some(TokenKind::EqEq) => BinaryOp::Eq,
                Some(TokenKind::Ne) => BinaryOp::Ne,
                _ => break,
            };
            self.advance();
            let right = self.parse_relational();
            let span = start.merge(self.prev_span());
            left = Expression { span, kind: Box::new(ExpressionKind::Binary(left, op, right)) };
        }
        left
    }

    fn parse_relational(&mut self) -> (e: Expression)
        requires
            old(self).wf(),
        ensures
            final(self).evolves(*old(self)),
            final(self).progressed(*old(self)),
        decreases old(self).tokens@.len() - old(self).pos, 12nat,
    {
        let start = self.current_span();
        let mut left = self.parse_shift();
        loop
            invariant
                self.evolves(*old(self)),
                self.progressed(*old(self)),
            decreases self.tokens@.len() - self.pos,
        {
            let op = match self.peek_kind() {
                Some(TokenKind::Lt) => BinaryOp::Lt,
                Some(TokenKind::Gt) => BinaryOp::Gt,
                Some(TokenKind::Le) => BinaryOp::Le,
                Some(TokenKind::Ge) => BinaryOp::Ge,
                _ => break,
            };
            self.advance();
            let right = self.parse_shift();
            let span = start.merge(self.prev_span());
            left = Expression { span, kind: Box::new(ExpressionKind::Binary(left, op, right)) };
        }
        left
    }

    fn parse_shift(&mut self) -> (e: Expression)
        requires
            old(self).wf(),
        ensures
            final(self).evolves(*old(self)),
            final(self).progressed(*old(self)),
        decreases old(self).tokens@.len() - old(self).pos, 11nat,
    {
        let start = self.current_span();
        let mut left = self.parse_additive();
        loop
            invariant
                self.evolves(*old(self)),
                self.progressed(*old(self)),
            decreases self.tokens@.len() - self.pos,
        {
            let op = match self.peek_kind() {
                Some(TokenKind::Shl) => BinaryOp::Shl,
                Some(TokenKind::Shr) => BinaryOp::Shr,
                _ => break,
            };
            self.advance();
            let right = self.parse_additive();
            let span = start.merge(self.prev_span());
            left = Expression { span, kind: Box::new(ExpressionKind::Binary(left, op, right)) };
        }
        left
    }

    fn parse_additive(&mut self) -> (e: Expression)
        requires
            old(self).wf(),
        ensures
            final(self).evolves(*old(self)),
            final(self).progressed(*old(self)),
        decreases old(self).tokens@.len() - old(self).pos, 10nat,
    {
        let start = self.current_span();
        let mut left = self.parse_multiplicative();
        loop
            invariant
                self.evolves(*old(self)),
                self.progressed(*old(self)),
            decreases self.tokens@.len() - self.pos,
        {
            let op = match self.peek_kind() {
                Some(TokenKind::Plus) => BinaryOp::Add,
                Some(TokenKind::Minus) => BinaryOp::Sub,
                _ => break,
            };
            self.advance();
            let right = self.parse_multiplicative();
            let span = start.merge(self.prev_span());
            left = Expression { span, kind: Box::new(ExpressionKind::Binary(left, op, right)) };
        }
        left
    }

    fn parse_multiplicative(&mut self) -> (e: Expression)
        requires
            old(self).wf(),
        ensures
            final(self).evolves(*old(self)),
            final(self).progressed(*old(self)),
        decreases old(self).tokens@.len() - old(self).pos, 9nat,
    {
        let start = self.current_span();
        let mut left = self.parse_power();
        loop
            invariant
                self.evolves(*old(self)),
                self.progressed(*old(self)),
            decreases self.tokens@.len() - self.pos,
        {
            let op = match self.peek_kind() {
                Some(TokenKind::Star) => BinaryOp::Mul,
                Some(TokenKind::Slash) => BinaryOp::Div,
                Some(TokenKind::IntDiv) => BinaryOp::IntDiv,
                Some(TokenKind::Mod) => BinaryOp::Mod,
                _ => break,
            };
            self.advance();
            let right = self.parse_power();
            let span = start.merge(self.prev_span());
            left = Expression { span, kind: Box::new(ExpressionKind::Binary(left, op, right)) };
        }
        left
    }

    fn parse_power(&mut self) -> (e: Expression)
        requires
            old(self).wf(),
        ensures
            final(self).evolves(*old(self)),
            final(self).progressed(*old(self)),
        decreases old(self).tokens@.len() - old(self).pos, 8nat,
    {
        let start = self.current_span();
        let base = self.parse_unary();
        // Power is right-associative
        if self.check(TokenKind::Power) {
            self.advance();
            let exp = self.parse_power();
            let span = start.merge(self.prev_span());
            Expression { span, kind: Box::new(ExpressionKind::Binary(base, BinaryOp::Pow, exp)) }
        } else {
            base
        }
    }

    fn parse_unary(&mut self) -> (e: Expression)
        requires
            old(self).wf(),
        ensures
            final(self).evolves(*old(self)),
            final(self).progressed(*old(self)),
        decreases old(self).tokens@.len() - old(self).pos, 7nat,
    {
        let start = self.current_span();
        let op = match self.peek_kind() {
            Some(TokenKind::Minus) => UnaryOp::Neg,
            Some(TokenKind::Bang) => UnaryOp::Not,
            Some(TokenKind::Tilde) => UnaryOp::BitNot,
            _ => {
                return self.parse_postfix();
            },
        };
        self.advance();
        let expr = self.parse_unary();
        let span = start.merge(self.prev_span());
        Expression { span, kind: Box::new(ExpressionKind::Unary(op, expr)) }
    }

    fn parse_call_or_anon_comp(&mut self, start: Span, callee: Expression) -> (e: Expression)
        requires
            old(self).wf(),
            old(self).spec_peek() == Some(TokenKind::LParen),
        ensures
            final(self).evolves(*old(self)),
            final(self).pos > old(self).pos,
        decreases old(self).tokens@.len() - old(self).pos, 1nat,
    {
        self.advance();
        let args = self.parse_call_args();
        self.expect(TokenKind::RParen);

        // Check for anonymous component: Template(params)(inputs)
        if self.check(TokenKind::LParen) {
            self.advance();
            let inputs = self.parse_anon_comp_inputs();
            self.expect(TokenKind::RParen);
            Expression {
                span: start.merge(self.prev_span()),
                kind: Box::new(
                    ExpressionKind::AnonymousComp(AnonymousComp { template: callee, template_args: args, inputs }),
                ),
            }
        } else {
            Expression { span: start.merge(self.prev_span()), kind: Box::new(ExpressionKind::Call(callee, args)) }
        }
    }

    fn parse_postfix(&mut self) -> (e: Expression)
        requires
            old(self).wf(),
        ensures
            final(self).evolves(*old(self)),
            final(self).progressed(*old(self)),
        decreases old(self).tokens@.len() - old(self).pos, 6nat,
    {
        let start = self.current_span();
        let mut expr = self.parse_primary();
        loop
            invariant
                self.evolves(*old(self)),
                self.progressed(*old(self)),
            decreases self.tokens@.len() - self.pos,
        {
            match self.peek_kind() {
                Some(TokenKind::LBracket) => {
                    self.advance();
                    let index = self.parse_expression();
                    self.expect(TokenKind::RBracket);
                    let span = start.merge(self.prev_span());
                    expr = Expression { span, kind: Box::new(ExpressionKind::Index(expr, index)) };
                },
                Some(TokenKind::Dot) => {
                    self.advance();
                    let field = self.expect_ident();
                    let span = start.merge(self.prev_span());
                    expr = Expression { span, kind: Box::new(ExpressionKind::Member(expr, field)) };
                },
                Some(TokenKind::LParen) => {
                    expr = self.parse_call_or_anon_comp(start, expr);
                },
                _ => break,
            }
        }
        expr
    }

    fn parse_call_args(&mut self) -> (args: Vec<Expression>)
        requires
            old(self).wf(),
        ensures
            final(self).evolves(*old(self)),
            old(self).kind_at(old(self).pos as int) == Some(TokenKind::RParen) ==> args@.len() == 0 && *final(self)
                == *old(self),
            old(self).kind_at(old(self).pos as int) != Some(TokenKind::RParen) ==> args@.len() >= 1,
        decreases old(self).tokens@.len() - old(self).pos, 22nat,
    {
        let mut args: Vec<Expression> = Vec::new();
        if !self.check(TokenKind::RParen) {
            args.push(self.parse_expression());
            while self.eat(TokenKind::Comma)
                invariant
                    self.evolves(*old(self)),
                    args@.len() >= 1,
                decreases self.tokens@.len() - self.pos,
            {
                args.push(self.parse_expression());
            }
        }
        args
    }

    fn parse_anon_comp_inputs(&mut self) -> (inputs: Vec<AnonCompInput>)
        requires
            old(self).wf(),
        ensures
            final(self).evolves(*old(self)),
            old(self).kind_at(old(self).pos as int) == Some(TokenKind::RParen) ==> inputs@.len() == 0 && *final(self)
                == *old(self),
            old(self).kind_at(old(self).pos as int) != Some(TokenKind::RParen) ==> inputs@.len() >= 1,
        decreases old(self).tokens@.len() - old(self).pos, 23nat,
    {
        let mut inputs: Vec<AnonCompInput> = Vec::new();
        if !self.check(TokenKind::RParen) {
            inputs.push(self.parse_anon_comp_input());
            while self.eat(TokenKind::Comma)
                invariant
                    self.evolves(*old(self)),
                    inputs@.len() >= 1,
                decreases self.tokens@.len() - self.pos,
            {
                inputs.push(self.parse_anon_comp_input());
            }
        }
        inputs
    }

    fn parse_anon_comp_input(&mut self) -> (input: AnonCompInput)
        requires
            old(self).wf(),
        ensures
            final(self).evolves(*old(self)),
            (input is Named) == (old(self).spec_peek() == Some(TokenKind::Ident) && old(self).pos + 1
                < old(self).tokens@.len() && kind_of(old(self).tokens@[old(self).pos + 1].token)
                == TokenKind::LeftSignalAssign),
        decreases old(self).tokens@.len() - old(self).pos, 22nat,
    {
        // Check for named input: `name <== expr`
        if self.check(TokenKind::Ident) && self.peek_next_kind() == Some(TokenKind::LeftSignalAssign) {
            let name = self.expect_ident();
            self.advance();  // eat <==
            let expr = self.parse_expression();
            return AnonCompInput::Named(name, expr);
        }
        AnonCompInput::Positional(self.parse_expression())
    }

    fn parse_array_lit_tail(&mut self, start: Span) -> (e: Expression)
        requires
            old(self).wf(),
        ensures
            final(self).evolves(*old(self)),
            *e.kind matches ExpressionKind::ArrayLit(es) && (es@.len() == 0 <==> old(self).kind_at(old(self).pos as int)
                == Some(TokenKind::RBracket)),
        decreases old(self).tokens@.len() - old(self).pos, 21nat,
    {
        let mut elems: Vec<Expression> = Vec::new();
        if !self.check(TokenKind::RBracket) {
            elems.push(self.parse_expression());
            while self.eat(TokenKind::Comma)
                invariant
                    self.evolves(*old(self)),
                    elems@.len() >= 1,
                decreases self.tokens@.len() - self.pos,
            {
                if self.check(TokenKind::RBracket) {
                    break;  // trailing comma
                }
                elems.push(self.parse_expression());
            }
        }
        self.expect(TokenKind::RBracket);
        Expression { span: start.merge(self.prev_span()), kind: Box::new(ExpressionKind::ArrayLit(elems)) }
    }

    fn parse_paren_tail(&mut self, start: Span) -> (e: Expression)
        requires
            old(self).wf(),
        ensures
            final(self).evolves(*old(self)),
        decreases old(self).tokens@.len() - old(self).pos, 21nat,
    {
        let expr = self.parse_expression();
        self.expect(TokenKind::RParen);
        Expression { span: start.merge(self.prev_span()), kind: Box::new(ExpressionKind::Paren(expr)) }
    }

    fn parse_primary_number(&mut self, start: Span) -> (e: Expression)
        requires
            old(self).wf(),
            old(self).spec_peek() == Some(TokenKind::NumberLit),
        ensures
            final(self).evolves(*old(self)),
            final(self).pos == old(self).pos + 1,
            final(self).errors == old(self).errors,
    {
        let s = self.current_text();
        self.advance();
        Expression { span: start, kind: Box::new(ExpressionKind::Number(s)) }
    }

    fn parse_primary_ident(&mut self, start: Span) -> (e: Expression)
        requires
            old(self).wf(),
            old(self).spec_peek() == Some(TokenKind::Ident),
        ensures
            final(self).evolves(*old(self)),
            final(self).pos == old(self).pos + 1,
            final(self).errors == old(self).errors,
    {
        let s = self.current_text();
        self.advance();
        Expression { span: start, kind: Box::new(ExpressionKind::Ident(s)) }
    }

    fn parse_primary_error(&mut self, start: Span) -> (e: Expression)
        requires
            old(self).wf(),
        ensures
            final(self).evolves(*old(self)),
            final(self).progressed(*old(self)),
            final(self).errors@.len() == old(self).errors@.len() + 1,
    {
        self.error(String::from_str("expected expression"));
        // Advance past the unexpected token so callers don't loop
        // on the same position
        if !self.at_end() {
            self.advance();
        }
        Expression { span: start, kind: Box::new(ExpressionKind::Error) }
    }

    fn parse_primary(&mut self) -> (e: Expression)
        requires
            old(self).wf(),
        ensures
            final(self).evolves(*old(self)),
            final(self).progressed(*old(self)),
        decreases old(self).tokens@.len() - old(self).pos, 5nat,
    {
        let start = self.current_span();
        match self.peek_kind() {
            Some(TokenKind::NumberLit) => self.parse_primary_number(start),
            Some(TokenKind::Ident) => self.parse_primary_ident(start),
            Some(TokenKind::Parallel) => {
                self.advance();
                let expr = self.parse_expression();
                Expression { span: start.merge(self.prev_span()), kind: Box::new(ExpressionKind::Parallel(expr)) }
            },
            Some(TokenKind::Underscore) => {
                self.advance();
                Expression { span: start, kind: Box::new(ExpressionKind::Underscore) }
            },
            Some(TokenKind::LParen) => {
                self.advance();
                self.parse_paren_tail(start)
            },
            Some(TokenKind::LBracket) => {
                self.advance();
                self.parse_array_lit_tail(start)
            },
            _ => self.parse_primary_error(start),
        }
    }
}

// ── File-level parsing ──────────────────────────────────────────────

impl Parser {
    fn parse_file(&mut self) -> (items: Vec<Item>)
        requires
            old(self).wf(),
        ensures
            final(self).evolves(*old(self)),
            final(self).pos == final(self).tokens@.len(),
            old(self).pos == old(self).tokens@.len() ==> items@.len() == 0 && final(self).errors@ == old(self).errors@,
    {
        let mut items: Vec<Item> = Vec::new();
        while !self.at_end()
            invariant
                self.evolves(*old(self)),
                old(self).pos == old(self).tokens@.len() ==> items@.len() == 0 && *self == *old(self),
            decreases self.tokens@.len() - self.pos,
        {
            match self.parse_item() {
                Some(item) => items.push(item),
                None => {
                    // Error recovery: skip token
                    if !self.at_end() {
                        self.error(String::from_str("unexpected token at top level"));
                        self.advance();
                    }
                },
            }
        }
        items
    }

    fn parse_item(&mut self) -> (item: Option<Item>)
        requires
            old(self).wf(),
        ensures
            final(self).evolves(*old(self)),
            item is Some ==> final(self).pos > old(self).pos,
            item is None ==> *final(self) == *old(self),
            match old(self).spec_peek() {
                Some(TokenKind::Pragma) => item matches Some(Item::Pragma(_)),
                Some(TokenKind::Include) => item matches Some(Item::Include(_)),
                Some(TokenKind::Template) | Some(TokenKind::Custom) => item matches Some(Item::TemplateDef(_)),
                Some(TokenKind::Function) => item matches Some(Item::FunctionDef(_)),
                Some(TokenKind::Bus) => item matches Some(Item::BusDef(_)),
                Some(TokenKind::Component) => item matches Some(Item::MainComponent(_)),
                _ => item is None,
            },
    {
        match self.peek_kind() {
            Some(TokenKind::Pragma) => Some(Item::Pragma(self.parse_pragma())),
            Some(TokenKind::Include) => Some(Item::Include(self.parse_include())),
            Some(TokenKind::Template) | Some(TokenKind::Custom) => Some(Item::TemplateDef(self.parse_template_def())),
            Some(TokenKind::Function) => Some(Item::FunctionDef(self.parse_function_def())),
            Some(TokenKind::Bus) => Some(Item::BusDef(self.parse_bus_def())),
            Some(TokenKind::Component) => {
                // At the top level a component declaration must be
                // `component main`.
                Some(Item::MainComponent(self.parse_main_component()))
            },
            _ => None,
        }
    }
}

// ── Pragma ──────────────────────────────────────────────────────────

impl Parser {
    fn parse_pragma(&mut self) -> (p: Pragma)
        requires
            old(self).wf(),
            old(self).spec_peek() == Some(TokenKind::Pragma),
        ensures
            final(self).evolves(*old(self)),
            final(self).pos > old(self).pos,
    {
        let start = self.current_span();
        self.advance();  // eat `pragma`

        let kind = match self.peek_kind() {
            Some(TokenKind::Circom) => {
                self.advance();  // eat `circom`
                let version = self.parse_version();
                if self.version.is_some() {
                    let span = start.merge(self.prev_span());
                    self.errors.push(ParseError { span, message: String::from_str("duplicate pragma circom declaration") });
                } else {
                    self.version = Some(version);
                }
                PragmaKind::Version(version)
            },
            Some(TokenKind::Ident) if self.current_is_custom_templates() => {
                self.advance();
                PragmaKind::CustomTemplates
            },
            _ => {
                self.error(String::from_str("expected 'circom' or 'custom_templates' after pragma"));
                PragmaKind::CustomTemplates
            },
        };
        self.expect_semi();
        Pragma { span: start.merge(self.prev_span()), kind }
    }

    /// The current token is the identifier `custom_templates`.
    fn current_is_custom_templates(&self) -> (r: bool)
        requires
            self.pos < self.tokens@.len(),
        ensures
            r == (self.tokens@[self.pos as int].token is Ident && encode_utf8(token_payload(self.tokens@[self.pos as int].token))
                == seq![99u8, 117, 115, 116, 111, 109, 95, 116, 101, 109, 112, 108, 97, 116, 101, 115]),
    {
        match &self.tokens[self.pos].token {
            Token::Ident(s) => {
                let b = s.as_str().as_bytes();
                let lit: [u8; 16] = [99u8, 117, 115, 116, 111, 109, 95, 116, 101, 109, 112, 108, 97, 116, 101, 115];
                let r = crate::lexer::text_is(b, 0, b.len(), lit.as_slice());
                assert(b@.subrange(0, b@.len() as int) =~= b@);
                assert(lit@ =~= seq![99u8, 117, 115, 116, 111, 109, 95, 116, 101, 109, 112, 108, 97, 116, 101, 115]);
                r
            },
            _ => false,
        }
    }

    fn parse_version(&mut self) -> (v: Version)
        requires
            old(self).wf(),
        ensures
            final(self).evolves(*old(self)),
            final(self).version == old(self).version,
    {
        let major = self.parse_number_as_u32();
        self.expect(TokenKind::Dot);
        let minor = self.parse_number_as_u32();
        self.expect(TokenKind::Dot);
        let patch = self.parse_number_as_u32();
        Version { major, minor, patch }
    }

    fn parse_number_as_u32(&mut self) -> (n: u32)
        requires
            old(self).wf(),
        ensures
            final(self).evolves(*old(self)),
            final(self).version == old(self).version,
            n == (if old(self).pos < old(self).tokens@.len() && old(self).tokens@[old(self).pos as int].token is NumberLit {
                match spec_number_literal_u32(encode_utf8(token_payload(old(self).tokens@[old(self).pos as int].token))) {
                    Some(v) => v,
                    None => 0,
                }
            } else {
                0
            }),
    {
        match self.peek_kind() {
            Some(TokenKind::NumberLit) => {
                let s = self.current_text();
                self.advance();
                match parse_number_literal_u32(s.as_str()) {
                    Some(n) => n,
                    None => {
                        self.error(join4("version number '", s.as_str(), "' overflows u32", ""));
                        0
                    },
                }
            },
            _ => {
                self.error(String::from_str("expected version number"));
                0
            },
        }
    }
}

// ── Include ─────────────────────────────────────────────────────────

impl Parser {
    fn parse_include(&mut self) -> (inc: Include)
        requires
            old(self).wf(),
            old(self).spec_peek() == Some(TokenKind::Include),
        ensures
            final(self).evolves(*old(self)),
            final(self).pos > old(self).pos,
    {
        let start = self.current_span();
        self.advance();  // eat `include`
        let path = match self.peek_kind() {
            Some(TokenKind::StringLit) => {
                let s = self.current_text();
                self.advance();
                s
            },
            _ => {
                self.error(String::from_str("expected string literal after include"));
                String::new()
            },
        };
        self.expect_semi();
        Include { span: start.merge(self.prev_span()), path }
    }
}

// ── Template ────────────────────────────────────────────────────────

impl Parser {
    fn parse_template_def(&mut self) -> (t: TemplateDef)
        requires
            old(self).wf(),
            old(self).spec_peek() == Some(TokenKind::Template) || old(self).spec_peek() == Some(TokenKind::Custom),
        ensures
            final(self).evolves(*old(self)),
            final(self).pos > old(self).pos,
    {
        let start = self.current_span();

        // Parse optional `custom`
        let is_custom = self.eat(TokenKind::Custom);

        self.expect(TokenKind::Template);

        // Parse optional `custom` after template keyword (both orderings work)
        let is_custom = is_custom || self.eat(TokenKind::Custom);

        // Parse optional `extern`
        let is_extern = self.eat(TokenKind::Extern);
        if is_extern {
            self.require_version(
                Version { major: 2, minor: 2, patch: 3 },
                "extern templates require pragma circom >= 2.2.3",
                start,
            );
        }

        // Parse optional `parallel`
        let is_parallel = self.eat(TokenKind::Parallel);

        let name = self.expect_decl_name();
        let params = self.parse_param_list();
        let body = self.parse_block();

        TemplateDef { span: start.merge(self.prev_span()), name, params, body, is_custom, is_parallel, is_extern }
    }

    fn parse_param_list(&mut self) -> (params: Vec<Identifier>)
        requires
            old(self).wf(),
        ensures
            final(self).evolves(*old(self)),
            ({
                let p0 = if old(self).kind_at(old(self).pos as int) == Some(TokenKind::LParen) {
                    old(self).pos + 1
                } else {
                    old(self).pos as int
                };
                let (list, p1) = if old(self).kind_at(p0) == Some(TokenKind::RParen) {
                    (Seq::<(Seq<char>, Span)>::empty(), p0)
                } else {
                    old(self).ident_list_from(p0)
                };
                &&& Self::ident_pairs(params@) == list
                &&& final(self).pos == if old(self).kind_at(p1) == Some(TokenKind::RParen) {
                    p1 + 1
                } else {
                    p1
                }
            }),
    {
        let mut params: Vec<Identifier> = Vec::new();
        self.expect(TokenKind::LParen);
        let ghost p0 = self.pos as int;
        let ghost list = old(self).ident_list_from(p0);
        if !self.check(TokenKind::RParen) {
            let id = self.expect_ident();
            params.push(id);
            proof {
                assert(Self::ident_pairs(params@) =~= seq![(id.name@, id.span)]);
            }
            while self.eat(TokenKind::Comma)
                invariant
                    self.evolves(*old(self)),
                    self.tokens@ == old(self).tokens@,
                    old(self).wf() && self.wf(),
                    list == old(self).ident_list_from(p0),
                    Self::ident_pairs(params@) + old(self).ident_tail_from(self.pos as int).0 == list.0,
                    old(self).ident_tail_from(self.pos as int).1 == list.1,
                decreases self.tokens@.len() - self.pos,
            {
                let ghost before = Self::ident_pairs(params@);
                let ghost at = self.pos as int;
                let id = self.expect_ident();
                params.push(id);
                proof {
                    assert(Self::ident_pairs(params@) =~= before + seq![(id.name@, id.span)]);
                    assert(old(self).ident_step(at).2 == self.pos);
                }
            }
        }
        self.expect(TokenKind::RParen);
        params
    }
}

// ── Function ────────────────────────────────────────────────────────

impl Parser {
    fn parse_function_def(&mut self) -> (f: FunctionDef)
        requires
            old(self).wf(),
            old(self).spec_peek() == Some(TokenKind::Function),
        ensures
            final(self).evolves(*old(self)),
            final(self).pos > old(self).pos,
    {
        let start = self.current_span();
        self.advance();  // eat `function`
        let name = self.expect_decl_name();
        let params = self.parse_param_list();
        let body = self.parse_block();
        FunctionDef { span: start.merge(self.prev_span()), name, params, body }
    }
}

// ── Bus definition ──────────────────────────────────────────────────

impl Parser {
    fn parse_bus_def(&mut self) -> (b: BusDef)
        requires
            old(self).wf(),
            old(self).spec_peek() == Some(TokenKind::Bus),
        ensures
            final(self).evolves(*old(self)),
            final(self).pos > old(self).pos,
    {
        let start = self.current_span();
        self.require_version(
            Version { major: 2, minor: 2, patch: 0 },
            "bus definitions require pragma circom >= 2.2.0",
            start,
        );
        self.advance();  // eat `bus`
        let name = self.expect_decl_name();
        let params = self.parse_param_list();
        self.expect(TokenKind::LBrace);
        let mut body: Vec<BusMember> = Vec::new();
        while !self.check(TokenKind::RBrace) && !self.at_end()
            invariant
                self.evolves(*old(self)),
                self.pos > old(self).pos,
            decreases self.tokens@.len() - self.pos,
        {
            if let Some(member) = self.parse_bus_member() {
                body.push(member);
            } else {
                self.error(String::from_str("expected signal or bus member in bus definition"));
                let before = self.pos;
                self.synchronize();
                if self.pos == before {
                    // Recovery stopped on a token that starts no bus
                    // member: skip it so the loop always moves on.
                    self.advance();
                }
            }
        }
        self.expect(TokenKind::RBrace);
        // optional semicolon after bus def
        self.eat(TokenKind::Semi);
        BusDef { span: start.merge(self.prev_span()), name, params, body }
    }

    fn parse_bus_member(&mut self) -> (m: Option<BusMember>)
        requires
            old(self).wf(),
        ensures
            final(self).evolves(*old(self)),
            m is Some ==> final(self).pos > old(self).pos,
            match old(self).spec_peek() {
                Some(TokenKind::Signal) => m matches Some(BusMember::Signal(_)),
                Some(TokenKind::Ident) => m matches Some(BusMember::Bus(_)),
                _ => m is None && *final(self) == *old(self),
            },
    {
        match self.peek_kind() {
            Some(TokenKind::Signal) => {
                let decl = self.parse_signal_decl();
                Some(BusMember::Signal(decl))
            },
            Some(TokenKind::Ident) => {
                // Bus field: `BusName(args) name[dims];`
                let field = self.parse_bus_field_decl();
                Some(BusMember::Bus(field))
            },
            _ => None,
        }
    }

    fn parse_bus_field_decl(&mut self) -> (f: BusFieldDecl)
        requires
            old(self).wf(),
            old(self).spec_peek() == Some(TokenKind::Ident),
        ensures
            final(self).evolves(*old(self)),
            final(self).pos > old(self).pos,
    {
        let start = self.current_span();
        let bus_type = self.parse_bus_type();
        let tags = self.parse_optional_tags();
        let name = self.expect_decl_name();
        let dimensions = self.parse_dimensions();
        self.expect_semi();
        BusFieldDecl { span: start.merge(self.prev_span()), bus_type, tags, name, dimensions }
    }

    fn parse_bus_type(&mut self) -> (t: BusType)
        requires
            old(self).wf(),
        ensures
            final(self).evolves(*old(self)),
            old(self).spec_peek() == Some(TokenKind::Ident) ==> final(self).pos > old(self).pos,
    {
        let start = self.current_span();
        let name = self.expect_ident();
        self.expect(TokenKind::LParen);
        let mut args: Vec<Expression> = Vec::new();
        if !self.check(TokenKind::RParen) {
            args.push(self.parse_expression());
            while self.eat(TokenKind::Comma)
                invariant
                    self.evolves(*old(self)),
                    old(self).spec_peek() == Some(TokenKind::Ident) ==> self.pos > old(self).pos,
                decreases self.tokens@.len() - self.pos,
            {
                args.push(self.parse_expression());
            }
        }
        self.expect(TokenKind::RParen);
        BusType { span: start.merge(self.prev_span()), name, args }
    }
}

// ── Main component ──────────────────────────────────────────────────

impl Parser {
    fn parse_main_component(&mut self) -> (m: MainComponent)
        requires
            old(self).wf(),
            old(self).spec_peek() == Some(TokenKind::Component),
        ensures
            final(self).evolves(*old(self)),
            final(self).pos > old(self).pos,
    {
        let start = self.current_span();
        self.advance();  // eat `component`
        self.expect(TokenKind::Main);

        let public_signals = if self.eat(TokenKind::LBrace) {
            // `{public [sig1, sig2]}`
            self.expect(TokenKind::Public);
            self.expect(TokenKind::LBracket);
            let mut sigs: Vec<Identifier> = Vec::new();
            if !self.check(TokenKind::RBracket) {
                sigs.push(self.expect_ident());
                while self.eat(TokenKind::Comma)
                    invariant
                        self.evolves(*old(self)),
                        self.pos > old(self).pos,
                    decreases self.tokens@.len() - self.pos,
                {
                    sigs.push(self.expect_ident());
                }
            }
            self.expect(TokenKind::RBracket);
            self.expect(TokenKind::RBrace);
            sigs
        } else {
            Vec::new()
        };

        self.expect(TokenKind::Eq);
        let expr = self.parse_expression();
        self.expect_semi();

        MainComponent { span: start.merge(self.prev_span()), public_signals, expr }
    }
}

// ── Block ───────────────────────────────────────────────────────────

impl Parser {
    /// A `{ ... }` block; reports an error when the brace is missing.
    fn parse_block(&mut self) -> (b: Block)
        requires
            old(self).wf(),
        ensures
            final(self).evolves(*old(self)),
    {
        let start = self.current_span();
        self.expect(TokenKind::LBrace);
        self.parse_block_body(start)
    }

    /// A block whose `{` is the current token.
    fn parse_braced_block(&mut self) -> (b: Block)
        requires
            old(self).wf(),
            old(self).spec_peek() == Some(TokenKind::LBrace),
        ensures
            final(self).evolves(*old(self)),
            final(self).pos > old(self).pos,
        decreases old(self).tokens@.len() - old(self).pos, 1nat,
    {
        let start = self.current_span();
        self.advance();
        self.parse_block_body(start)
    }

    /// The statements of a block up to and including its `}`.
    fn parse_block_body(&mut self, start: Span) -> (b: Block)
        requires
            old(self).wf(),
        ensures
            final(self).evolves(*old(self)),
        decreases old(self).tokens@.len() - old(self).pos, 4nat,
    {
        let mut stmts: Vec<Statement> = Vec::new();
        while !self.check(TokenKind::RBrace) && !self.at_end()
            invariant
                self.evolves(*old(self)),
            decreases self.tokens@.len() - self.pos,
        {
            match self.parse_statement() {
                Some(stmt) => stmts.push(stmt),
                None => {
                    if !self.check(TokenKind::RBrace) && !self.at_end() {
                        self.error(String::from_str("unexpected token in block"));
                        self.advance();
                    }
                },
            }
        }
        self.expect(TokenKind::RBrace);
        Block { span: start.merge(self.prev_span()), stmts }
    }

    fn parse_block_or_single_stmt(&mut self) -> (b: Block)
        requires
            old(self).wf(),
        ensures
            final(self).evolves(*old(self)),
            old(self).kind_at(old(self).pos as int) != Some(TokenKind::LBrace) ==> b.stmts@.len() == (if old(self).pos
                < old(self).tokens@.len() {
                1int
            } else {
                0int
            }),
        decreases old(self).tokens@.len() - old(self).pos, 3nat,
    {
        if self.check(TokenKind::LBrace) {
            self.parse_braced_block()
        } else {
            let start = self.current_span();
            match self.parse_statement() {
                Some(stmt) => {
                    let span = start.merge(self.prev_span());
                    let mut stmts: Vec<Statement> = Vec::new();
                    stmts.push(stmt);
                    Block { span, stmts }
                },
                None => {
                    self.error(String::from_str("expected statement"));
                    Block { span: start, stmts: Vec::new() }
                },
            }
        }
    }
}

// ── Statements ──────────────────────────────────────────────────────

impl Parser {
    fn parse_statement(&mut self) -> (s: Option<Statement>)
        requires
            old(self).wf(),
        ensures
            final(self).evolves(*old(self)),
            s is Some <==> old(self).pos < old(self).tokens@.len(),
            s is Some ==> final(self).pos > old(self).pos,
        decreases old(self).tokens@.len() - old(self).pos, 2nat,
    {
        let start = self.current_span();
        let kind = match self.peek_kind() {
            None => {
                return None;
            },
            Some(TokenKind::Var) => self.parse_var_decl_stmt(),
            Some(TokenKind::Signal) => self.parse_signal_decl_stmt(),
            Some(TokenKind::Component) => self.parse_component_decl_stmt(start),
            Some(TokenKind::If) => self.parse_if_stmt(),
            Some(TokenKind::For) => self.parse_for_stmt(),
            Some(TokenKind::While) => self.parse_while_stmt(),
            Some(TokenKind::Return) => self.parse_return_stmt(),
            Some(TokenKind::Log) => self.parse_log_stmt(),
            Some(TokenKind::Assert) => self.parse_assert_stmt(),
            Some(TokenKind::LBrace) => {
                let block = self.parse_braced_block();
                StatementKind::Block(block)
            },
            Some(TokenKind::LParen) => {
                // Could be tuple assignment: `(a, b) <== ...`
                self.parse_tuple_or_expr_stmt()
            },
            _ => self.parse_expr_stmt(),
        };
        Some(Statement { span: start.merge(self.prev_span()), kind })
    }

    fn parse_var_decl_stmt(&mut self) -> (k: StatementKind)
        requires
            old(self).wf(),
            old(self).spec_peek() == Some(TokenKind::Var),
        ensures
            final(self).evolves(*old(self)),
            final(self).pos > old(self).pos,
    {
        let start = self.current_span();
        self.advance();  // eat `var`
        let mut names: Vec<VarDeclEntry> = Vec::new();
        names.push(self.parse_var_decl_entry());
        while self.eat(TokenKind::Comma)
            invariant
                self.evolves(*old(self)),
                self.pos > old(self).pos,
            decreases self.tokens@.len() - self.pos,
        {
            names.push(self.parse_var_decl_entry());
        }

        self.expect_semi();
        StatementKind::VarDecl(VarDecl { span: start.merge(self.prev_span()), names })
    }

    fn parse_var_decl_entry(&mut self) -> (e: VarDeclEntry)
        requires
            old(self).wf(),
        ensures
            final(self).evolves(*old(self)),
    {
        let name = self.expect_decl_name();
        let dimensions = self.parse_dimensions();
        let init = if self.eat(TokenKind::Eq) {
            Some(self.parse_expression())
        } else {
            None
        };
        VarDeclEntry { name, dimensions, init }
    }

    /// An optional `<==` / `<--` initializer.
    fn parse_signal_init(&mut self) -> (init: Option<(SignalAssignOp, Expression)>)
        requires
            old(self).wf(),
        ensures
            final(self).evolves(*old(self)),
            match old(self).spec_peek() {
                Some(TokenKind::LeftSignalAssign) => init matches Some((op, _)) && op == SignalAssignOp::SafeLeft,
                Some(TokenKind::LeftUnsafeAssign) => init matches Some((op, _)) && op == SignalAssignOp::UnsafeLeft,
                _ => init is None && *final(self) == *old(self),
            },
    {
        if self.check(TokenKind::LeftSignalAssign) {
            self.advance();
            Some((SignalAssignOp::SafeLeft, self.parse_expression()))
        } else if self.check(TokenKind::LeftUnsafeAssign) {
            self.advance();
            Some((SignalAssignOp::UnsafeLeft, self.parse_expression()))
        } else {
            None
        }
    }

    fn parse_bus_instance_decl(&mut self, start: Span, signal_kind: SignalKind) -> (k: StatementKind)
        requires
            old(self).wf(),
            old(self).spec_peek() == Some(TokenKind::Ident),
        ensures
            final(self).evolves(*old(self)),
            final(self).pos > old(self).pos,
    {
        let here = self.current_span();
        self.require_version(
            Version { major: 2, minor: 2, patch: 0 },
            "bus instance declarations require pragma circom >= 2.2.0",
            here,
        );
        let bus_type = self.parse_bus_type();
        let tags = self.parse_optional_tags();
        let name = self.expect_decl_name();
        let dimensions = self.parse_dimensions();
        let init = self.parse_signal_init();
        self.expect_semi();

        StatementKind::BusDecl(
            BusInstanceDecl { span: start.merge(self.prev_span()), bus_type, signal_kind, tags, name, dimensions, init },
        )
    }

    /// The optional `input` / `output` after `signal`.
    fn parse_signal_kind(&mut self) -> (k: SignalKind)
        requires
            old(self).wf(),
        ensures
            final(self).evolves(*old(self)),
    {
        match self.peek_kind() {
            Some(TokenKind::Input) => {
                self.advance();
                SignalKind::Input
            },
            Some(TokenKind::Output) => {
                self.advance();
                SignalKind::Output
            },
            _ => SignalKind::Intermediate,
        }
    }

    fn parse_signal_decl_stmt(&mut self) -> (k: StatementKind)
        requires
            old(self).wf(),
            old(self).spec_peek() == Some(TokenKind::Signal),
        ensures
            final(self).evolves(*old(self)),
            final(self).pos > old(self).pos,
    {
        let start = self.current_span();
        self.advance();  // eat `signal`
        let kind = self.parse_signal_kind();

        // Check for bus type: `signal input BusName() { tags } name`
        if self.is_bus_type_ahead() {
            return self.parse_bus_instance_decl(start, kind);
        }
        let decl = self.parse_signal_decl_rest(start, kind);
        StatementKind::SignalDecl(decl)
    }

    /// Tags, entries and `;` of a signal declaration.
    fn parse_signal_decl_rest(&mut self, start: Span, kind: SignalKind) -> (d: SignalDecl)
        requires
            old(self).wf(),
        ensures
            final(self).evolves(*old(self)),
            d.kind == kind,
            d.names@.len() >= 1,
    {
        let tags = self.parse_optional_tags();
        let mut names: Vec<SignalDeclEntry> = Vec::new();
        names.push(self.parse_signal_decl_entry());
        while self.eat(TokenKind::Comma)
            invariant
                self.evolves(*old(self)),
                names@.len() >= 1,
            decreases self.tokens@.len() - self.pos,
        {
            names.push(self.parse_signal_decl_entry());
        }
        self.expect_semi();
        SignalDecl { span: start.merge(self.prev_span()), kind, tags, names }
    }

    fn parse_signal_decl(&mut self) -> (d: SignalDecl)
        requires
            old(self).wf(),
            old(self).spec_peek() == Some(TokenKind::Signal),
        ensures
            final(self).evolves(*old(self)),
            final(self).pos > old(self).pos,
    {
        let start = self.current_span();
        self.advance();  // eat `signal`
        let kind = self.parse_signal_kind();
        self.parse_signal_decl_rest(start, kind)
    }

    /// An identifier followed by `(` starts a bus type.
    fn is_bus_type_ahead(&self) -> (r: bool)
        requires
            self.wf(),
        ensures
            r ==> self.spec_peek() == Some(TokenKind::Ident),
    {
        self.check(TokenKind::Ident) && self.peek_next_kind() == Some(TokenKind::LParen)
    }

    fn parse_signal_decl_entry(&mut self) -> (e: SignalDeclEntry)
        requires
            old(self).wf(),
        ensures
            final(self).evolves(*old(self)),
    {
        let name = self.expect_decl_name();
        let dimensions = self.parse_dimensions();
        let init = self.parse_signal_init();
        SignalDeclEntry { name, dimensions, init }
    }

    fn parse_component_decl_stmt(&mut self, start: Span) -> (k: StatementKind)
        requires
            old(self).wf(),
            old(self).spec_peek() == Some(TokenKind::Component),
        ensures
            final(self).evolves(*old(self)),
            final(self).pos > old(self).pos,
    {
        self.advance();  // eat `component`

        // Check for `component main`
        if self.check(TokenKind::Main) {
            // This shouldn't appear inside a block, but handle gracefully
            self.error(String::from_str("component main should be at top level"));
            self.synchronize();
            return StatementKind::Error;
        }

        let mut is_parallel = self.eat(TokenKind::Parallel);

        let mut names: Vec<ComponentDeclEntry> = Vec::new();
        names.push(self.parse_component_decl_entry(&mut is_parallel));
        while self.eat(TokenKind::Comma)
            invariant
                self.evolves(*old(self)),
                self.pos > old(self).pos,
            decreases self.tokens@.len() - self.pos,
        {
            names.push(self.parse_component_decl_entry(&mut is_parallel));
        }
        self.expect_semi();

        StatementKind::ComponentDecl(ComponentDecl { span: start.merge(self.prev_span()), is_parallel, names })
    }

    fn parse_component_decl_entry(&mut self, is_parallel: &mut bool) -> (e: ComponentDeclEntry)
        requires
            old(self).wf(),
        ensures
            final(self).evolves(*old(self)),
            *old(is_parallel) ==> *final(is_parallel),
    {
        let name = self.expect_decl_name();
        let dimensions = self.parse_dimensions();
        let init = if self.eat(TokenKind::Eq) {
            // `parallel` can appear after `=` for per-component parallelism
            if self.eat(TokenKind::Parallel) {
                *is_parallel = true;
            }
            Some(self.parse_expression())
        } else {
            None
        };
        ComponentDeclEntry { name, dimensions, init }
    }

    fn parse_if_stmt(&mut self) -> (k: StatementKind)
        requires
            old(self).wf(),
            old(self).spec_peek() == Some(TokenKind::If),
        ensures
            final(self).evolves(*old(self)),
            final(self).pos > old(self).pos,
        decreases old(self).tokens@.len() - old(self).pos, 1nat,
    {
        self.advance();  // eat `if`
        self.expect(TokenKind::LParen);
        let cond = self.parse_expression();
        self.expect(TokenKind::RParen);
        let then_body = self.parse_block_or_single_stmt();
        let else_body = if self.eat(TokenKind::Else) {
            Some(self.parse_block_or_single_stmt())
        } else {
            None
        };
        StatementKind::IfElse(IfElse { cond, then_body, else_body })
    }

    fn parse_for_stmt(&mut self) -> (k: StatementKind)
        requires
            old(self).wf(),
            old(self).spec_peek() == Some(TokenKind::For),
        ensures
            final(self).evolves(*old(self)),
            final(self).pos > old(self).pos,
        decreases old(self).tokens@.len() - old(self).pos, 1nat,
    {
        self.advance();  // eat `for`
        self.expect(TokenKind::LParen);
        let init = self.parse_for_init();
        let cond = self.parse_expression();
        self.expect_semi();
        let step = self.parse_for_step();
        self.expect(TokenKind::RParen);
        let body = self.parse_block_or_single_stmt();
        StatementKind::For(ForLoop { init: Box::new(init), cond, step: Box::new(step), body })
    }

    fn parse_for_init(&mut self) -> (s: Statement)
        requires
            old(self).wf(),
        ensures
            final(self).evolves(*old(self)),
    {
        let start = self.current_span();
        let kind = if self.check(TokenKind::Var) {
            self.parse_var_decl_stmt()
        } else {
            // Expression statement
            self.parse_expr_stmt()
        };
        Statement { span: start.merge(self.prev_span()), kind }
    }

    fn parse_for_step(&mut self) -> (s: Statement)
        requires
            old(self).wf(),
        ensures
            final(self).evolves(*old(self)),
    {
        let start = self.current_span();
        let expr = self.parse_expression();

        // Check for ++ or --
        if self.eat(TokenKind::PlusPlus) {
            return Statement { span: start.merge(self.prev_span()), kind: StatementKind::Increment(expr) };
        }
        if self.eat(TokenKind::MinusMinus) {
            return Statement { span: start.merge(self.prev_span()), kind: StatementKind::Decrement(expr) };
        }

        // Check for compound assignment
        if let Some(op) = self.peek_compound_op() {
            self.advance();
            let rhs = self.parse_expression();
            return Statement {
                span: start.merge(self.prev_span()),
                kind: StatementKind::CompoundAssign(CompoundAssignStmt { lhs: expr, op, rhs }),
            };
        }

        // Check for assignment
        if let Some(op) = self.peek_assign_op() {
            self.advance();
            let rhs = self.parse_expression();
            return Statement {
                span: start.merge(self.prev_span()),
                kind: StatementKind::Assignment(AssignStmt { lhs: expr, op, rhs }),
            };
        }

        Statement { span: start.merge(self.prev_span()), kind: StatementKind::Expression(expr) }
    }

    fn parse_while_stmt(&mut self) -> (k: StatementKind)
        requires
            old(self).wf(),
            old(self).spec_peek() == Some(TokenKind::While),
        ensures
            final(self).evolves(*old(self)),
            final(self).pos > old(self).pos,
        decreases old(self).tokens@.len() - old(self).pos, 1nat,
    {
        self.advance();  // eat `while`
        self.expect(TokenKind::LParen);
        let cond = self.parse_expression();
        self.expect(TokenKind::RParen);
        let body = self.parse_block_or_single_stmt();
        StatementKind::While(WhileLoop { cond, body })
    }

    fn parse_return_stmt(&mut self) -> (k: StatementKind)
        requires
            old(self).wf(),
            old(self).spec_peek() == Some(TokenKind::Return),
        ensures
            final(self).evolves(*old(self)),
            final(self).pos > old(self).pos,
    {
        self.advance();  // eat `return`
        let value = self.parse_expression();
        self.expect_semi();
        StatementKind::Return(ReturnStmt { value })
    }

    fn parse_log_stmt(&mut self) -> (k: StatementKind)
        requires
            old(self).wf(),
            old(self).spec_peek() == Some(TokenKind::Log),
        ensures
            final(self).evolves(*old(self)),
            final(self).pos > old(self).pos,
    {
        self.advance();  // eat `log`
        self.expect(TokenKind::LParen);
        let mut args: Vec<LogArg> = Vec::new();
        if !self.check(TokenKind::RParen) {
            args.push(self.parse_log_arg());
            while self.eat(TokenKind::Comma)
                invariant
                    self.evolves(*old(self)),
                    self.pos > old(self).pos,
                decreases self.tokens@.len() - self.pos,
            {
                args.push(self.parse_log_arg());
            }
        }
        self.expect(TokenKind::RParen);
        self.expect_semi();
        StatementKind::Log(LogStmt { args })
    }

    fn parse_log_arg(&mut self) -> (a: LogArg)
        requires
            old(self).wf(),
        ensures
            final(self).evolves(*old(self)),
    {
        if self.check(TokenKind::StringLit) {
            let s = self.current_text();
            self.advance();
            return LogArg::String(s);
        }
        LogArg::Expr(self.parse_expression())
    }

    fn parse_assert_stmt(&mut self) -> (k: StatementKind)
        requires
            old(self).wf(),
            old(self).spec_peek() == Some(TokenKind::Assert),
        ensures
            final(self).evolves(*old(self)),
            final(self).pos > old(self).pos,
    {
        self.advance();  // eat `assert`
        self.expect(TokenKind::LParen);
        let expr = self.parse_expression();
        self.expect(TokenKind::RParen);
        self.expect_semi();
        StatementKind::Assert(AssertStmt { expr })
    }

    /// Whether the parenthesised group opening at the current `(` holds a
    /// comma at its own nesting level.
    fn paren_group_has_comma(&self) -> (r: bool)
        requires
            self.wf(),
        ensures
            r == (self.pos < self.tokens@.len() && comma_in_group(
                self.tokens@.map_values(|t: SpannedToken| kind_of(t.token)),
                self.pos + 1,
                1,
            )),
    {
        let ghost ks = self.tokens@.map_values(|t: SpannedToken| kind_of(t.token));
        let len = self.tokens.len();
        if self.pos >= len {
            return false;
        }
        let mut depth: usize = 1;
        let mut has_comma = false;
        let mut check_pos = self.pos + 1;
        while check_pos < len && depth > 0
            invariant_except_break
                depth > 0,
                comma_in_group(ks, self.pos + 1, 1) == (has_comma || comma_in_group(ks, check_pos as int, depth as int)),
            invariant
                self.pos + 1 <= check_pos,
                len == self.tokens@.len(),
                ks == self.tokens@.map_values(|t: SpannedToken| kind_of(t.token)),
                self.pos < len,
                depth <= check_pos - self.pos,
            ensures
                comma_in_group(ks, self.pos + 1, 1) == has_comma,
            decreases len - check_pos,
        {
            assert(ks[check_pos as int] == kind_of(self.tokens@[check_pos as int].token));
            match self.tokens[check_pos].token.kind() {
                TokenKind::LParen => depth += 1,
                TokenKind::RParen => {
                    depth -= 1;
                    if depth == 0 {
                        break;
                    }
                },
                TokenKind::Comma => {
                    if depth == 1 {
                        has_comma = true;
                    }
                },
                _ => {},
            }
            check_pos += 1;
        }
        has_comma
    }

    fn parse_tuple_or_expr_stmt(&mut self) -> (k: StatementKind)
        requires
            old(self).wf(),
            old(self).spec_peek() == Some(TokenKind::LParen),
        ensures
            final(self).evolves(*old(self)),
            final(self).pos > old(self).pos,
    {
        if self.paren_group_has_comma() {
            self.parse_tuple_assign_stmt()
        } else {
            self.parse_expr_stmt()
        }
    }

    /// One target of a tuple assignment: an expression or `_`.
    fn parse_tuple_target(&mut self) -> (t: Option<Expression>)
        requires
            old(self).wf(),
        ensures
            final(self).evolves(*old(self)),
    {
        if self.check(TokenKind::Underscore) {
            self.advance();
            None
        } else {
            Some(self.parse_expression())
        }
    }

    fn parse_tuple_assign_stmt(&mut self) -> (k: StatementKind)
        requires
            old(self).wf(),
            old(self).spec_peek() == Some(TokenKind::LParen),
        ensures
            final(self).evolves(*old(self)),
            final(self).pos > old(self).pos,
    {
        self.expect(TokenKind::LParen);
        let mut targets: Vec<Option<Expression>> = Vec::new();
        targets.push(self.parse_tuple_target());
        while self.eat(TokenKind::Comma)
            invariant
                self.evolves(*old(self)),
                self.pos > old(self).pos,
            decreases self.tokens@.len() - self.pos,
        {
            targets.push(self.parse_tuple_target());
        }
        self.expect(TokenKind::RParen);

        let op = match self.peek_assign_op() {
            Some(op) => op,
            None => AssignOp::SafeLeft,
        };
        if !self.eat_assign_op() {
            self.error(String::from_str("expected assignment operator after tuple"));
        }

        let rhs = self.parse_expression();
        self.expect_semi();

        StatementKind::TupleAssign(TupleAssignStmt { targets, op, rhs })
    }

    fn parse_expr_stmt(&mut self) -> (k: StatementKind)
        requires
            old(self).wf(),
        ensures
            final(self).evolves(*old(self)),
            final(self).progressed(*old(self)),
    {
        let expr = self.parse_expression();

        // Check for ++ or --
        if self.eat(TokenKind::PlusPlus) {
            self.expect_semi();
            return StatementKind::Increment(expr);
        }
        if self.eat(TokenKind::MinusMinus) {
            self.expect_semi();
            return StatementKind::Decrement(expr);
        }

        // Check for constraint eq: ===
        if self.eat(TokenKind::ConstraintEq) {
            let rhs = self.parse_expression();
            self.expect_semi();
            return StatementKind::ConstraintEq(ConstraintEqStmt { lhs: expr, rhs });
        }

        // Check for compound assignment
        if let Some(op) = self.peek_compound_op() {
            self.advance();
            let rhs = self.parse_expression();
            self.expect_semi();
            return StatementKind::CompoundAssign(CompoundAssignStmt { lhs: expr, op, rhs });
        }

        // Check for assignment
        if let Some(op) = self.peek_assign_op() {
            self.advance();
            let rhs = self.parse_expression();
            self.expect_semi();
            return StatementKind::Assignment(AssignStmt { lhs: expr, op, rhs });
        }

        self.expect_semi();
        StatementKind::Expression(expr)
    }

    fn peek_assign_op(&self) -> (r: Option<AssignOp>)
        ensures
            r == (match self.spec_peek() {
                Some(k) => spec_assign_op(k),
                None => None,
            }),
    {
        match self.peek_kind() {
            Some(TokenKind::Eq) => Some(AssignOp::Eq),
            Some(TokenKind::LeftSignalAssign) => Some(AssignOp::SafeLeft),
            Some(TokenKind::RightSignalAssign) => Some(AssignOp::SafeRight),
            Some(TokenKind::LeftUnsafeAssign) => Some(AssignOp::UnsafeLeft),
            Some(TokenKind::RightUnsafeAssign) => Some(AssignOp::UnsafeRight),
            _ => None,
        }
    }

    fn eat_assign_op(&mut self) -> (r: bool)
        requires
            old(self).wf(),
        ensures
            final(self).evolves(*old(self)),
            final(self).errors == old(self).errors,
            r == (match old(self).spec_peek() {
                Some(k) => spec_assign_op(k) is Some,
                None => false,
            }),
    {
        if self.peek_assign_op().is_some() {
            self.advance();
            true
        } else {
            false
        }
    }

    fn peek_compound_op(&self) -> (r: Option<CompoundOp>)
        ensures
            r == (match self.spec_peek() {
                Some(k) => spec_compound_op(k),
                None => None,
            }),
    {
        match self.peek_kind() {
            Some(TokenKind::PlusAssign) => Some(CompoundOp::AddAssign),
            Some(TokenKind::MinusAssign) => Some(CompoundOp::SubAssign),
            Some(TokenKind::StarAssign) => Some(CompoundOp::MulAssign),
            Some(TokenKind::PowerAssign) => Some(CompoundOp::PowAssign),
            Some(TokenKind::SlashAssign) => Some(CompoundOp::DivAssign),
            Some(TokenKind::IntDivAssign) => Some(CompoundOp::IntDivAssign),
            Some(TokenKind::ModAssign) => Some(CompoundOp::ModAssign),
            Some(TokenKind::ShlAssign) => Some(CompoundOp::ShlAssign),
            Some(TokenKind::ShrAssign) => Some(CompoundOp::ShrAssign),
            Some(TokenKind::BitAndAssign) => Some(CompoundOp::BitAndAssign),
            Some(TokenKind::BitOrAssign) => Some(CompoundOp::BitOrAssign),
            Some(TokenKind::BitXorAssign) => Some(CompoundOp::BitXorAssign),
            _ => None,
        }
    }
}

// ── Utility parsers ─────────────────────────────────────────────────

impl Parser {
    fn parse_optional_tags(&mut self) -> (tags: Vec<Identifier>)
        requires
            old(self).wf(),
        ensures
            final(self).evolves(*old(self)),
            old(self).kind_at(old(self).pos as int) != Some(TokenKind::LBrace) ==> tags@.len() == 0 && final(self).pos
                == old(self).pos && final(self).errors@ == old(self).errors@,
            old(self).kind_at(old(self).pos as int) == Some(TokenKind::LBrace) ==> ({
                let p0 = old(self).pos + 1;
                let (list, p1) = if old(self).kind_at(p0) == Some(TokenKind::RBrace) {
                    (Seq::<(Seq<char>, Span)>::empty(), p0)
                } else {
                    old(self).ident_list_from(p0)
                };
                &&& Self::ident_pairs(tags@) == list
                &&& final(self).pos == if old(self).kind_at(p1) == Some(TokenKind::RBrace) {
                    p1 + 1
                } else {
                    p1
                }
            }),
    {
        let mut tags: Vec<Identifier> = Vec::new();
        if self.eat(TokenKind::LBrace) {
            let span = self.prev_span();
            let ghost p0 = self.pos as int;
            let ghost list = old(self).ident_list_from(p0);
            if !self.check(TokenKind::RBrace) {
                let id = self.expect_ident();
                tags.push(id);
                proof {
                    assert(Self::ident_pairs(tags@) =~= seq![(id.name@, id.span)]);
                }
                while self.eat(TokenKind::Comma)
                    invariant
                        self.evolves(*old(self)),
                        self.tokens@ == old(self).tokens@,
                        old(self).wf() && self.wf(),
                        list == old(self).ident_list_from(p0),
                        Self::ident_pairs(tags@) + old(self).ident_tail_from(self.pos as int).0 == list.0,
                        old(self).ident_tail_from(self.pos as int).1 == list.1,
                    decreases self.tokens@.len() - self.pos,
                {
                    let ghost before = Self::ident_pairs(tags@);
                    let ghost at = self.pos as int;
                    let id = self.expect_ident();
                    tags.push(id);
                    proof {
                        assert(Self::ident_pairs(tags@) =~= before + seq![(id.name@, id.span)]);
                        assert(old(self).ident_step(at).2 == self.pos);
                    }
                }
            } else {
                assert(Self::ident_pairs(tags@) =~= Seq::<(Seq<char>, Span)>::empty());
            }
            self.expect(TokenKind::RBrace);
            self.require_version(
                Version { major: 2, minor: 1, patch: 0 },
                "signal tags require pragma circom >= 2.1.0",
                span,
            );
        }
        tags
    }

    fn parse_dimensions(&mut self) -> (dims: Vec<Expression>)
        requires
            old(self).wf(),
        ensures
            final(self).evolves(*old(self)),
            old(self).kind_at(old(self).pos as int) != Some(TokenKind::LBracket) ==> dims@.len() == 0 && *final(self)
                == *old(self),
            old(self).kind_at(old(self).pos as int) == Some(TokenKind::LBracket) ==> dims@.len() >= 1,
    {
        let mut dims: Vec<Expression> = Vec::new();
        while self.check(TokenKind::LBracket)
            invariant
                self.evolves(*old(self)),
                dims@.len() == 0 ==> *self == *old(self),
                dims@.len() > 0 ==> old(self).kind_at(old(self).pos as int) == Some(TokenKind::LBracket),
            decreases self.tokens@.len() - self.pos,
        {
            self.advance();
            dims.push(self.parse_expression());
            self.expect(TokenKind::RBracket);
        }
        dims
    }
}

// ── Number literals ─────────────────────────────────────────────────

/// The value of one decimal or hexadecimal digit.
pub open spec fn digit_value(c: u8) -> nat {
    if 48 <= c <= 57 {
        (c - 48) as nat
    } else if 97 <= c <= 102 {
        (c - 87) as nat
    } else {
        (c - 55) as nat
    }
}

/// The value of a run of digits in the given base.
pub open spec fn digits_value(d: Seq<u8>, base: nat) -> nat
    decreases d.len(),
{
    if d.len() == 0 {
        0
    } else {
        digits_value(d.drop_last(), base) * base + digit_value(d.last())
    }
}

/// Whether `c` is a digit of base 16 (`hex`) or base 10.
pub open spec fn is_radix_digit(c: u8, hex: bool) -> bool {
    if hex {
        crate::lexer::is_hex_byte(c)
    } else {
        crate::lexer::is_digit_byte(c)
    }
}

pub open spec fn radix_base(hex: bool) -> nat {
    if hex {
        16
    } else {
        10
    }
}

/// Drops one leading `+`.
pub open spec fn strip_plus(d: Seq<u8>) -> Seq<u8> {
    if d.len() > 0 && d[0] == 43 {
        d.subrange(1, d.len() as int)
    } else {
        d
    }
}

/// The value of a digit run in base 10 or 16 (after an optional `+`),
/// when it is well formed and fits in a `u32`.
pub open spec fn spec_radix_u32(d: Seq<u8>, hex: bool) -> Option<u32> {
    let r = strip_plus(d);
    if r.len() > 0 && (forall|i: int| 0 <= i < r.len() ==> is_radix_digit(#[trigger] r[i], hex))
        && digits_value(r, radix_base(hex)) <= u32::MAX {
        Some(digits_value(r, radix_base(hex)) as u32)
    } else {
        None
    }
}

/// Decimal, or hexadecimal after `0x` / `0X`.
pub open spec fn spec_number_literal_u32(b: Seq<u8>) -> Option<u32> {
    if b.len() >= 2 && b[0] == 48 && (b[1] == 120 || b[1] == 88) {
        spec_radix_u32(b.subrange(2, b.len() as int), true)
    } else {
        spec_radix_u32(b, false)
    }
}

spec fn saturate(x: nat, cap: nat) -> nat {
    if x < cap {
        x
    } else {
        cap
    }
}

/// Saturating at `cap` before or after one more digit gives the same value.
proof fn lemma_saturate_step(x: nat, base: nat, dv: nat, cap: nat)
    requires
        base >= 1,
    ensures
        saturate(x * base + dv, cap) == saturate(saturate(x, cap) * base + dv, cap),
{
    assert(x * base >= x) by (nonlinear_arith)
        requires
            base >= 1,
    ;
    assert(cap * base >= cap) by (nonlinear_arith)
        requires
            base >= 1,
    ;
}

/// The value of `b[from..]` in base 10 or 16, after an optional `+`.
pub(crate) fn parse_radix_u32(b: &[u8], from: usize, hex: bool) -> (r: Option<u32>)
    requires
        from <= b@.len(),
    ensures
        r == spec_radix_u32(b@.subrange(from as int, b@.len() as int), hex),
{
    let len = b.len();
    let ghost d = b@.subrange(from as int, len as int);
    let mut i = from;
    if i < len && b[i] == 43u8 {
        i += 1;
    }
    let ghost r = strip_plus(d);
    assert(r =~= b@.subrange(i as int, len as int));
    if i == len {
        return None;
    }
    let base: u64 = if hex { 16 } else { 10 };
    let cap: u64 = 0x1_0000_0000;
    let mut v: u64 = 0;
    let mut all_ok = true;
    let start = i;
    assert(b@.subrange(start as int, start as int) =~= Seq::<u8>::empty());
    while i < len
        invariant
            start <= i <= len,
            len == b@.len(),
            r =~= b@.subrange(start as int, len as int),
            base as nat == radix_base(hex),
            cap == 0x1_0000_0000u64,
            v <= cap,
            all_ok == (forall|j: int| start <= j < i ==> is_radix_digit(#[trigger] b@[j], hex)),
            all_ok ==> v == saturate(digits_value(b@.subrange(start as int, i as int), radix_base(hex)), cap as nat),
        decreases len - i,
    {
        let c = b[i];
        let ok = if hex {
            (48u8 <= c && c <= 57u8) || (97u8 <= c && c <= 102u8) || (65u8 <= c && c <= 70u8)
        } else {
            48u8 <= c && c <= 57u8
        };
        assert(ok == is_radix_digit(c, hex));
        if !ok {
            all_ok = false;
        } else {
            let digit: u64 = if 48u8 <= c && c <= 57u8 {
                (c - 48u8) as u64
            } else if 97u8 <= c && c <= 102u8 {
                (c - 87u8) as u64
            } else {
                (c - 55u8) as u64
            };
            let ghost p = b@.subrange(start as int, i as int);
            let ghost p1 = b@.subrange(start as int, i + 1);
            assert(p1.drop_last() =~= p);
            assert(p1.last() == c);
            assert(digit as nat == digit_value(c));
            assert(v * base <= 0x1_0000_0000u64 * 16) by (nonlinear_arith)
                requires
                    v <= 0x1_0000_0000u64,
                    base <= 16,
            ;
            let next = v * base + digit;
            proof {
                if all_ok {
                    lemma_saturate_step(digits_value(p, radix_base(hex)), radix_base(hex), digit_value(c), cap as nat);
                }
            }
            v = if next < cap { next } else { cap };
        }
        i += 1;
    }
    assert(b@.subrange(start as int, len as int) =~= r);
    proof {
        if !all_ok {
            let j = choose|j: int| start <= j < len && !is_radix_digit(#[trigger] b@[j], hex);
            assert(r[j - start] == b@[j]);
        } else {
            assert forall|k: int| 0 <= k < r.len() implies is_radix_digit(#[trigger] r[k], hex) by {
                assert(r[k] == b@[start + k]);
            }
        }
    }
    if all_ok && v < cap {
        Some(v as u32)
    } else {
        None
    }
}

/// Parse a Circom numeric literal string into a `u32`. Handles both
/// decimal (`123`) and hex (`0x6a09e667` / `0X...`) forms; returns
/// `None` if the value overflows u32 or the string is malformed.
pub fn parse_number_literal_u32(s: &str) -> (r: Option<u32>)
    ensures
        r == spec_number_literal_u32(s.spec_bytes()),
{
    let b = s.as_bytes();
    if b.len() >= 2 && b[0] == 48u8 && (b[1] == 120u8 || b[1] == 88u8) {
        parse_radix_u32(b, 2, true)
    } else {
        assert(b@.subrange(0, b@.len() as int) =~= b@);
        parse_radix_u32(b, 0, false)
    }
}

} // verus!
