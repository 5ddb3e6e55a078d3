//! The Circom tokenizer and the comment scanner.
//!
//! Tokens are recognised over the UTF-8 bytes of the source with
//! maximal munch; whitespace and comments are skipped, and every byte
//! that starts no token is reported as an error span.

use vstd::prelude::*;
use vstd::string::StringSliceAdditionalSpecFns;
use vstd::utf8::*;

use crate::text::{at_boundary, lemma_after_ascii, lemma_ascii_is_boundary, substring};

verus! {

broadcast use vstd::utf8::group_utf8_lib;

/// All tokens in the Circom v2.2.3 language.
#[derive(Debug, Clone, PartialEq)]
pub enum Token {
    Pragma,
    Circom,
    Include,
    Template,
    Custom,
    Function,
    Component,
    Bus,
    Signal,
    Input,
    Output,
    Public,
    Var,
    If,
    Else,
    For,
    While,
    Return,
    Log,
    Assert,
    Parallel,
    Main,
    Extern,
    NumberLit(String),
    /// String literal with outer quotes stripped. Escape sequences are
    /// kept verbatim.
    StringLit(String),
    Ident(String),
    LeftSignalAssign,
    RightSignalAssign,
    LeftUnsafeAssign,
    RightUnsafeAssign,
    ConstraintEq,
    PlusAssign,
    MinusAssign,
    StarAssign,
    PowerAssign,
    SlashAssign,
    IntDivAssign,
    ModAssign,
    ShlAssign,
    ShrAssign,
    BitAndAssign,
    BitOrAssign,
    BitXorAssign,
    PlusPlus,
    MinusMinus,
    Le,
    Ge,
    EqEq,
    Ne,
    And,
    Or,
    Bang,
    Power,
    Plus,
    Minus,
    Star,
    Slash,
    IntDiv,
    Mod,
    Shl,
    Shr,
    Amp,
    Pipe,
    Caret,
    Tilde,
    Lt,
    Gt,
    LParen,
    RParen,
    LBrace,
    RBrace,
    LBracket,
    RBracket,
    Semi,
    Comma,
    Dot,
    Eq,
    Question,
    Colon,
    Underscore,
}

/// The kind of a token, without its text.
#[derive(Debug, Clone, Copy, PartialEq, Eq, Structural)]
pub enum TokenKind {
    Pragma,
    Circom,
    Include,
    Template,
    Custom,
    Function,
    Component,
    Bus,
    Signal,
    Input,
    Output,
    Public,
    Var,
    If,
    Else,
    For,
    While,
    Return,
    Log,
    Assert,
    Parallel,
    Main,
    Extern,
    NumberLit,
    StringLit,
    Ident,
    LeftSignalAssign,
    RightSignalAssign,
    LeftUnsafeAssign,
    RightUnsafeAssign,
    ConstraintEq,
    PlusAssign,
    MinusAssign,
    StarAssign,
    PowerAssign,
    SlashAssign,
    IntDivAssign,
    ModAssign,
    ShlAssign,
    ShrAssign,
    BitAndAssign,
    BitOrAssign,
    BitXorAssign,
    PlusPlus,
    MinusMinus,
    Le,
    Ge,
    EqEq,
    Ne,
    And,
    Or,
    Bang,
    Power,
    Plus,
    Minus,
    Star,
    Slash,
    IntDiv,
    Mod,
    Shl,
    Shr,
    Amp,
    Pipe,
    Caret,
    Tilde,
    Lt,
    Gt,
    LParen,
    RParen,
    LBrace,
    RBrace,
    LBracket,
    RBracket,
    Semi,
    Comma,
    Dot,
    Eq,
    Question,
    Colon,
    Underscore,
}

pub open spec fn kind_of(t: Token) -> TokenKind {
    match t {
        Token::Pragma => TokenKind::Pragma,
        Token::Circom => TokenKind::Circom,
        Token::Include => TokenKind::Include,
        Token::Template => TokenKind::Template,
        Token::Custom => TokenKind::Custom,
        Token::Function => TokenKind::Function,
        Token::Component => TokenKind::Component,
        Token::Bus => TokenKind::Bus,
        Token::Signal => TokenKind::Signal,
        Token::Input => TokenKind::Input,
        Token::Output => TokenKind::Output,
        Token::Public => TokenKind::Public,
        Token::Var => TokenKind::Var,
        Token::If => TokenKind::If,
        Token::Else => TokenKind::Else,
        Token::For => TokenKind::For,
        Token::While => TokenKind::While,
        Token::Return => TokenKind::Return,
        Token::Log => TokenKind::Log,
        Token::Assert => TokenKind::Assert,
        Token::Parallel => TokenKind::Parallel,
        Token::Main => TokenKind::Main,
        Token::Extern => TokenKind::Extern,
        Token::NumberLit(_) => TokenKind::NumberLit,
        Token::StringLit(_) => TokenKind::StringLit,
        Token::Ident(_) => TokenKind::Ident,
        Token::LeftSignalAssign => TokenKind::LeftSignalAssign,
        Token::RightSignalAssign => TokenKind::RightSignalAssign,
        Token::LeftUnsafeAssign => TokenKind::LeftUnsafeAssign,
        Token::RightUnsafeAssign => TokenKind::RightUnsafeAssign,
        Token::ConstraintEq => TokenKind::ConstraintEq,
        Token::PlusAssign => TokenKind::PlusAssign,
        Token::MinusAssign => TokenKind::MinusAssign,
        Token::StarAssign => TokenKind::StarAssign,
        Token::PowerAssign => TokenKind::PowerAssign,
        Token::SlashAssign => TokenKind::SlashAssign,
        Token::IntDivAssign => TokenKind::IntDivAssign,
        Token::ModAssign => TokenKind::ModAssign,
        Token::ShlAssign => TokenKind::ShlAssign,
        Token::ShrAssign => TokenKind::ShrAssign,
        Token::BitAndAssign => TokenKind::BitAndAssign,
        Token::BitOrAssign => TokenKind::BitOrAssign,
        Token::BitXorAssign => TokenKind::BitXorAssign,
        Token::PlusPlus => TokenKind::PlusPlus,
        Token::MinusMinus => TokenKind::MinusMinus,
        Token::Le => TokenKind::Le,
        Token::Ge => TokenKind::Ge,
        Token::EqEq => TokenKind::EqEq,
        Token::Ne => TokenKind::Ne,
        Token::And => TokenKind::And,
        Token::Or => TokenKind::Or,
        Token::Bang => TokenKind::Bang,
        Token::Power => TokenKind::Power,
        Token::Plus => TokenKind::Plus,
        Token::Minus => TokenKind::Minus,
        Token::Star => TokenKind::Star,
        Token::Slash => TokenKind::Slash,
        Token::IntDiv => TokenKind::IntDiv,
        Token::Mod => TokenKind::Mod,
        Token::Shl => TokenKind::Shl,
        Token::Shr => TokenKind::Shr,
        Token::Amp => TokenKind::Amp,
        Token::Pipe => TokenKind::Pipe,
        Token::Caret => TokenKind::Caret,
        Token::Tilde => TokenKind::Tilde,
        Token::Lt => TokenKind::Lt,
        Token::Gt => TokenKind::Gt,
        Token::LParen => TokenKind::LParen,
        Token::RParen => TokenKind::RParen,
        Token::LBrace => TokenKind::LBrace,
        Token::RBrace => TokenKind::RBrace,
        Token::LBracket => TokenKind::LBracket,
        Token::RBracket => TokenKind::RBracket,
        Token::Semi => TokenKind::Semi,
        Token::Comma => TokenKind::Comma,
        Token::Dot => TokenKind::Dot,
        Token::Eq => TokenKind::Eq,
        Token::Question => TokenKind::Question,
        Token::Colon => TokenKind::Colon,
        Token::Underscore => TokenKind::Underscore,
    }
}

/// The exact source text of a token kind that has a fixed spelling.
pub open spec fn fixed_text(k: TokenKind) -> Seq<u8> {
    match k {
        TokenKind::Pragma => seq![112u8, 114u8, 97u8, 103u8, 109u8, 97u8],
        TokenKind::Circom => seq![99u8, 105u8, 114u8, 99u8, 111u8, 109u8],
        TokenKind::Include => seq![105u8, 110u8, 99u8, 108u8, 117u8, 100u8, 101u8],
        TokenKind::Template => seq![116u8, 101u8, 109u8, 112u8, 108u8, 97u8, 116u8, 101u8],
        TokenKind::Custom => seq![99u8, 117u8, 115u8, 116u8, 111u8, 109u8],
        TokenKind::Function => seq![102u8, 117u8, 110u8, 99u8, 116u8, 105u8, 111u8, 110u8],
        TokenKind::Component => seq![99u8, 111u8, 109u8, 112u8, 111u8, 110u8, 101u8, 110u8, 116u8],
        TokenKind::Bus => seq![98u8, 117u8, 115u8],
        TokenKind::Signal => seq![115u8, 105u8, 103u8, 110u8, 97u8, 108u8],
        TokenKind::Input => seq![105u8, 110u8, 112u8, 117u8, 116u8],
        TokenKind::Output => seq![111u8, 117u8, 116u8, 112u8, 117u8, 116u8],
        TokenKind::Public => seq![112u8, 117u8, 98u8, 108u8, 105u8, 99u8],
        TokenKind::Var => seq![118u8, 97u8, 114u8],
        TokenKind::If => seq![105u8, 102u8],
        TokenKind::Else => seq![101u8, 108u8, 115u8, 101u8],
        TokenKind::For => seq![102u8, 111u8, 114u8],
        TokenKind::While => seq![119u8, 104u8, 105u8, 108u8, 101u8],
        TokenKind::Return => seq![114u8, 101u8, 116u8, 117u8, 114u8, 110u8],
        TokenKind::Log => seq![108u8, 111u8, 103u8],
        TokenKind::Assert => seq![97u8, 115u8, 115u8, 101u8, 114u8, 116u8],
        TokenKind::Parallel => seq![112u8, 97u8, 114u8, 97u8, 108u8, 108u8, 101u8, 108u8],
        TokenKind::Main => seq![109u8, 97u8, 105u8, 110u8],
        TokenKind::Extern => seq![101u8, 120u8, 116u8, 101u8, 114u8, 110u8],
        TokenKind::LeftSignalAssign => seq![60u8, 61u8, 61u8],
        TokenKind::RightSignalAssign => seq![61u8, 61u8, 62u8],
        TokenKind::LeftUnsafeAssign => seq![60u8, 45u8, 45u8],
        TokenKind::RightUnsafeAssign => seq![45u8, 45u8, 62u8],
        TokenKind::ConstraintEq => seq![61u8, 61u8, 61u8],
        TokenKind::PlusAssign => seq![43u8, 61u8],
        TokenKind::MinusAssign => seq![45u8, 61u8],
        TokenKind::StarAssign => seq![42u8, 61u8],
        TokenKind::PowerAssign => seq![42u8, 42u8, 61u8],
        TokenKind::SlashAssign => seq![47u8, 61u8],
        TokenKind::IntDivAssign => seq![92u8, 61u8],
        TokenKind::ModAssign => seq![37u8, 61u8],
        TokenKind::ShlAssign => seq![60u8, 60u8, 61u8],
        TokenKind::ShrAssign => seq![62u8, 62u8, 61u8],
        TokenKind::BitAndAssign => seq![38u8, 61u8],
        TokenKind::BitOrAssign => seq![124u8, 61u8],
        TokenKind::BitXorAssign => seq![94u8, 61u8],
        TokenKind::PlusPlus => seq![43u8, 43u8],
        TokenKind::MinusMinus => seq![45u8, 45u8],
        TokenKind::Le => seq![60u8, 61u8],
        TokenKind::Ge => seq![62u8, 61u8],
        TokenKind::EqEq => seq![61u8, 61u8],
        TokenKind::Ne => seq![33u8, 61u8],
        TokenKind::And => seq![38u8, 38u8],
        TokenKind::Or => seq![124u8, 124u8],
        TokenKind::Bang => seq![33u8],
        TokenKind::Power => seq![42u8, 42u8],
        TokenKind::Plus => seq![43u8],
        TokenKind::Minus => seq![45u8],
        TokenKind::Star => seq![42u8],
        TokenKind::Slash => seq![47u8],
        TokenKind::IntDiv => seq![92u8],
        TokenKind::Mod => seq![37u8],
        TokenKind::Shl => seq![60u8, 60u8],
        TokenKind::Shr => seq![62u8, 62u8],
        TokenKind::Amp => seq![38u8],
        TokenKind::Pipe => seq![124u8],
        TokenKind::Caret => seq![94u8],
        TokenKind::Tilde => seq![126u8],
        TokenKind::Lt => seq![60u8],
        TokenKind::Gt => seq![62u8],
        TokenKind::LParen => seq![40u8],
        TokenKind::RParen => seq![41u8],
        TokenKind::LBrace => seq![123u8],
        TokenKind::RBrace => seq![125u8],
        TokenKind::LBracket => seq![91u8],
        TokenKind::RBracket => seq![93u8],
        TokenKind::Semi => seq![59u8],
        TokenKind::Comma => seq![44u8],
        TokenKind::Dot => seq![46u8],
        TokenKind::Eq => seq![61u8],
        TokenKind::Question => seq![63u8],
        TokenKind::Colon => seq![58u8],
        TokenKind::Underscore => seq![95u8],
        _ => Seq::empty(),
    }
}

/// Kinds spelled as reserved words.
pub open spec fn is_keyword_kind(k: TokenKind) -> bool {
    k == TokenKind::Pragma || k == TokenKind::Circom || k == TokenKind::Include || k == TokenKind::Template || k == TokenKind::Custom || k == TokenKind::Function || k == TokenKind::Component || k == TokenKind::Bus || k == TokenKind::Signal || k == TokenKind::Input || k == TokenKind::Output || k == TokenKind::Public || k == TokenKind::Var || k == TokenKind::If || k == TokenKind::Else || k == TokenKind::For || k == TokenKind::While || k == TokenKind::Return || k == TokenKind::Log || k == TokenKind::Assert || k == TokenKind::Parallel || k == TokenKind::Main || k == TokenKind::Extern
}

/// Kinds spelled with a fixed text (keywords, operators, punctuation).
pub open spec fn is_fixed_kind(k: TokenKind) -> bool {
    k != TokenKind::NumberLit && k != TokenKind::StringLit && k != TokenKind::Ident
}

/// Punctuation and operator kinds (fixed text that is not a word).
pub open spec fn is_operator_kind(k: TokenKind) -> bool {
    is_fixed_kind(k) && !is_keyword_kind(k) && k != TokenKind::Underscore
}

impl Token {
    /// The kind of this token.
    pub fn kind(&self) -> (k: TokenKind)
        ensures
            k == kind_of(*self),
    {
        match self {
            Token::Pragma => TokenKind::Pragma,
            Token::Circom => TokenKind::Circom,
            Token::Include => TokenKind::Include,
            Token::Template => TokenKind::Template,
            Token::Custom => TokenKind::Custom,
            Token::Function => TokenKind::Function,
            Token::Component => TokenKind::Component,
            Token::Bus => TokenKind::Bus,
            Token::Signal => TokenKind::Signal,
            Token::Input => TokenKind::Input,
            Token::Output => TokenKind::Output,
            Token::Public => TokenKind::Public,
            Token::Var => TokenKind::Var,
            Token::If => TokenKind::If,
            Token::Else => TokenKind::Else,
            Token::For => TokenKind::For,
            Token::While => TokenKind::While,
            Token::Return => TokenKind::Return,
            Token::Log => TokenKind::Log,
            Token::Assert => TokenKind::Assert,
            Token::Parallel => TokenKind::Parallel,
            Token::Main => TokenKind::Main,
            Token::Extern => TokenKind::Extern,
            Token::NumberLit(_) => TokenKind::NumberLit,
            Token::StringLit(_) => TokenKind::StringLit,
            Token::Ident(_) => TokenKind::Ident,
            Token::LeftSignalAssign => TokenKind::LeftSignalAssign,
            Token::RightSignalAssign => TokenKind::RightSignalAssign,
            Token::LeftUnsafeAssign => TokenKind::LeftUnsafeAssign,
            Token::RightUnsafeAssign => TokenKind::RightUnsafeAssign,
            Token::ConstraintEq => TokenKind::ConstraintEq,
            Token::PlusAssign => TokenKind::PlusAssign,
            Token::MinusAssign => TokenKind::MinusAssign,
            Token::StarAssign => TokenKind::StarAssign,
            Token::PowerAssign => TokenKind::PowerAssign,
            Token::SlashAssign => TokenKind::SlashAssign,
            Token::IntDivAssign => TokenKind::IntDivAssign,
            Token::ModAssign => TokenKind::ModAssign,
            Token::ShlAssign => TokenKind::ShlAssign,
            Token::ShrAssign => TokenKind::ShrAssign,
            Token::BitAndAssign => TokenKind::BitAndAssign,
            Token::BitOrAssign => TokenKind::BitOrAssign,
            Token::BitXorAssign => TokenKind::BitXorAssign,
            Token::PlusPlus => TokenKind::PlusPlus,
            Token::MinusMinus => TokenKind::MinusMinus,
            Token::Le => TokenKind::Le,
            Token::Ge => TokenKind::Ge,
            Token::EqEq => TokenKind::EqEq,
            Token::Ne => TokenKind::Ne,
            Token::And => TokenKind::And,
            Token::Or => TokenKind::Or,
            Token::Bang => TokenKind::Bang,
            Token::Power => TokenKind::Power,
            Token::Plus => TokenKind::Plus,
            Token::Minus => TokenKind::Minus,
            Token::Star => TokenKind::Star,
            Token::Slash => TokenKind::Slash,
            Token::IntDiv => TokenKind::IntDiv,
            Token::Mod => TokenKind::Mod,
            Token::Shl => TokenKind::Shl,
            Token::Shr => TokenKind::Shr,
            Token::Amp => TokenKind::Amp,
            Token::Pipe => TokenKind::Pipe,
            Token::Caret => TokenKind::Caret,
            Token::Tilde => TokenKind::Tilde,
            Token::Lt => TokenKind::Lt,
            Token::Gt => TokenKind::Gt,
            Token::LParen => TokenKind::LParen,
            Token::RParen => TokenKind::RParen,
            Token::LBrace => TokenKind::LBrace,
            Token::RBrace => TokenKind::RBrace,
            Token::LBracket => TokenKind::LBracket,
            Token::RBracket => TokenKind::RBracket,
            Token::Semi => TokenKind::Semi,
            Token::Comma => TokenKind::Comma,
            Token::Dot => TokenKind::Dot,
            Token::Eq => TokenKind::Eq,
            Token::Question => TokenKind::Question,
            Token::Colon => TokenKind::Colon,
            Token::Underscore => TokenKind::Underscore,
        }
    }
}

/// The token of a kind that carries no text.
pub fn fixed_token(k: TokenKind) -> (t: Token)
    requires
        is_fixed_kind(k),
    ensures
        kind_of(t) == k,
{
    match k {
        TokenKind::Pragma => Token::Pragma,
        TokenKind::Circom => Token::Circom,
        TokenKind::Include => Token::Include,
        TokenKind::Template => Token::Template,
        TokenKind::Custom => Token::Custom,
        TokenKind::Function => Token::Function,
        TokenKind::Component => Token::Component,
        TokenKind::Bus => Token::Bus,
        TokenKind::Signal => Token::Signal,
        TokenKind::Input => Token::Input,
        TokenKind::Output => Token::Output,
        TokenKind::Public => Token::Public,
        TokenKind::Var => Token::Var,
        TokenKind::If => Token::If,
        TokenKind::Else => Token::Else,
        TokenKind::For => Token::For,
        TokenKind::While => Token::While,
        TokenKind::Return => Token::Return,
        TokenKind::Log => Token::Log,
        TokenKind::Assert => Token::Assert,
        TokenKind::Parallel => Token::Parallel,
        TokenKind::Main => Token::Main,
        TokenKind::Extern => Token::Extern,
        TokenKind::LeftSignalAssign => Token::LeftSignalAssign,
        TokenKind::RightSignalAssign => Token::RightSignalAssign,
        TokenKind::LeftUnsafeAssign => Token::LeftUnsafeAssign,
        TokenKind::RightUnsafeAssign => Token::RightUnsafeAssign,
        TokenKind::ConstraintEq => Token::ConstraintEq,
        TokenKind::PlusAssign => Token::PlusAssign,
        TokenKind::MinusAssign => Token::MinusAssign,
        TokenKind::StarAssign => Token::StarAssign,
        TokenKind::PowerAssign => Token::PowerAssign,
        TokenKind::SlashAssign => Token::SlashAssign,
        TokenKind::IntDivAssign => Token::IntDivAssign,
        TokenKind::ModAssign => Token::ModAssign,
        TokenKind::ShlAssign => Token::ShlAssign,
        TokenKind::ShrAssign => Token::ShrAssign,
        TokenKind::BitAndAssign => Token::BitAndAssign,
        TokenKind::BitOrAssign => Token::BitOrAssign,
        TokenKind::BitXorAssign => Token::BitXorAssign,
        TokenKind::PlusPlus => Token::PlusPlus,
        TokenKind::MinusMinus => Token::MinusMinus,
        TokenKind::Le => Token::Le,
        TokenKind::Ge => Token::Ge,
        TokenKind::EqEq => Token::EqEq,
        TokenKind::Ne => Token::Ne,
        TokenKind::And => Token::And,
        TokenKind::Or => Token::Or,
        TokenKind::Bang => Token::Bang,
        TokenKind::Power => Token::Power,
        TokenKind::Plus => Token::Plus,
        TokenKind::Minus => Token::Minus,
        TokenKind::Star => Token::Star,
        TokenKind::Slash => Token::Slash,
        TokenKind::IntDiv => Token::IntDiv,
        TokenKind::Mod => Token::Mod,
        TokenKind::Shl => Token::Shl,
        TokenKind::Shr => Token::Shr,
        TokenKind::Amp => Token::Amp,
        TokenKind::Pipe => Token::Pipe,
        TokenKind::Caret => Token::Caret,
        TokenKind::Tilde => Token::Tilde,
        TokenKind::Lt => Token::Lt,
        TokenKind::Gt => Token::Gt,
        TokenKind::LParen => Token::LParen,
        TokenKind::RParen => Token::RParen,
        TokenKind::LBrace => Token::LBrace,
        TokenKind::RBrace => Token::RBrace,
        TokenKind::LBracket => Token::LBracket,
        TokenKind::RBracket => Token::RBracket,
        TokenKind::Semi => Token::Semi,
        TokenKind::Comma => Token::Comma,
        TokenKind::Dot => Token::Dot,
        TokenKind::Eq => Token::Eq,
        TokenKind::Question => Token::Question,
        TokenKind::Colon => Token::Colon,
        TokenKind::Underscore => Token::Underscore,
        _ => Token::Underscore,
    }
}

/// The keyword spelled by `b[s..e]`, if any.
pub fn keyword_kind(b: &[u8], s: usize, e: usize) -> (r: Option<TokenKind>)
    requires
        s <= e <= b@.len(),
    ensures
        r matches Some(k) ==> is_keyword_kind(k) && fixed_text(k) == b@.subrange(s as int, e as int),
        r is None ==> forall|k: TokenKind| is_keyword_kind(k) ==> fixed_text(k) != b@.subrange(s as int, e as int),
{
    let w: [u8; 6] = [112u8, 114u8, 97u8, 103u8, 109u8, 97u8];
    assert(w@ =~= fixed_text(TokenKind::Pragma));
    if text_is(b, s, e, w.as_slice()) {
        return Some(TokenKind::Pragma);
    }
    let w: [u8; 6] = [99u8, 105u8, 114u8, 99u8, 111u8, 109u8];
    assert(w@ =~= fixed_text(TokenKind::Circom));
    if text_is(b, s, e, w.as_slice()) {
        return Some(TokenKind::Circom);
    }
    let w: [u8; 7] = [105u8, 110u8, 99u8, 108u8, 117u8, 100u8, 101u8];
    assert(w@ =~= fixed_text(TokenKind::Include));
    if text_is(b, s, e, w.as_slice()) {
        return Some(TokenKind::Include);
    }
    let w: [u8; 8] = [116u8, 101u8, 109u8, 112u8, 108u8, 97u8, 116u8, 101u8];
    assert(w@ =~= fixed_text(TokenKind::Template));
    if text_is(b, s, e, w.as_slice()) {
        return Some(TokenKind::Template);
    }
    let w: [u8; 6] = [99u8, 117u8, 115u8, 116u8, 111u8, 109u8];
    assert(w@ =~= fixed_text(TokenKind::Custom));
    if text_is(b, s, e, w.as_slice()) {
        return Some(TokenKind::Custom);
    }
    let w: [u8; 8] = [102u8, 117u8, 110u8, 99u8, 116u8, 105u8, 111u8, 110u8];
    assert(w@ =~= fixed_text(TokenKind::Function));
    if text_is(b, s, e, w.as_slice()) {
        return Some(TokenKind::Function);
    }
    let w: [u8; 9] = [99u8, 111u8, 109u8, 112u8, 111u8, 110u8, 101u8, 110u8, 116u8];
    assert(w@ =~= fixed_text(TokenKind::Component));
    if text_is(b, s, e, w.as_slice()) {
        return Some(TokenKind::Component);
    }
    let w: [u8; 3] = [98u8, 117u8, 115u8];
    assert(w@ =~= fixed_text(TokenKind::Bus));
    if text_is(b, s, e, w.as_slice()) {
        return Some(TokenKind::Bus);
    }
    let w: [u8; 6] = [115u8, 105u8, 103u8, 110u8, 97u8, 108u8];
    assert(w@ =~= fixed_text(TokenKind::Signal));
    if text_is(b, s, e, w.as_slice()) {
        return Some(TokenKind::Signal);
    }
    let w: [u8; 5] = [105u8, 110u8, 112u8, 117u8, 116u8];
    assert(w@ =~= fixed_text(TokenKind::Input));
    if text_is(b, s, e, w.as_slice()) {
        return Some(TokenKind::Input);
    }
    let w: [u8; 6] = [111u8, 117u8, 116u8, 112u8, 117u8, 116u8];
    assert(w@ =~= fixed_text(TokenKind::Output));
    if text_is(b, s, e, w.as_slice()) {
        return Some(TokenKind::Output);
    }
    let w: [u8; 6] = [112u8, 117u8, 98u8, 108u8, 105u8, 99u8];
    assert(w@ =~= fixed_text(TokenKind::Public));
    if text_is(b, s, e, w.as_slice()) {
        return Some(TokenKind::Public);
    }
    let w: [u8; 3] = [118u8, 97u8, 114u8];
    assert(w@ =~= fixed_text(TokenKind::Var));
    if text_is(b, s, e, w.as_slice()) {
        return Some(TokenKind::Var);
    }
    let w: [u8; 2] = [105u8, 102u8];
    assert(w@ =~= fixed_text(TokenKind::If));
    if text_is(b, s, e, w.as_slice()) {
        return Some(TokenKind::If);
    }
    let w: [u8; 4] = [101u8, 108u8, 115u8, 101u8];
    assert(w@ =~= fixed_text(TokenKind::Else));
    if text_is(b, s, e, w.as_slice()) {
        return Some(TokenKind::Else);
    }
    let w: [u8; 3] = [102u8, 111u8, 114u8];
    assert(w@ =~= fixed_text(TokenKind::For));
    if text_is(b, s, e, w.as_slice()) {
        return Some(TokenKind::For);
    }
    let w: [u8; 5] = [119u8, 104u8, 105u8, 108u8, 101u8];
    assert(w@ =~= fixed_text(TokenKind::While));
    if text_is(b, s, e, w.as_slice()) {
        return Some(TokenKind::While);
    }
    let w: [u8; 6] = [114u8, 101u8, 116u8, 117u8, 114u8, 110u8];
    assert(w@ =~= fixed_text(TokenKind::Return));
    if text_is(b, s, e, w.as_slice()) {
        return Some(TokenKind::Return);
    }
    let w: [u8; 3] = [108u8, 111u8, 103u8];
    assert(w@ =~= fixed_text(TokenKind::Log));
    if text_is(b, s, e, w.as_slice()) {
        return Some(TokenKind::Log);
    }
    let w: [u8; 6] = [97u8, 115u8, 115u8, 101u8, 114u8, 116u8];
    assert(w@ =~= fixed_text(TokenKind::Assert));
    if text_is(b, s, e, w.as_slice()) {
        return Some(TokenKind::Assert);
    }
    let w: [u8; 8] = [112u8, 97u8, 114u8, 97u8, 108u8, 108u8, 101u8, 108u8];
    assert(w@ =~= fixed_text(TokenKind::Parallel));
    if text_is(b, s, e, w.as_slice()) {
        return Some(TokenKind::Parallel);
    }
    let w: [u8; 4] = [109u8, 97u8, 105u8, 110u8];
    assert(w@ =~= fixed_text(TokenKind::Main));
    if text_is(b, s, e, w.as_slice()) {
        return Some(TokenKind::Main);
    }
    let w: [u8; 6] = [101u8, 120u8, 116u8, 101u8, 114u8, 110u8];
    assert(w@ =~= fixed_text(TokenKind::Extern));
    if text_is(b, s, e, w.as_slice()) {
        return Some(TokenKind::Extern);
    }
    None
}

/// The byte `b[j]`, or 0 past the end.
pub open spec fn byte_or_zero(b: Seq<u8>, j: int) -> u8 {
    if 0 <= j < b.len() {
        b[j]
    } else {
        0
    }
}

/// The length of the longest operator or punctuation spelled at `b[i..]`
/// (0 when none is).
pub open spec fn max_op_len(b: Seq<u8>, i: int) -> int {
    let c0 = b[i];
    let c1 = byte_or_zero(b, i + 1);
    let c2 = byte_or_zero(b, i + 2);
    if c0 == 60 {
        if (c1 == 61 && c2 == 61) || (c1 == 45 && c2 == 45) || (c1 == 60 && c2 == 61) {
            3
        } else if c1 == 61 || c1 == 60 {
            2
        } else {
            1
        }
    } else if c0 == 61 {
        if c1 == 61 && (c2 == 62 || c2 == 61) {
            3
        } else if c1 == 61 {
            2
        } else {
            1
        }
    } else if c0 == 45 {
        if c1 == 45 && c2 == 62 {
            3
        } else if c1 == 61 || c1 == 45 {
            2
        } else {
            1
        }
    } else if c0 == 43 {
        if c1 == 61 || c1 == 43 {
            2
        } else {
            1
        }
    } else if c0 == 42 {
        if c1 == 42 && c2 == 61 {
            3
        } else if c1 == 61 || c1 == 42 {
            2
        } else {
            1
        }
    } else if c0 == 47 || c0 == 92 || c0 == 37 || c0 == 94 || c0 == 33 {
        if c1 == 61 {
            2
        } else {
            1
        }
    } else if c0 == 62 {
        if c1 == 62 && c2 == 61 {
            3
        } else if c1 == 61 || c1 == 62 {
            2
        } else {
            1
        }
    } else if c0 == 38 {
        if c1 == 61 || c1 == 38 {
            2
        } else {
            1
        }
    } else if c0 == 124 {
        if c1 == 61 || c1 == 124 {
            2
        } else {
            1
        }
    } else if c0 == 126 || c0 == 40 || c0 == 41 || c0 == 123 || c0 == 125 || c0 == 91 || c0 == 93 || c0 == 59
        || c0 == 44 || c0 == 46 || c0 == 63 || c0 == 58 {
        1
    } else {
        0
    }
}

/// No operator spelled at `b[i..]` is longer than `max_op_len`.
proof fn lemma_op_max(b: Seq<u8>, i: int)
    requires
        0 <= i < b.len(),
    ensures
        forall|k: TokenKind| #[trigger] op_prefix(b, i, k) ==> 1 <= fixed_text(k).len() <= max_op_len(b, i),
{
    assert forall|k: TokenKind| #[trigger] op_prefix(b, i, k) implies 1 <= fixed_text(k).len() <= max_op_len(b, i) by {
        let t = fixed_text(k);
        assert forall|j: int| 0 <= j < t.len() implies b[i + j] == #[trigger] t[j] by {
            assert(b.subrange(i, i + t.len())[j] == b[i + j]);
        }
        assert(t.len() >= 1 ==> byte_or_zero(b, i) == t[0]);
        assert(t.len() >= 2 ==> byte_or_zero(b, i + 1) == t[1]);
        assert(t.len() >= 3 ==> byte_or_zero(b, i + 2) == t[2]);
        match k {
        TokenKind::Pragma => {},
        TokenKind::Circom => {},
        TokenKind::Include => {},
        TokenKind::Template => {},
        TokenKind::Custom => {},
        TokenKind::Function => {},
        TokenKind::Component => {},
        TokenKind::Bus => {},
        TokenKind::Signal => {},
        TokenKind::Input => {},
        TokenKind::Output => {},
        TokenKind::Public => {},
        TokenKind::Var => {},
        TokenKind::If => {},
        TokenKind::Else => {},
        TokenKind::For => {},
        TokenKind::While => {},
        TokenKind::Return => {},
        TokenKind::Log => {},
        TokenKind::Assert => {},
        TokenKind::Parallel => {},
        TokenKind::Main => {},
        TokenKind::Extern => {},
        TokenKind::NumberLit => {},
        TokenKind::StringLit => {},
        TokenKind::Ident => {},
        TokenKind::LeftSignalAssign => {},
        TokenKind::RightSignalAssign => {},
        TokenKind::LeftUnsafeAssign => {},
        TokenKind::RightUnsafeAssign => {},
        TokenKind::ConstraintEq => {},
        TokenKind::PlusAssign => {},
        TokenKind::MinusAssign => {},
        TokenKind::StarAssign => {},
        TokenKind::PowerAssign => {},
        TokenKind::SlashAssign => {},
        TokenKind::IntDivAssign => {},
        TokenKind::ModAssign => {},
        TokenKind::ShlAssign => {},
        TokenKind::ShrAssign => {},
        TokenKind::BitAndAssign => {},
        TokenKind::BitOrAssign => {},
        TokenKind::BitXorAssign => {},
        TokenKind::PlusPlus => {},
        TokenKind::MinusMinus => {},
        TokenKind::Le => {},
        TokenKind::Ge => {},
        TokenKind::EqEq => {},
        TokenKind::Ne => {},
        TokenKind::And => {},
        TokenKind::Or => {},
        TokenKind::Bang => {},
        TokenKind::Power => {},
        TokenKind::Plus => {},
        TokenKind::Minus => {},
        TokenKind::Star => {},
        TokenKind::Slash => {},
        TokenKind::IntDiv => {},
        TokenKind::Mod => {},
        TokenKind::Shl => {},
        TokenKind::Shr => {},
        TokenKind::Amp => {},
        TokenKind::Pipe => {},
        TokenKind::Caret => {},
        TokenKind::Tilde => {},
        TokenKind::Lt => {},
        TokenKind::Gt => {},
        TokenKind::LParen => {},
        TokenKind::RParen => {},
        TokenKind::LBrace => {},
        TokenKind::RBrace => {},
        TokenKind::LBracket => {},
        TokenKind::RBracket => {},
        TokenKind::Semi => {},
        TokenKind::Comma => {},
        TokenKind::Dot => {},
        TokenKind::Eq => {},
        TokenKind::Question => {},
        TokenKind::Colon => {},
        TokenKind::Underscore => {},
        }
    }
}

/// The operator or punctuation `k` is spelled at `b[i..]`.
pub open spec fn op_prefix(b: Seq<u8>, i: int, k: TokenKind) -> bool {
    &&& is_operator_kind(k)
    &&& 0 <= i
    &&& i + fixed_text(k).len() <= b.len()
    &&& b.subrange(i, i + fixed_text(k).len()) == fixed_text(k)
}

/// The longest operator or punctuation token starting at `b[i]`.
pub fn lex_operator(b: &[u8], i: usize) -> (r: Option<(TokenKind, usize)>)
    requires
        i < b@.len(),
    ensures
        r matches Some((k, n)) ==> {
            &&& is_operator_kind(k)
            &&& 1 <= n
            &&& i + n <= b@.len()
            &&& fixed_text(k) == b@.subrange(i as int, i + n as int)
            &&& b@[i + n - 1] < 0x80
            &&& forall|k2: TokenKind| #[trigger] op_prefix(b@, i as int, k2) ==> fixed_text(k2).len() <= n
        },
        r matches Some((k, n)) ==> n == max_op_len(b@, i as int),
        r is None ==> max_op_len(b@, i as int) == 0,
        r is None ==> forall|k2: TokenKind| !#[trigger] op_prefix(b@, i as int, k2),
{
    proof {
        lemma_op_max(b@, i as int);
    }
    let len = b.len();
    let c0 = b[i];
    let c1 = if len - i > 1 { b[i + 1] } else { 0u8 };
    let c2 = if len - i > 2 { b[i + 2] } else { 0u8 };
    if c0 == 60u8 {
        if c1 == 61u8 && c2 == 61u8 {
            assert(b@.subrange(i as int, i + 3) =~= fixed_text(TokenKind::LeftSignalAssign));
            Some((TokenKind::LeftSignalAssign, 3))
        } else if c1 == 45u8 && c2 == 45u8 {
            assert(b@.subrange(i as int, i + 3) =~= fixed_text(TokenKind::LeftUnsafeAssign));
            Some((TokenKind::LeftUnsafeAssign, 3))
        } else if c1 == 60u8 && c2 == 61u8 {
            assert(b@.subrange(i as int, i + 3) =~= fixed_text(TokenKind::ShlAssign));
            Some((TokenKind::ShlAssign, 3))
        } else if c1 == 61u8 {
            assert(b@.subrange(i as int, i + 2) =~= fixed_text(TokenKind::Le));
            Some((TokenKind::Le, 2))
        } else if c1 == 60u8 {
            assert(b@.subrange(i as int, i + 2) =~= fixed_text(TokenKind::Shl));
            Some((TokenKind::Shl, 2))
        } else {
            assert(b@.subrange(i as int, i + 1) =~= fixed_text(TokenKind::Lt));
            Some((TokenKind::Lt, 1))
        }
    } else if c0 == 61u8 {
        if c1 == 61u8 && c2 == 62u8 {
            assert(b@.subrange(i as int, i + 3) =~= fixed_text(TokenKind::RightSignalAssign));
            Some((TokenKind::RightSignalAssign, 3))
        } else if c1 == 61u8 && c2 == 61u8 {
            assert(b@.subrange(i as int, i + 3) =~= fixed_text(TokenKind::ConstraintEq));
            Some((TokenKind::ConstraintEq, 3))
        } else if c1 == 61u8 {
            assert(b@.subrange(i as int, i + 2) =~= fixed_text(TokenKind::EqEq));
            Some((TokenKind::EqEq, 2))
        } else {
            assert(b@.subrange(i as int, i + 1) =~= fixed_text(TokenKind::Eq));
            Some((TokenKind::Eq, 1))
        }
    } else if c0 == 45u8 {
        if c1 == 45u8 && c2 == 62u8 {
            assert(b@.subrange(i as int, i + 3) =~= fixed_text(TokenKind::RightUnsafeAssign));
            Some((TokenKind::RightUnsafeAssign, 3))
        } else if c1 == 61u8 {
            assert(b@.subrange(i as int, i + 2) =~= fixed_text(TokenKind::MinusAssign));
            Some((TokenKind::MinusAssign, 2))
        } else if c1 == 45u8 {
            assert(b@.subrange(i as int, i + 2) =~= fixed_text(TokenKind::MinusMinus));
            Some((TokenKind::MinusMinus, 2))
        } else {
            assert(b@.subrange(i as int, i + 1) =~= fixed_text(TokenKind::Minus));
            Some((TokenKind::Minus, 1))
        }
    } else if c0 == 43u8 {
        if c1 == 61u8 {
            assert(b@.subrange(i as int, i + 2) =~= fixed_text(TokenKind::PlusAssign));
            Some((TokenKind::PlusAssign, 2))
        } else if c1 == 43u8 {
            assert(b@.subrange(i as int, i + 2) =~= fixed_text(TokenKind::PlusPlus));
            Some((TokenKind::PlusPlus, 2))
        } else {
            assert(b@.subrange(i as int, i + 1) =~= fixed_text(TokenKind::Plus));
            Some((TokenKind::Plus, 1))
        }
    } else if c0 == 42u8 {
        if c1 == 42u8 && c2 == 61u8 {
            assert(b@.subrange(i as int, i + 3) =~= fixed_text(TokenKind::PowerAssign));
            Some((TokenKind::PowerAssign, 3))
        } else if c1 == 61u8 {
            assert(b@.subrange(i as int, i + 2) =~= fixed_text(TokenKind::StarAssign));
            Some((TokenKind::StarAssign, 2))
        } else if c1 == 42u8 {
            assert(b@.subrange(i as int, i + 2) =~= fixed_text(TokenKind::Power));
            Some((TokenKind::Power, 2))
        } else {
            assert(b@.subrange(i as int, i + 1) =~= fixed_text(TokenKind::Star));
            Some((TokenKind::Star, 1))
        }
    } else if c0 == 47u8 {
        if c1 == 61u8 {
            assert(b@.subrange(i as int, i + 2) =~= fixed_text(TokenKind::SlashAssign));
            Some((TokenKind::SlashAssign, 2))
        } else {
            assert(b@.subrange(i as int, i + 1) =~= fixed_text(TokenKind::Slash));
            Some((TokenKind::Slash, 1))
        }
    } else if c0 == 92u8 {
        if c1 == 61u8 {
            assert(b@.subrange(i as int, i + 2) =~= fixed_text(TokenKind::IntDivAssign));
            Some((TokenKind::IntDivAssign, 2))
        } else {
            assert(b@.subrange(i as int, i + 1) =~= fixed_text(TokenKind::IntDiv));
            Some((TokenKind::IntDiv, 1))
        }
    } else if c0 == 37u8 {
        if c1 == 61u8 {
            assert(b@.subrange(i as int, i + 2) =~= fixed_text(TokenKind::ModAssign));
            Some((TokenKind::ModAssign, 2))
        } else {
            assert(b@.subrange(i as int, i + 1) =~= fixed_text(TokenKind::Mod));
            Some((TokenKind::Mod, 1))
        }
    } else if c0 == 62u8 {
        if c1 == 62u8 && c2 == 61u8 {
            assert(b@.subrange(i as int, i + 3) =~= fixed_text(TokenKind::ShrAssign));
            Some((TokenKind::ShrAssign, 3))
        } else if c1 == 61u8 {
            assert(b@.subrange(i as int, i + 2) =~= fixed_text(TokenKind::Ge));
            Some((TokenKind::Ge, 2))
        } else if c1 == 62u8 {
            assert(b@.subrange(i as int, i + 2) =~= fixed_text(TokenKind::Shr));
            Some((TokenKind::Shr, 2))
        } else {
            assert(b@.subrange(i as int, i + 1) =~= fixed_text(TokenKind::Gt));
            Some((TokenKind::Gt, 1))
        }
    } else if c0 == 38u8 {
        if c1 == 61u8 {
            assert(b@.subrange(i as int, i + 2) =~= fixed_text(TokenKind::BitAndAssign));
            Some((TokenKind::BitAndAssign, 2))
        } else if c1 == 38u8 {
            assert(b@.subrange(i as int, i + 2) =~= fixed_text(TokenKind::And));
            Some((TokenKind::And, 2))
        } else {
            assert(b@.subrange(i as int, i + 1) =~= fixed_text(TokenKind::Amp));
            Some((TokenKind::Amp, 1))
        }
    } else if c0 == 124u8 {
        if c1 == 61u8 {
            assert(b@.subrange(i as int, i + 2) =~= fixed_text(TokenKind::BitOrAssign));
            Some((TokenKind::BitOrAssign, 2))
        } else if c1 == 124u8 {
            assert(b@.subrange(i as int, i + 2) =~= fixed_text(TokenKind::Or));
            Some((TokenKind::Or, 2))
        } else {
            assert(b@.subrange(i as int, i + 1) =~= fixed_text(TokenKind::Pipe));
            Some((TokenKind::Pipe, 1))
        }
    } else if c0 == 94u8 {
        if c1 == 61u8 {
            assert(b@.subrange(i as int, i + 2) =~= fixed_text(TokenKind::BitXorAssign));
            Some((TokenKind::BitXorAssign, 2))
        } else {
            assert(b@.subrange(i as int, i + 1) =~= fixed_text(TokenKind::Caret));
            Some((TokenKind::Caret, 1))
        }
    } else if c0 == 33u8 {
        if c1 == 61u8 {
            assert(b@.subrange(i as int, i + 2) =~= fixed_text(TokenKind::Ne));
            Some((TokenKind::Ne, 2))
        } else {
            assert(b@.subrange(i as int, i + 1) =~= fixed_text(TokenKind::Bang));
            Some((TokenKind::Bang, 1))
        }
    } else if c0 == 126u8 {
        {
            assert(b@.subrange(i as int, i + 1) =~= fixed_text(TokenKind::Tilde));
            Some((TokenKind::Tilde, 1))
        }
    } else if c0 == 40u8 {
        {
            assert(b@.subrange(i as int, i + 1) =~= fixed_text(TokenKind::LParen));
            Some((TokenKind::LParen, 1))
        }
    } else if c0 == 41u8 {
        {
            assert(b@.subrange(i as int, i + 1) =~= fixed_text(TokenKind::RParen));
            Some((TokenKind::RParen, 1))
        }
    } else if c0 == 123u8 {
        {
            assert(b@.subrange(i as int, i + 1) =~= fixed_text(TokenKind::LBrace));
            Some((TokenKind::LBrace, 1))
        }
    } else if c0 == 125u8 {
        {
            assert(b@.subrange(i as int, i + 1) =~= fixed_text(TokenKind::RBrace));
            Some((TokenKind::RBrace, 1))
        }
    } else if c0 == 91u8 {
        {
            assert(b@.subrange(i as int, i + 1) =~= fixed_text(TokenKind::LBracket));
            Some((TokenKind::LBracket, 1))
        }
    } else if c0 == 93u8 {
        {
            assert(b@.subrange(i as int, i + 1) =~= fixed_text(TokenKind::RBracket));
            Some((TokenKind::RBracket, 1))
        }
    } else if c0 == 59u8 {
        {
            assert(b@.subrange(i as int, i + 1) =~= fixed_text(TokenKind::Semi));
            Some((TokenKind::Semi, 1))
        }
    } else if c0 == 44u8 {
        {
            assert(b@.subrange(i as int, i + 1) =~= fixed_text(TokenKind::Comma));
            Some((TokenKind::Comma, 1))
        }
    } else if c0 == 46u8 {
        {
            assert(b@.subrange(i as int, i + 1) =~= fixed_text(TokenKind::Dot));
            Some((TokenKind::Dot, 1))
        }
    } else if c0 == 63u8 {
        {
            assert(b@.subrange(i as int, i + 1) =~= fixed_text(TokenKind::Question));
            Some((TokenKind::Question, 1))
        }
    } else if c0 == 58u8 {
        {
            assert(b@.subrange(i as int, i + 1) =~= fixed_text(TokenKind::Colon));
            Some((TokenKind::Colon, 1))
        }
    } else {
        None
    }
}

/// Whether `b[s..e]` equals `lit`.
pub fn text_is(b: &[u8], s: usize, e: usize, lit: &[u8]) -> (r: bool)
    requires
        s <= e <= b@.len(),
    ensures
        r == (b@.subrange(s as int, e as int) == lit@),
{
    if e - s != lit.len() {
        return false;
    }
    let mut i: usize = 0;
    while i < lit.len()
        invariant
            i <= lit.len(),
            e - s == lit.len(),
            s <= e <= b@.len(),
            forall|j: int| 0 <= j < i ==> b@[s + j] == lit@[j],
        decreases lit.len() - i,
    {
        if b[s + i] != lit[i] {
            assert(b@.subrange(s as int, e as int)[i as int] != lit@[i as int]);
            return false;
        }
        i += 1;
    }
    assert(b@.subrange(s as int, e as int) =~= lit@);
    true
}

// ── Character classes ───────────────────────────────────────────────

pub open spec fn is_ws_byte(c: u8) -> bool {
    c == 32 || c == 9 || c == 13 || c == 10 || c == 12
}

pub open spec fn is_digit_byte(c: u8) -> bool {
    48 <= c <= 57
}

pub open spec fn is_hex_byte(c: u8) -> bool {
    is_digit_byte(c) || (97 <= c <= 102) || (65 <= c <= 70)
}

pub open spec fn is_ident_start_byte(c: u8) -> bool {
    (97 <= c <= 122) || (65 <= c <= 90) || c == 95 || c == 36
}

pub open spec fn is_ident_byte(c: u8) -> bool {
    is_ident_start_byte(c) || is_digit_byte(c)
}

/// `[a-zA-Z_$][a-zA-Z0-9_$]*`
pub open spec fn is_ident_text(t: Seq<u8>) -> bool {
    &&& t.len() >= 1
    &&& is_ident_start_byte(t[0])
    &&& forall|i: int| 1 <= i < t.len() ==> is_ident_byte(#[trigger] t[i])
}

/// `[0-9]+` or `0[xX][0-9a-fA-F]+`
pub open spec fn is_number_text(t: Seq<u8>) -> bool {
    ||| (t.len() >= 1 && forall|i: int| 0 <= i < t.len() ==> is_digit_byte(#[trigger] t[i]))
    ||| (t.len() >= 3 && t[0] == 48 && (t[1] == 120 || t[1] == 88) && forall|i: int|
        2 <= i < t.len() ==> is_hex_byte(#[trigger] t[i]))
}

/// The inside of a string literal: `([^"\\]|\\.)*` where `.` is any
/// byte but a newline.
pub open spec fn is_string_body(t: Seq<u8>) -> bool
    decreases t.len(),
{
    if t.len() == 0 {
        true
    } else if t[0] == 92 {
        t.len() >= 2 && t[1] != 10 && is_string_body(t.subrange(2, t.len() as int))
    } else {
        t[0] != 34 && is_string_body(t.subrange(1, t.len() as int))
    }
}

/// A double-quoted string literal.
pub open spec fn is_string_lit_text(t: Seq<u8>) -> bool {
    &&& t.len() >= 2
    &&& t[0] == 34
    &&& t[t.len() - 1] == 34
    &&& is_string_body(t.subrange(1, t.len() - 1))
}

/// `tok` is the token that the source text `text` spells.
pub open spec fn token_denotes(tok: Token, text: Seq<u8>) -> bool {
    match tok {
        Token::NumberLit(s) => is_number_text(text) && encode_utf8(s@) == text,
        Token::StringLit(s) => is_string_lit_text(text) && encode_utf8(s@) == text.subrange(
            1,
            text.len() - 1,
        ),
        Token::Ident(s) => {
            &&& is_ident_text(text)
            &&& text != seq![95u8]
            &&& forall|k: TokenKind| is_keyword_kind(k) ==> fixed_text(k) != text
            &&& encode_utf8(s@) == text
        },
        _ => text == fixed_text(kind_of(tok)),
    }
}

/// A token together with its byte span in the source.
#[derive(Debug, PartialEq)]
pub struct SpannedToken {
    pub token: Token,
    pub span: std::ops::Range<usize>,
}

impl Clone for SpannedToken {
    fn clone(&self) -> (r: Self)
        ensures
            r.span == self.span,
    {
        SpannedToken { token: self.token.clone(), span: self.span.start..self.span.end }
    }
}

/// The end of the run of bytes from `j` that satisfy `p`.
pub open spec fn run_end(b: Seq<u8>, j: int, p: spec_fn(u8) -> bool) -> int
    decreases b.len() - j,
{
    if 0 <= j < b.len() && p(b[j]) {
        run_end(b, j + 1, p)
    } else {
        j
    }
}

/// The end of the number literal that starts at `b[i]`.
pub open spec fn number_end(b: Seq<u8>, i: int) -> int {
    if b[i] == 48 && b.len() - i > 2 && (b[i + 1] == 120 || b[i + 1] == 88) && is_hex_byte(b[i + 2]) {
        run_end(b, i + 3, |c: u8| is_hex_byte(c))
    } else {
        run_end(b, i + 1, |c: u8| is_digit_byte(c))
    }
}

/// Where the string literal whose text goes on from `j` closes: past its
/// quote; none when the input ends first, or a backslash ends the input
/// or a line.
pub open spec fn string_close(b: Seq<u8>, j: int) -> Option<int>
    decreases b.len() - j,
{
    if j < 0 || j >= b.len() {
        None
    } else if b[j] == 34 {
        Some(j + 1)
    } else if b[j] == 92 {
        if j + 1 < b.len() && b[j + 1] != 10 {
            string_close(b, j + 2)
        } else {
            None
        }
    } else {
        string_close(b, j + 1)
    }
}

/// Where the block comment whose text goes on from `j` closes: past the
/// first `*/`; none when the input ends first.
pub open spec fn block_close(b: Seq<u8>, j: int) -> Option<int>
    decreases b.len() - j,
{
    if j < 0 || b.len() - j <= 1 {
        None
    } else if b[j] == 42 && b[j + 1] == 47 {
        Some(j + 2)
    } else {
        block_close(b, j + 1)
    }
}

/// The end of the UTF-8 scalar that starts at `b[i]`.
pub open spec fn char_end(b: Seq<u8>, i: int) -> int {
    run_end(b, i + 1, |c: u8| 0x80 <= c <= 0xbf)
}

/// What the lexer does at `b[i]`: skip to an offset (0), read a token
/// ending at an offset (1), or report an error ending at an offset (2).
pub open spec fn lex_step(b: Seq<u8>, i: int) -> (int, int) {
    let c = b[i];
    if is_ws_byte(c) {
        (0, i + 1)
    } else if c == 47 && b.len() - i > 1 && b[i + 1] == 47 {
        (0, line_end_from(b, i + 2))
    } else if c == 47 && b.len() - i > 1 && b[i + 1] == 42 && block_close(b, i + 2) is Some {
        (0, block_close(b, i + 2)->0)
    } else if is_digit_byte(c) {
        (1, number_end(b, i))
    } else if is_ident_start_byte(c) {
        (1, run_end(b, i + 1, |x: u8| is_ident_byte(x)))
    } else if c == 34 {
        match string_close(b, i + 1) {
            Some(e) => (1, e),
            None => (2, i + 1),
        }
    } else if max_op_len(b, i) > 0 {
        (1, i + max_op_len(b, i))
    } else {
        (2, char_end(b, i))
    }
}

/// The token spans and the error spans that lexing `b` from `i` yields.
pub open spec fn lex_from(b: Seq<u8>, i: int) -> (Seq<(int, int)>, Seq<(int, int)>)
    decreases b.len() - i,
{
    if i < 0 || i >= b.len() {
        (Seq::empty(), Seq::empty())
    } else {
        let (what, e) = lex_step(b, i);
        if e <= i || e > b.len() {
            (Seq::empty(), Seq::empty())
        } else {
            let rest = lex_from(b, e);
            if what == 1 {
                (seq![(i, e)] + rest.0, rest.1)
            } else if what == 2 {
                (rest.0, seq![(i, e)] + rest.1)
            } else {
                rest
            }
        }
    }
}

/// The spans of a list of tokens.
pub open spec fn token_spans(toks: Seq<SpannedToken>) -> Seq<(int, int)> {
    toks.map_values(|t: SpannedToken| (t.span.start as int, t.span.end as int))
}

/// The spans of a list of ranges.
pub open spec fn range_spans(rs: Seq<std::ops::Range<usize>>) -> Seq<(int, int)> {
    rs.map_values(|r: std::ops::Range<usize>| (r.start as int, r.end as int))
}

/// Each token spells its span of `b`, and spans come in source order
/// without overlapping.
pub open spec fn tokens_ok(b: Seq<u8>, toks: Seq<SpannedToken>) -> bool {
    &&& forall|k: int|
        0 <= k < toks.len() ==> {
            &&& (#[trigger] toks[k]).span.start < toks[k].span.end <= b.len()
            &&& token_denotes(toks[k].token, b.subrange(toks[k].span.start as int, toks[k].span.end as int))
        }
    &&& forall|k: int, l: int| 0 <= k < l < toks.len() ==> #[trigger] toks[k].span.end <= #[trigger] toks[l].span.start
}

/// Error spans are non-empty, inside `b`, in order and disjoint.
pub open spec fn ranges_ok(b: Seq<u8>, rs: Seq<std::ops::Range<usize>>) -> bool {
    &&& forall|k: int| 0 <= k < rs.len() ==> (#[trigger] rs[k]).start < rs[k].end <= b.len()
    &&& forall|k: int, l: int| 0 <= k < l < rs.len() ==> #[trigger] rs[k].end <= #[trigger] rs[l].start
}

// ── Scanners ────────────────────────────────────────────────────────

/// End of the run of bytes satisfying the identifier class from `i`.
fn scan_ident(b: &[u8], i: usize) -> (e: usize)
    requires
        i < b@.len(),
        is_ident_start_byte(b@[i as int]),
    ensures
        i < e <= b@.len(),
        is_ident_text(b@.subrange(i as int, e as int)),
        e == b@.len() || !is_ident_byte(b@[e as int]),
        e == run_end(b@, i + 1, |x: u8| is_ident_byte(x)),
{
    let len = b.len();
    let mut e = i + 1;
    while e < len && (is_ident_start(b[e]) || is_digit(b[e]))
        invariant
            i < e <= b@.len(),
            len == b@.len(),
            is_ident_start_byte(b@[i as int]),
            forall|j: int| i < j < e ==> is_ident_byte(#[trigger] b@[j]),
            run_end(b@, i + 1, |x: u8| is_ident_byte(x)) == run_end(b@, e as int, |x: u8| is_ident_byte(x)),
        decreases b@.len() - e,
    {
        e += 1;
    }
    assert forall|j: int| 1 <= j < e - i implies is_ident_byte(#[trigger] b@.subrange(i as int, e as int)[j]) by {
        assert(b@.subrange(i as int, e as int)[j] == b@[i + j]);
    }
    e
}

/// End of the number literal starting at `b[i]`.
fn scan_number(b: &[u8], i: usize) -> (e: usize)
    requires
        i < b@.len(),
        is_digit_byte(b@[i as int]),
    ensures
        i < e <= b@.len(),
        is_number_text(b@.subrange(i as int, e as int)),
        forall|j: int| i <= j < e ==> b@[j] < 0x80,
        e == number_end(b@, i as int),
{
    let len = b.len();
    if b[i] == 48u8 && len - i > 2 && (b[i + 1] == 120u8 || b[i + 1] == 88u8) && is_hex(b[i + 2]) {
        let mut e = i + 3;
        while e < len && is_hex(b[e])
            invariant
                i + 3 <= e <= len,
                len == b@.len(),
                forall|j: int| i + 2 <= j < e ==> is_hex_byte(#[trigger] b@[j]),
                run_end(b@, i + 3, |c: u8| is_hex_byte(c)) == run_end(b@, e as int, |c: u8| is_hex_byte(c)),
            decreases len - e,
        {
            e += 1;
        }
        let ghost t = b@.subrange(i as int, e as int);
        assert forall|j: int| 2 <= j < t.len() implies is_hex_byte(#[trigger] t[j]) by {
            assert(t[j] == b@[i + j]);
        }
        assert(forall|j: int| i + 2 <= j < e ==> is_hex_byte(#[trigger] b@[j]));
        e
    } else {
        let mut e = i + 1;
        while e < len && is_digit(b[e])
            invariant
                i + 1 <= e <= len,
                len == b@.len(),
                is_digit_byte(b@[i as int]),
                forall|j: int| i <= j < e ==> is_digit_byte(#[trigger] b@[j]),
                run_end(b@, i + 1, |c: u8| is_digit_byte(c)) == run_end(b@, e as int, |c: u8| is_digit_byte(c)),
            decreases len - e,
        {
            e += 1;
        }
        let ghost t = b@.subrange(i as int, e as int);
        assert forall|j: int| 0 <= j < t.len() implies is_digit_byte(#[trigger] t[j]) by {
            assert(t[j] == b@[i + j]);
        }
        e
    }
}

/// End (one past the closing quote) of the string literal opening at
/// `b[i]`, or `None` when it is not terminated on well-formed escapes.
fn scan_string(b: &[u8], i: usize) -> (r: Option<usize>)
    requires
        i < b@.len(),
        b@[i as int] == 34,
    ensures
        r matches Some(e) ==> i + 2 <= e <= b@.len() && is_string_lit_text(
            b@.subrange(i as int, e as int),
        ),
        string_close(b@, i + 1) == (match r {
            Some(e) => Some(e as int),
            None => None,
        }),
{
    let len = b.len();
    let mut j = i + 1;
    while j < len
        invariant
            i + 1 <= j <= len,
            len == b@.len(),
            b@[i as int] == 34,
            string_close(b@, i + 1) == string_close(b@, j as int),
            forall|k: int|
                j <= k <= len ==> is_string_body(#[trigger] b@.subrange(j as int, k)) ==> is_string_body(
                    b@.subrange(i + 1, k),
                ),
        decreases len - j,
    {
        let c = b[j];
        if c == 34u8 {
            let e = j + 1;
            let ghost t = b@.subrange(i as int, e as int);
            assert(b@.subrange(j as int, j as int).len() == 0);
            assert(is_string_body(b@.subrange(j as int, j as int)));
            assert(t.subrange(1, t.len() - 1) =~= b@.subrange(i + 1, j as int));
            return Some(e);
        } else if c == 92u8 {
            if j + 1 < len && b[j + 1] != 10u8 {
                assert forall|k: int|
                    j + 2 <= k <= len && is_string_body(#[trigger] b@.subrange(j + 2, k)) implies is_string_body(
                    b@.subrange(i + 1, k),
                ) by {
                    let t = b@.subrange(j as int, k);
                    assert(t.subrange(2, t.len() as int) =~= b@.subrange(j + 2, k));
                    assert(is_string_body(t));
                }
                j += 2;
            } else {
                return None;
            }
        } else {
            assert forall|k: int|
                j + 1 <= k <= len && is_string_body(#[trigger] b@.subrange(j + 1, k)) implies is_string_body(
                b@.subrange(i + 1, k),
            ) by {
                let t = b@.subrange(j as int, k);
                assert(t.subrange(1, t.len() as int) =~= b@.subrange(j + 1, k));
                assert(is_string_body(t));
            }
            j += 1;
        }
    }
    None
}

/// End of a block comment opening at `b[i]` (`/*`), or `None` when
/// it is not closed.
fn scan_block_comment(b: &[u8], i: usize) -> (r: Option<usize>)
    requires
        i + 1 < b@.len(),
    ensures
        r matches Some(e) ==> i + 4 <= e <= b@.len() && b@[e - 2] == 42 && b@[e - 1] == 47,
        block_close(b@, i + 2) == (match r {
            Some(e) => Some(e as int),
            None => None,
        }),
{
    let len = b.len();
    let mut j = i + 2;
    while len - j > 1
        invariant
            i + 2 <= j <= len,
            len == b@.len(),
            block_close(b@, i + 2) == block_close(b@, j as int),
        decreases len - j,
    {
        if b[j] == 42u8 && b[j + 1] == 47u8 {
            return Some(j + 2);
        }
        j += 1;
    }
    None
}

/// End of the UTF-8 scalar that starts at `b[i]`.
fn scan_char(b: &[u8], i: usize) -> (e: usize)
    requires
        i < b@.len(),
        valid_utf8(b@),
        at_boundary(b@, i as int),
    ensures
        i < e <= b@.len(),
        at_boundary(b@, e as int),
        e == char_end(b@, i as int),
{
    let len = b.len();
    let mut e = i + 1;
    proof {
        if e < len {
            is_char_boundary_iff_not_is_continuation_byte(b@, e as int);
        }
    }
    while e < len && b[e] >= 0x80u8 && b[e] <= 0xbfu8
        invariant
            i < e <= len,
            len == b@.len(),
            char_end(b@, i as int) == run_end(b@, e as int, |c: u8| 0x80 <= c <= 0xbf),
        decreases len - e,
    {
        e += 1;
    }
    e
}

#[verifier::inline]
pub open spec fn spec_is_ws(c: u8) -> bool {
    is_ws_byte(c)
}

fn is_ws(c: u8) -> (r: bool)
    ensures
        r == is_ws_byte(c),
{
    c == 32u8 || c == 9u8 || c == 13u8 || c == 10u8 || c == 12u8
}

fn is_digit(c: u8) -> (r: bool)
    ensures
        r == is_digit_byte(c),
{
    48u8 <= c && c <= 57u8
}

fn is_hex(c: u8) -> (r: bool)
    ensures
        r == is_hex_byte(c),
{
    (48u8 <= c && c <= 57u8) || (97u8 <= c && c <= 102u8) || (65u8 <= c && c <= 70u8)
}

fn is_ident_start(c: u8) -> (r: bool)
    ensures
        r == is_ident_start_byte(c),
{
    (97u8 <= c && c <= 122u8) || (65u8 <= c && c <= 90u8) || c == 95u8 || c == 36u8
}

// ── Tokenizer ───────────────────────────────────────────────────────

fn push_token(tokens: &mut Vec<SpannedToken>, token: Token, s: usize, e: usize, Ghost(b): Ghost<Seq<u8>>)
    requires
        tokens_ok(b, old(tokens)@),
        forall|k: int| 0 <= k < old(tokens)@.len() ==> (#[trigger] old(tokens)@[k]).span.end <= s,
        s < e <= b.len(),
        token_denotes(token, b.subrange(s as int, e as int)),
    ensures
        tokens_ok(b, final(tokens)@),
        forall|k: int| 0 <= k < final(tokens)@.len() ==> (#[trigger] final(tokens)@[k]).span.end <= e,
        final(tokens)@.len() == old(tokens)@.len() + 1,
        final(tokens)@.last().token == token,
        token_spans(final(tokens)@) == token_spans(old(tokens)@).push((s as int, e as int)),
{
    tokens.push(SpannedToken { token, span: s..e });
    assert(token_spans(tokens@) =~= token_spans(old(tokens)@).push((s as int, e as int)));
    assert forall|k: int, l: int| 0 <= k < l < tokens@.len() implies #[trigger] tokens@[k].span.end <= #[trigger] tokens@[l].span.start by {
        if l == tokens@.len() - 1 {
            assert(old(tokens)@[k].span.end <= s);
        } else {
            assert(old(tokens)@[k] == tokens@[k]);
            assert(old(tokens)@[l] == tokens@[l]);
        }
    }
}

fn push_range(errors: &mut Vec<std::ops::Range<usize>>, s: usize, e: usize, Ghost(b): Ghost<Seq<u8>>)
    requires
        ranges_ok(b, old(errors)@),
        forall|k: int| 0 <= k < old(errors)@.len() ==> (#[trigger] old(errors)@[k]).end <= s,
        s < e <= b.len(),
    ensures
        ranges_ok(b, final(errors)@),
        forall|k: int| 0 <= k < final(errors)@.len() ==> (#[trigger] final(errors)@[k]).end <= e,
        range_spans(final(errors)@) == range_spans(old(errors)@).push((s as int, e as int)),
{
    errors.push(s..e);
    assert(range_spans(errors@) =~= range_spans(old(errors)@).push((s as int, e as int)));
    assert forall|k: int, l: int| 0 <= k < l < errors@.len() implies #[trigger] errors@[k].end <= #[trigger] errors@[l].start by {
        if l == errors@.len() - 1 {
            assert(old(errors)@[k].end <= s);
        } else {
            assert(old(errors)@[k] == errors@[k]);
            assert(old(errors)@[l] == errors@[l]);
        }
    }
}

/// Tokenize `source` into a list of spanned tokens, collecting lexer errors.
#[verifier::rlimit(60)]
#[verifier::spinoff_prover]
pub fn tokenize(source: &str) -> (res: (Vec<SpannedToken>, Vec<std::ops::Range<usize>>))
    ensures
        tokens_ok(source.spec_bytes(), res.0@),
        ranges_ok(source.spec_bytes(), res.1@),
        token_spans(res.0@) == lex_from(source.spec_bytes(), 0).0,
        range_spans(res.1@) == lex_from(source.spec_bytes(), 0).1,
{
    let b = source.as_bytes();
    let len = b.len();
    let mut tokens: Vec<SpannedToken> = Vec::new();
    let mut errors: Vec<std::ops::Range<usize>> = Vec::new();
    let mut i: usize = 0;
    proof {
        encode_utf8_valid_utf8(source@);
    }
    while i < len
        invariant
            i <= len,
            len == b@.len(),
            b@ == source.spec_bytes(),
            valid_utf8(b@),
            at_boundary(b@, i as int),
            tokens_ok(b@, tokens@),
            forall|k: int| 0 <= k < tokens@.len() ==> (#[trigger] tokens@[k]).span.end <= i,
            ranges_ok(b@, errors@),
            forall|k: int| 0 <= k < errors@.len() ==> (#[trigger] errors@[k]).end <= i,
            token_spans(tokens@) + lex_from(b@, i as int).0 == lex_from(b@, 0).0,
            range_spans(errors@) + lex_from(b@, i as int).1 == lex_from(b@, 0).1,
        decreases len - i,
    {
        let c = b[i];
        let ghost t0 = tokens@;
        let ghost r0 = errors@;
        let ghost i0 = i as int;
        if is_ws(c) {
            proof { lemma_after_ascii(b@, i as int); }
            i += 1;
            continue;
        }
        if c == 47u8 && len - i > 1 && b[i + 1] == 47u8 {
            let mut j = i + 2;
            while j < len && b[j] != 10u8
                invariant
                    i + 2 <= j <= len,
                    len == b@.len(),
                    line_end_from(b@, i + 2) == line_end_from(b@, j as int),
                decreases len - j,
            {
                j += 1;
            }
            proof {
                if j < len {
                    lemma_ascii_is_boundary(b@, j as int);
                }
            }
            i = j;
            continue;
        }
        if c == 47u8 && len - i > 1 && b[i + 1] == 42u8 {
            if let Some(e) = scan_block_comment(b, i) {
                proof { lemma_after_ascii(b@, e - 1); }
                i = e;
                continue;
            }
        }
        if is_digit(c) {
            let e = scan_number(b, i);
            proof {
                lemma_ascii_is_boundary(b@, i as int);
                lemma_after_ascii(b@, e - 1);
            }
            let text = substring(source, i, e);
            push_token(&mut tokens, Token::NumberLit(text), i, e, Ghost(b@));
            i = e;
            continue;
        }
        if is_ident_start(c) {
            let e = scan_ident(b, i);
            proof {
                assert(b@.subrange(i as int, e as int)[e - i - 1] == b@[e - 1]);
                lemma_ascii_is_boundary(b@, i as int);
                lemma_after_ascii(b@, e - 1);
            }
            let token = match keyword_kind(b, i, e) {
                Some(k) => fixed_token(k),
                None => {
                    if e == i + 1 && c == 95u8 {
                        assert(b@.subrange(i as int, e as int) =~= fixed_text(TokenKind::Underscore));
                        Token::Underscore
                    } else {
                        proof {
                            if b@.subrange(i as int, e as int) =~= seq![95u8] {
                                assert(b@.subrange(i as int, e as int)[0] == b@[i as int]);
                            }
                        }
                        Token::Ident(substring(source, i, e))
                    }
                },
            };
            push_token(&mut tokens, token, i, e, Ghost(b@));
            i = e;
            continue;
        }
        if c == 34u8 {
            match scan_string(b, i) {
                Some(e) => {
                    proof {
                        assert(b@.subrange(i as int, e as int)[e - i - 1] == b@[e - 1]);
                        lemma_after_ascii(b@, i as int);
                        lemma_ascii_is_boundary(b@, e - 1);
                        lemma_after_ascii(b@, e - 1);
                    }
                    let text = substring(source, i + 1, e - 1);
                    assert(b@.subrange(i as int, e as int).subrange(1, e - i - 1) =~= b@.subrange(i + 1, e - 1));
                    push_token(&mut tokens, Token::StringLit(text), i, e, Ghost(b@));
                    i = e;
                },
                None => {
                    proof { lemma_after_ascii(b@, i as int); }
                    push_range(&mut errors, i, i + 1, Ghost(b@));
                    i = i + 1;
                },
            }
            continue;
        }
        match lex_operator(b, i) {
            Some((k, n)) => {
                proof {
                    lemma_after_ascii(b@, i + n - 1);
                }
                push_token(&mut tokens, fixed_token(k), i, i + n, Ghost(b@));
                i = i + n;
            },
            None => {
                let e = scan_char(b, i);
                push_range(&mut errors, i, e, Ghost(b@));
                i = e;
            },
        }
    }
    proof {
        assert(token_spans(tokens@) + Seq::<(int, int)>::empty() =~= token_spans(tokens@));
        assert(range_spans(errors@) + Seq::<(int, int)>::empty() =~= range_spans(errors@));
    }
    (tokens, errors)
}

// ── Comment extraction (trivia) ─────────────────────────────────────
//
// The tokenizer skips comments so that the parser only sees syntactic
// tokens. For formatter-level trivia preservation, we scan the source
// independently and return the comments in source order.

/// A Circom comment, preserved as trivia for the formatter.
#[derive(Debug, Clone, PartialEq, Eq)]
pub struct Comment {
    /// Inclusive start byte offset of the comment (including the
    /// leading `//` or `/*`).
    pub start: usize,
    /// Exclusive end byte offset (including `*/` for block comments,
    /// excluding the terminating `\n` for line comments).
    pub end: usize,
    /// The comment kind — line (`// ...`) or block (`/* ... */`).
    pub kind: CommentKind,
    /// The raw comment text as it appears in the source (including the
    /// `//` or `/* … */` delimiters).
    pub text: String,
    /// Whether this comment sits on the same line as source that
    /// precedes it (i.e., there is non-whitespace earlier on the line).
    pub trailing: bool,
}

#[derive(Debug, Clone, Copy, PartialEq, Eq, Structural)]
pub enum CommentKind {
    /// `// line comment` up to end of line.
    Line,
    /// `/* block comment */`, possibly spanning multiple lines.
    Block,
}

pub open spec fn is_blank_byte(c: u8) -> bool {
    c == 32 || c == 9 || c == 13
}

/// Some byte other than blanks precedes offset `at` on its line.
pub open spec fn trailing_at(b: Seq<u8>, at: int) -> bool {
    exists|k: int|
        0 <= k < at && #[trigger] b[k] != 10 && !is_blank_byte(b[k]) && forall|m: int|
            k < m < at ==> is_blank_byte(#[trigger] b[m])
}

/// The shape of a comment spanning `b[s..e]`.
pub open spec fn comment_shape(b: Seq<u8>, s: int, e: int, kind: CommentKind) -> bool {
    &&& 0 <= s
    &&& s + 2 <= e <= b.len()
    &&& b[s] == 47
    &&& match kind {
        CommentKind::Line => {
            &&& b[s + 1] == 47
            &&& (e == b.len() || b[e] == 10)
            &&& forall|m: int| s + 2 <= m < e ==> #[trigger] b[m] != 10
        },
        CommentKind::Block => {
            &&& b[s + 1] == 42
            &&& (e == b.len() || (s + 4 <= e && b[e - 2] == 42 && b[e - 1] == 47))
        },
    }
}

/// Where a string literal that opens before `j` ends, scanning from `j`:
/// past its closing quote, or at the end of the input. A backslash
/// hides the byte after it.
pub open spec fn string_end_from(b: Seq<u8>, j: int) -> int
    decreases b.len() - j,
{
    if j >= b.len() {
        b.len() as int
    } else if b[j] == 92 && b.len() - j > 1 {
        string_end_from(b, j + 2)
    } else if b[j] == 34 {
        j + 1
    } else {
        string_end_from(b, j + 1)
    }
}

/// The end of a line comment whose text goes on from `j`.
pub open spec fn line_end_from(b: Seq<u8>, j: int) -> int
    decreases b.len() - j,
{
    if j >= b.len() || b[j] == 10 {
        if j >= b.len() {
            b.len() as int
        } else {
            j
        }
    } else {
        line_end_from(b, j + 1)
    }
}

/// The end of a block comment whose text goes on from `j`: past the
/// first `*/`, or the end of the input.
pub open spec fn block_end_from(b: Seq<u8>, j: int) -> int
    decreases b.len() - j,
{
    if b.len() - j > 1 {
        if b[j] == 42 && b[j + 1] == 47 {
            j + 2
        } else {
            block_end_from(b, j + 1)
        }
    } else {
        b.len() as int
    }
}

/// A comment opens at `i`.
pub open spec fn comment_opens(b: Seq<u8>, i: int) -> bool {
    0 <= i && i + 1 < b.len() && b[i] == 47 && (b[i + 1] == 47 || b[i + 1] == 42)
}

/// The comments found scanning `b` from `i`, string literals skipped:
/// each as its start, end and kind.
pub open spec fn comment_ranges(b: Seq<u8>, i: int) -> Seq<(int, int, CommentKind)>
    decreases b.len() - i,
{
    if i < 0 || i >= b.len() {
        Seq::empty()
    } else if b[i] == 34 {
        let e = string_end_from(b, i + 1);
        if e <= i || e > b.len() {
            Seq::empty()
        } else {
            comment_ranges(b, e)
        }
    } else if comment_opens(b, i) {
        let (e, k) = if b[i + 1] == 47 {
            (line_end_from(b, i + 2), CommentKind::Line)
        } else {
            (block_end_from(b, i + 2), CommentKind::Block)
        };
        if e <= i || e > b.len() {
            Seq::empty()
        } else {
            seq![(i, e, k)] + comment_ranges(b, e)
        }
    } else {
        comment_ranges(b, i + 1)
    }
}

/// The ranges and kinds of a list of comments.
pub open spec fn ranges_of(cs: Seq<Comment>) -> Seq<(int, int, CommentKind)> {
    cs.map_values(|c: Comment| (c.start as int, c.end as int, c.kind))
}

/// The comments of `b`, in order, each with its exact text.
pub open spec fn comments_ok(b: Seq<u8>, cs: Seq<Comment>) -> bool {
    &&& forall|k: int|
        0 <= k < cs.len() ==> {
            &&& comment_shape(b, (#[trigger] cs[k]).start as int, cs[k].end as int, cs[k].kind)
            &&& encode_utf8(cs[k].text@) == b.subrange(cs[k].start as int, cs[k].end as int)
            &&& cs[k].trailing == trailing_at(b, cs[k].start as int)
        }
    &&& forall|k: int, l: int| 0 <= k < l < cs.len() ==> #[trigger] cs[k].end <= #[trigger] cs[l].start
}

/// Return `true` when `offset` in `bytes` has non-whitespace content
/// earlier on the same line (i.e., the character at `offset` is a
/// trailing/inline token rather than a leading one).
fn is_trailing_at(bytes: &[u8], offset: usize) -> (r: bool)
    requires
        offset <= bytes@.len(),
    ensures
        r == trailing_at(bytes@, offset as int),
{
    let mut k = offset;
    while k > 0
        invariant
            k <= offset <= bytes@.len(),
            forall|m: int| k <= m < offset ==> is_blank_byte(#[trigger] bytes@[m]),
        decreases k,
    {
        k -= 1;
        let c = bytes[k];
        if c == 10u8 {
            assert forall|j: int| 0 <= j < offset && #[trigger] bytes@[j] != 10 && !is_blank_byte(bytes@[j]) implies !(forall|m: int|
                j < m < offset ==> is_blank_byte(#[trigger] bytes@[m])) by {
                assert(j < k);
                assert(!is_blank_byte(bytes@[k as int]));
            }
            return false;
        } else if c == 32u8 || c == 9u8 || c == 13u8 {
        } else {
            assert(bytes@[k as int] != 10 && !is_blank_byte(bytes@[k as int]));
            return true;
        }
    }
    assert forall|j: int| 0 <= j < offset && #[trigger] bytes@[j] != 10 && !is_blank_byte(bytes@[j]) implies !(forall|m: int|
        j < m < offset ==> is_blank_byte(#[trigger] bytes@[m])) by {
        assert(is_blank_byte(bytes@[j]));
    }
    false
}

/// Position just past the string literal whose quote is `b[i]`
/// (or the end of the input when it is unterminated).
fn skip_string_literal(b: &[u8], i: usize) -> (r: usize)
    requires
        i < b@.len(),
    ensures
        i < r <= b@.len(),
        r == string_end_from(b@, i + 1),
{
    let len = b.len();
    let mut j = i + 1;
    while j < len
        invariant_except_break
            string_end_from(b@, i + 1) == string_end_from(b@, j as int),
        invariant
            i < j <= len + 1,
            len == b@.len(),
            j <= len,
        ensures
            string_end_from(b@, i + 1) == (if j >= len { len as int } else { j as int }),
        decreases len + 1 - j,
    {
        let c = b[j];
        if c == 92u8 && len - j > 1 {
            j += 2;
        } else if c == 34u8 {
            j += 1;
            break;
        } else {
            j += 1;
        }
    }
    if j > len { len } else { j }
}

/// Scan `source` and return every comment in source order. String
/// literals are skipped so that `"//"` inside a string is not
/// mis-identified as a comment.
///
/// Unterminated block comments are reported as best-effort — the
/// comment is considered to run until the end of the source.
pub fn extract_comments(source: &str) -> (out: Vec<Comment>)
    ensures
        comments_ok(source.spec_bytes(), out@),
        ranges_of(out@) == comment_ranges(source.spec_bytes(), 0),
{
    let bytes = source.as_bytes();
    let len = bytes.len();
    let mut out: Vec<Comment> = Vec::new();
    let mut i: usize = 0;
    proof {
        encode_utf8_valid_utf8(source@);
    }
    while i < len
        invariant
            i <= len,
            len == bytes@.len(),
            bytes@ == source.spec_bytes(),
            valid_utf8(bytes@),
            comments_ok(bytes@, out@),
            forall|k: int| 0 <= k < out@.len() ==> (#[trigger] out@[k]).end <= i,
            ranges_of(out@) + comment_ranges(bytes@, i as int) == comment_ranges(bytes@, 0),
        decreases len - i,
    {
        let b = bytes[i];
        if b == 34u8 {
            i = skip_string_literal(bytes, i);
            continue;
        }
        if b == 47u8 && len - i > 1 && (bytes[i + 1] == 47u8 || bytes[i + 1] == 42u8) {
            let start = i;
            let trailing = is_trailing_at(bytes, start);
            let (end, kind) = if bytes[i + 1] == 47u8 {
                let mut j = start + 2;
                while j < len && bytes[j] != 10u8
                    invariant
                        start + 2 <= j <= len,
                        len == bytes@.len(),
                        forall|m: int| start + 2 <= m < j ==> #[trigger] bytes@[m] != 10,
                        line_end_from(bytes@, start + 2) == line_end_from(bytes@, j as int),
                    decreases len - j,
                {
                    j += 1;
                }
                (j, CommentKind::Line)
            } else {
                let mut j = start + 2;
                while len - j > 1 && !(bytes[j] == 42u8 && bytes[j + 1] == 47u8)
                    invariant
                        start + 2 <= j <= len,
                        len == bytes@.len(),
                        block_end_from(bytes@, start + 2) == block_end_from(bytes@, j as int),
                    decreases len - j,
                {
                    j += 1;
                }
                let end = if len - j > 1 { j + 2 } else { len };
                (end, CommentKind::Block)
            };
            proof {
                lemma_ascii_is_boundary(bytes@, start as int);
                if end < len {
                    if kind == CommentKind::Line {
                        lemma_ascii_is_boundary(bytes@, end as int);
                    } else {
                        lemma_after_ascii(bytes@, end - 1);
                    }
                }
            }
            let text = substring(source, start, end);
            let c = Comment { start, end, kind, text, trailing };
            let ghost prev = out@;
            out.push(c);
            assert forall|k: int, l: int| 0 <= k < l < out@.len() implies #[trigger] out@[k].end <= #[trigger] out@[l].start by {
                assert(out@[k] == prev[k]);
                if l < out@.len() - 1 {
                    assert(out@[l] == prev[l]);
                }
            }
            proof {
                assert(comment_opens(bytes@, start as int));
                assert(ranges_of(out@) =~= ranges_of(prev).push((start as int, end as int, kind)));
                assert(comment_ranges(bytes@, start as int) == seq![(start as int, end as int, kind)] + comment_ranges(
                    bytes@,
                    end as int,
                ));
                assert(ranges_of(out@) + comment_ranges(bytes@, end as int) =~= ranges_of(prev) + comment_ranges(
                    bytes@,
                    start as int,
                ));
            }
            i = end;
            continue;
        }
        proof {
            assert(!comment_opens(bytes@, i as int));
            assert(comment_ranges(bytes@, i as int) == comment_ranges(bytes@, i + 1));
        }
        i += 1;
    }
    proof {
        assert(comment_ranges(bytes@, i as int) == Seq::<(int, int, CommentKind)>::empty());
        assert(ranges_of(out@) + Seq::<(int, int, CommentKind)>::empty() =~= ranges_of(out@));
    }
    out
}

} // verus!
