//! Trivia extraction for Circom source files.
//!
//! "Trivia" refers to non-semantic tokens like comments and whitespace.
//! The tokenizer skips comments entirely, so we extract them from the
//! raw source text in a separate pass.

use vstd::prelude::*;
use vstd::string::StringSliceAdditionalSpecFns;
use vstd::utf8::encode_utf8;

use crate::lexer;
use crate::lexer::comment_shape;
use crate::span::Span;

verus! {

/// A comment extracted from source text.
#[derive(Debug, Clone, PartialEq)]
pub struct Comment {
    /// Byte-offset span in the original source.
    pub span: Span,
    /// The comment text (including delimiters: `//` or `/* */`).
    pub text: String,
    /// Line or block comment.
    pub kind: CommentKind,
}

/// Whether a comment is a line comment (`//`) or block comment (`/* */`).
#[derive(Debug, Clone, Copy, PartialEq, Eq, Structural)]
pub enum CommentKind {
    /// `// ...` (up to end of line)
    Line,
    /// `/* ... */`
    Block,
}

pub open spec fn lexer_kind(k: CommentKind) -> lexer::CommentKind {
    match k {
        CommentKind::Line => lexer::CommentKind::Line,
        CommentKind::Block => lexer::CommentKind::Block,
    }
}

/// The comments of `b`, in order, each with its exact text.
pub open spec fn trivia_ok(b: Seq<u8>, cs: Seq<Comment>) -> bool {
    &&& forall|k: int|
        0 <= k < cs.len() ==> {
            &&& comment_shape(b, (#[trigger] cs[k]).span.start as int, cs[k].span.end as int, lexer_kind(cs[k].kind))
            &&& encode_utf8(cs[k].text@) == b.subrange(cs[k].span.start as int, cs[k].span.end as int)
        }
    &&& forall|k: int, l: int| 0 <= k < l < cs.len() ==> #[trigger] cs[k].span.end <= #[trigger] cs[l].span.start
}

/// The ranges and kinds of a list of comments.
pub open spec fn trivia_ranges(cs: Seq<Comment>) -> Seq<(int, int, lexer::CommentKind)> {
    cs.map_values(|c: Comment| (c.span.start as int, c.span.end as int, lexer_kind(c.kind)))
}

/// Extract all comments from Circom source text.
///
/// Skips comment-like sequences inside double-quoted string literals.
/// Returns comments sorted by their start position.
pub fn extract_comments(source: &str) -> (out: Vec<Comment>)
    ensures
        trivia_ok(source.spec_bytes(), out@),
        trivia_ranges(out@) == lexer::comment_ranges(source.spec_bytes(), 0),
{
    let found = lexer::extract_comments(source);
    let mut out: Vec<Comment> = Vec::new();
    let mut i: usize = 0;
    while i < found.len()
        invariant
            i <= found@.len(),
            lexer::comments_ok(source.spec_bytes(), found@),
            out@.len() == i,
            forall|k: int|
                0 <= k < i ==> {
                    &&& (#[trigger] out@[k]).span.start == found@[k].start
                    &&& out@[k].span.end == found@[k].end
                    &&& lexer_kind(out@[k].kind) == found@[k].kind
                    &&& out@[k].text@ == found@[k].text@
                },
        decreases found@.len() - i,
    {
        let c = &found[i];
        let kind = match c.kind {
            lexer::CommentKind::Line => CommentKind::Line,
            lexer::CommentKind::Block => CommentKind::Block,
        };
        out.push(Comment { span: Span::new(c.start, c.end), text: c.text.clone(), kind });
        i += 1;
    }
    assert forall|k: int, l: int| 0 <= k < l < out@.len() implies #[trigger] out@[k].span.end <= #[trigger] out@[l].span.start by {
        assert(found@[k].end <= found@[l].start);
    }
    assert(trivia_ranges(out@) =~= lexer::ranges_of(found@));
    out
}

/// The number of newline bytes among the first `n` bytes of `b`.
pub open spec fn newlines_before(b: Seq<u8>, n: int) -> nat
    decreases n,
{
    if n <= 0 {
        0
    } else {
        newlines_before(b, n - 1) + if b[n - 1] == 10 { 1nat } else { 0nat }
    }
}

/// Determine the line number (0-based) for a byte offset (offsets past
/// the end count the whole source).
pub fn line_of(source: &str, offset: usize) -> (r: usize)
    ensures
        r == newlines_before(
            source.spec_bytes(),
            if offset <= source.spec_bytes().len() { offset as int } else { source.spec_bytes().len() as int },
        ),
{
    let b = source.as_bytes();
    let n = if offset <= b.len() { offset } else { b.len() };
    let mut count: usize = 0;
    let mut i: usize = 0;
    while i < n
        invariant
            i <= n <= b@.len(),
            count == newlines_before(b@, i as int),
            count <= i,
        decreases n - i,
    {
        if b[i] == 10u8 {
            count += 1;
        }
        i += 1;
    }
    count
}

} // verus!
