use cinccino::trivia::{Comment, CommentKind, extract_comments, line_of};
use cinccino::span::{Span};
use cinccino::ast::{Block};
/// Classify each comment as leading (before a node) or trailing (after a
/// node on the same line) and return them grouped by position.
fn classify_comments(source: &str, comments: &[Comment]) -> CommentMap {
    let mut map = CommentMap::new();

    for comment in comments {
        let comment_line = line_of(source, comment.span.start);
        let line_start = source[..comment.span.start]
            .rfind('\n')
            .map(|p| p + 1)
            .unwrap_or(0);
        let before = &source[line_start..comment.span.start];
        let is_trailing = before.chars().any(|c| !c.is_whitespace());

        if is_trailing {
            map.trailing.push((comment_line, comment.clone()));
        } else {
            map.leading.push((comment_line, comment.clone()));
        }
    }

    map
}

/// Storage for classified comments.
#[derive(Debug, Clone)]
struct CommentMap {
    leading: Vec<(usize, Comment)>,
    trailing: Vec<(usize, Comment)>,
}

impl CommentMap {
    fn new() -> Self {
        Self {
            leading: Vec::new(),
            trailing: Vec::new(),
        }
    }
}

#[test]
fn extract_line_comment() {
    let src = "// hello\n";
    let comments = extract_comments(src);
    assert_eq!(comments.len(), 1);
    assert_eq!(comments[0].text, "// hello");
    assert_eq!(comments[0].kind, CommentKind::Line);
    assert_eq!(comments[0].span, Span::new(0, 8));
}

#[test]
fn extract_block_comment() {
    let src = "/* hello */";
    let comments = extract_comments(src);
    assert_eq!(comments.len(), 1);
    assert_eq!(comments[0].text, "/* hello */");
    assert_eq!(comments[0].kind, CommentKind::Block);
}

#[test]
fn skip_comments_in_strings() {
    let src = r#""// not a comment" // real comment"#;
    let comments = extract_comments(src);
    assert_eq!(comments.len(), 1);
    assert_eq!(comments[0].text, "// real comment");
}

#[test]
fn multiple_comments() {
    let src = "// first\nvar x = 1; // second\n/* third */\n";
    let comments = extract_comments(src);
    assert_eq!(comments.len(), 3);
    assert_eq!(comments[0].text, "// first");
    assert_eq!(comments[1].text, "// second");
    assert_eq!(comments[2].text, "/* third */");
}

#[test]
fn classify_leading_vs_trailing() {
    let src = "// leading\nvar x = 1; // trailing\n";
    let comments = extract_comments(src);
    let map = classify_comments(src, &comments);
    assert_eq!(map.leading.len(), 1);
    assert_eq!(map.leading[0].1.text, "// leading");
    assert_eq!(map.trailing.len(), 1);
    assert_eq!(map.trailing[0].1.text, "// trailing");
}

#[test]
fn block_comment_multiline() {
    let src = "/* line1\n   line2 */\n";
    let comments = extract_comments(src);
    assert_eq!(comments.len(), 1);
    assert_eq!(comments[0].kind, CommentKind::Block);
    assert_eq!(comments[0].text, "/* line1\n   line2 */");
}

#[test]
fn no_comments() {
    let src = "var x = 1;\n";
    let comments = extract_comments(src);
    assert!(comments.is_empty());
}

#[test]
fn escaped_quote_in_string() {
    let src = r#""escaped \" // not comment" // real"#;
    let comments = extract_comments(src);
    assert_eq!(comments.len(), 1);
    assert_eq!(comments[0].text, "// real");
}

#[test]
fn unterminated_block_comment_preserves_last_byte() {
    let src = "/* abc";
    let comments = extract_comments(src);
    assert_eq!(comments.len(), 1);
    assert_eq!(comments[0].text, "/* abc");
    assert_eq!(comments[0].span, Span::new(0, 6));
}

#[test]
fn unterminated_string_swallows_trailing_comments() {
    // An unterminated string `"hello // world` has no closing quote,
    // so the scanner consumes to EOF.  Any trailing comment-like
    // text inside the string is NOT extracted as a comment.
    // This documents the current behavior.
    let src = r#""hello // world"#;
    let comments = extract_comments(src);
    assert!(
        comments.is_empty(),
        "unterminated string should swallow everything to EOF; got: {comments:?}"
    );
}

#[test]
fn unterminated_string_followed_by_comment_on_next_line() {
    // If the unterminated string ends at EOF, nothing after it is seen.
    let src = "\"hello\n// real comment";
    let comments = extract_comments(src);
    // The scanner sees `"hello\n// real comment` as one unterminated
    // string — every byte after the opening `"` is consumed because
    // there is no closing `"`.  So no comments are extracted.
    assert!(
        comments.is_empty(),
        "unterminated string consumes to EOF; got: {comments:?}"
    );
}
