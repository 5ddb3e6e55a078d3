use cinccino::span::{LineCol, LineIndex, Span};
#[test]
fn test_line_index_single_line() {
    let idx = LineIndex::new("hello");
    assert_eq!(idx.line_col(0), Some(LineCol { line: 0, col: 0 }));
    assert_eq!(idx.line_col(4), Some(LineCol { line: 0, col: 4 }));
}

#[test]
fn test_line_index_multi_line() {
    let src = "abc\ndef\nghi";
    let idx = LineIndex::new(src);
    // 'a' at offset 0 -> line 0, col 0
    assert_eq!(idx.line_col(0), Some(LineCol { line: 0, col: 0 }));
    // 'd' at offset 4 -> line 1, col 0
    assert_eq!(idx.line_col(4), Some(LineCol { line: 1, col: 0 }));
    // 'g' at offset 8 -> line 2, col 0
    assert_eq!(idx.line_col(8), Some(LineCol { line: 2, col: 0 }));
    // 'h' at offset 9 -> line 2, col 1
    assert_eq!(idx.line_col(9), Some(LineCol { line: 2, col: 1 }));
}

#[test]
fn test_line_index_newline_boundary() {
    let src = "ab\ncd\n";
    let idx = LineIndex::new(src);
    // '\n' at offset 2 -> line 0, col 2
    assert_eq!(idx.line_col(2), Some(LineCol { line: 0, col: 2 }));
    // 'c' at offset 3 -> line 1, col 0
    assert_eq!(idx.line_col(3), Some(LineCol { line: 1, col: 0 }));
    // '\n' at offset 5 -> line 1, col 2
    assert_eq!(idx.line_col(5), Some(LineCol { line: 1, col: 2 }));
    // offset 6 -> line 2, col 0 (empty line at end)
    assert_eq!(idx.line_col(6), Some(LineCol { line: 2, col: 0 }));
}

#[test]
fn test_span_merge() {
    let a = Span::new(5, 10);
    let b = Span::new(8, 15);
    let merged = a.merge(b);
    assert_eq!(merged, Span::new(5, 15));
}

#[test]
fn test_span_default() {
    let span = Span::default();
    assert_eq!(span, Span::dummy());
}

#[test]
fn test_line_col_beyond_end() {
    let idx = LineIndex::new("ab\ncd");
    // Offset beyond end
    assert_eq!(idx.line_col(100), Some(LineCol { line: 1, col: 97 }));
}
