use cinccino::lexer::{CommentKind, Token, extract_comments, tokenize};
#[test]
fn test_basic_keywords() {
    let src = "pragma circom 2.2.3;";
    let (tokens, errors) = tokenize(src);
    assert!(errors.is_empty(), "unexpected lex errors: {:?}", errors);
    assert_eq!(tokens[0].token, Token::Pragma);
    assert_eq!(tokens[1].token, Token::Circom);
    assert_eq!(tokens[2].token, Token::NumberLit("2".into()));
    assert_eq!(tokens[3].token, Token::Dot);
    assert_eq!(tokens[4].token, Token::NumberLit("2".into()));
    assert_eq!(tokens[5].token, Token::Dot);
    assert_eq!(tokens[6].token, Token::NumberLit("3".into()));
    assert_eq!(tokens[7].token, Token::Semi);
}

#[test]
fn test_signal_operators() {
    let src = "a <== b; c ==> d; x <-- y; z --> w; p === q;";
    let (tokens, errors) = tokenize(src);
    assert!(errors.is_empty());
    // a <== b ; -> indices 0..3
    assert_eq!(tokens[1].token, Token::LeftSignalAssign);
    // c ==> d ; -> indices 4..7
    assert_eq!(tokens[5].token, Token::RightSignalAssign);
    // x <-- y ; -> indices 8..11
    assert_eq!(tokens[9].token, Token::LeftUnsafeAssign);
    // z --> w ; -> indices 12..15
    assert_eq!(tokens[13].token, Token::RightUnsafeAssign);
    // p === q ; -> indices 16..19
    assert_eq!(tokens[17].token, Token::ConstraintEq);
}

#[test]
fn test_comments_skipped() {
    let src = "signal // line comment\ninput /* block comment */ x;";
    let (tokens, errors) = tokenize(src);
    assert!(errors.is_empty());
    assert_eq!(tokens[0].token, Token::Signal);
    assert_eq!(tokens[1].token, Token::Input);
    assert_eq!(tokens[2].token, Token::Ident("x".into()));
    assert_eq!(tokens[3].token, Token::Semi);
}

#[test]
fn test_string_literal() {
    let src = r#"include "circomlib/poseidon.circom";"#;
    let (tokens, errors) = tokenize(src);
    assert!(errors.is_empty());
    assert_eq!(tokens[0].token, Token::Include);
    assert_eq!(
        tokens[1].token,
        Token::StringLit("circomlib/poseidon.circom".into())
    );
    assert_eq!(tokens[2].token, Token::Semi);
}

#[test]
fn test_string_literal_with_escapes() {
    let src = r#""hello\"world""#;
    let (tokens, errors) = tokenize(src);
    assert!(errors.is_empty(), "unexpected lex errors: {:?}", errors);
    assert_eq!(tokens.len(), 1);
    assert_eq!(tokens[0].token, Token::StringLit(r#"hello\"world"#.into()));
}

#[test]
fn test_string_literal_with_backslash() {
    let src = r#""value: \\""#;
    let (tokens, errors) = tokenize(src);
    assert!(errors.is_empty(), "unexpected lex errors: {:?}", errors);
    assert_eq!(tokens[0].token, Token::StringLit(r#"value: \\"#.into()));
}

#[test]
fn test_compound_assignment_operators() {
    let src = "+= -= *= **= /= \\= %= <<= >>= &= |= ^=";
    let (tokens, errors) = tokenize(src);
    assert!(errors.is_empty());
    assert_eq!(tokens[0].token, Token::PlusAssign);
    assert_eq!(tokens[1].token, Token::MinusAssign);
    assert_eq!(tokens[2].token, Token::StarAssign);
    assert_eq!(tokens[3].token, Token::PowerAssign);
    assert_eq!(tokens[4].token, Token::SlashAssign);
    assert_eq!(tokens[5].token, Token::IntDivAssign);
    assert_eq!(tokens[6].token, Token::ModAssign);
    assert_eq!(tokens[7].token, Token::ShlAssign);
    assert_eq!(tokens[8].token, Token::ShrAssign);
    assert_eq!(tokens[9].token, Token::BitAndAssign);
    assert_eq!(tokens[10].token, Token::BitOrAssign);
    assert_eq!(tokens[11].token, Token::BitXorAssign);
}

#[test]
fn test_increment_decrement() {
    let src = "i++ j--";
    let (tokens, errors) = tokenize(src);
    assert!(errors.is_empty());
    assert_eq!(tokens[1].token, Token::PlusPlus);
    assert_eq!(tokens[3].token, Token::MinusMinus);
}

#[test]
fn test_all_keywords() {
    let src = "pragma circom include template custom function component bus \
                    signal input output public var if else for while return \
                    log assert parallel main extern";
    let (tokens, errors) = tokenize(src);
    assert!(errors.is_empty());
    let expected = vec![
        Token::Pragma,
        Token::Circom,
        Token::Include,
        Token::Template,
        Token::Custom,
        Token::Function,
        Token::Component,
        Token::Bus,
        Token::Signal,
        Token::Input,
        Token::Output,
        Token::Public,
        Token::Var,
        Token::If,
        Token::Else,
        Token::For,
        Token::While,
        Token::Return,
        Token::Log,
        Token::Assert,
        Token::Parallel,
        Token::Main,
        Token::Extern,
    ];
    for (i, exp) in expected.iter().enumerate() {
        assert_eq!(&tokens[i].token, exp, "mismatch at index {}", i);
    }
}

#[test]
fn test_extract_comments_line() {
    let src = "signal // a line comment\ninput x;";
    let comments = extract_comments(src);
    assert_eq!(comments.len(), 1);
    assert_eq!(comments[0].kind, CommentKind::Line);
    assert_eq!(comments[0].text, "// a line comment");
    assert!(comments[0].trailing);
}

#[test]
fn test_extract_comments_block() {
    let src = "signal /* block\ncomment */ x;";
    let comments = extract_comments(src);
    assert_eq!(comments.len(), 1);
    assert_eq!(comments[0].kind, CommentKind::Block);
    assert_eq!(comments[0].text, "/* block\ncomment */");
}

#[test]
fn test_extract_comments_leading() {
    let src = "// leading\nsignal x;";
    let comments = extract_comments(src);
    assert_eq!(comments.len(), 1);
    assert!(!comments[0].trailing, "should be leading");
}

#[test]
fn test_extract_comments_inside_string_ignored() {
    let src = r#"log("// not a comment"); signal x;"#;
    let comments = extract_comments(src);
    assert!(
        comments.is_empty(),
        "should not find comments in strings: {comments:?}"
    );
}

#[test]
fn test_extract_comments_multiple() {
    let src = "// one\ntemplate T() {\n    // two\n    signal /* three */ x;\n}\n";
    let comments = extract_comments(src);
    assert_eq!(comments.len(), 3);
    assert_eq!(comments[0].text, "// one");
    assert_eq!(comments[1].text, "// two");
    assert_eq!(comments[2].text, "/* three */");
}

#[test]
fn test_underscore_token() {
    let src = "(_,out) <== A()(inp);";
    let (tokens, errors) = tokenize(src);
    assert!(errors.is_empty());
    assert_eq!(tokens[0].token, Token::LParen);
    assert_eq!(tokens[1].token, Token::Underscore);
    assert_eq!(tokens[2].token, Token::Comma);
}
