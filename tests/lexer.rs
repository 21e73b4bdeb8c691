use dn2d::lexer::Lexer;
use dn2d::token::{Token, TokenKind};

fn kinds(src: &str) -> Vec<String> {
    let mut lexer = Lexer::new(src);
    let tokens: Vec<Token> = lexer.tokenize().expect("source should lex");
    tokens.into_iter().map(|t| format!("{:?}", t.kind)).collect()
}

#[test]
fn keywords_and_directives() {
    assert_eq!(
        kinds(".read .write .iterate from to as not true false"),
        vec!["Read", "Write", "Iterate", "From", "To", "As", "Not", "Boolean(true)", "Boolean(false)"]
    );
}

#[test]
fn operators_pair_up() {
    assert_eq!(
        kinds("== != < <= > >= + - * / % ! :- _ ( ) { } , ."),
        vec![
            "Eq", "NotEq", "Lt", "LtEq", "Gt", "GtEq", "Plus", "Minus", "Star", "Slash", "Percent", "Bang",
            "ColonDash", "Wildcard", "LParen", "RParen", "LBrace", "RBrace", "Comma", "Dot"
        ]
    );
}

#[test]
fn numbers_integer_and_float() {
    assert_eq!(kinds("42 3.25 7."), vec!["Integer(42)", "Float(\"3.25\")", "Integer(7)", "Dot"]);
}

#[test]
fn largest_integer_and_overflow() {
    assert_eq!(kinds("9223372036854775807"), vec!["Integer(9223372036854775807)"]);
    let mut lexer = Lexer::new("9223372036854775808");
    let err = lexer.tokenize().expect_err("out of range");
    assert_eq!(err.message, "Integer literal out of range: 9223372036854775808");
    assert_eq!((err.span.line, err.span.start, err.span.end), (1, 1, 19));
}

#[test]
fn strings_keep_their_content() {
    assert_eq!(kinds("\"a b\" \"\""), vec!["String(\"a b\")", "String(\"\")"]);
}

#[test]
fn unterminated_string_is_an_error() {
    let mut lexer = Lexer::new("p(\"abc");
    let err = lexer.tokenize().expect_err("unterminated");
    assert_eq!(err.message, "Unterminated string literal");
    assert_eq!(err.span.line, 1);
    assert_eq!(err.span.start, 3);
}

#[test]
fn unknown_directive_is_an_error() {
    let mut lexer = Lexer::new("  .foo x");
    let err = lexer.tokenize().expect_err("unknown directive");
    assert_eq!(err.message, "Unknown directive '.foo'");
    assert_eq!((err.span.line, err.span.start, err.span.end), (1, 3, 6));
}

#[test]
fn keyword_after_dot_is_an_unknown_directive() {
    let mut lexer = Lexer::new(".from");
    let err = lexer.tokenize().expect_err("unknown directive");
    assert_eq!(err.message, "Unknown directive '.from'");
}

#[test]
fn lone_colon_is_illegal() {
    let mut lexer = Lexer::new("a : b");
    let err = lexer.tokenize().expect_err("illegal");
    assert_eq!(err.message, "Unrecognized character ':'");
    assert_eq!((err.span.start, err.span.end), (3, 3));
}

#[test]
fn comments_and_whitespace_are_skipped() {
    assert_eq!(kinds("# a comment\n  p # another\n(x)"), vec!["Identifier(\"p\")", "LParen", "Identifier(\"x\")", "RParen"]);
}

#[test]
fn empty_source_has_no_tokens() {
    assert!(kinds("").is_empty());
    assert!(kinds("   # only a comment").is_empty());
}

#[test]
fn identifiers_with_digits_and_underscores() {
    assert_eq!(kinds("edge_2 x_y"), vec!["Identifier(\"edge_2\")", "Identifier(\"x_y\")"]);
}

#[test]
fn spans_follow_lines_and_columns() {
    let mut lexer = Lexer::new("ab(c)\n  de.");
    let tokens = lexer.tokenize().unwrap();
    let spans: Vec<(usize, usize, usize)> = tokens.iter().map(|t| (t.span.line, t.span.start, t.span.end)).collect();
    assert_eq!(spans, vec![(1, 1, 2), (1, 3, 3), (1, 4, 4), (1, 5, 5), (2, 3, 4), (2, 5, 5)]);
}

#[test]
fn spans_never_go_backwards() {
    let src = "# c\n.read r(a) from \"f\" as \"csv\".\nx(1) :- r(a), a != 2.\n.iterate { y(a) :- x(a). }";
    let mut lexer = Lexer::new(src);
    let tokens = lexer.tokenize().unwrap();
    for w in tokens.windows(2) {
        let (a, b) = (&w[0].span, &w[1].span);
        assert!((a.line, a.end) <= (b.line, b.start));
    }
}

#[test]
fn next_token_reports_end_of_input() {
    let mut lexer = Lexer::new("  ");
    let t = lexer.next_token().unwrap();
    assert!(matches!(t.kind, TokenKind::Eof));
}

#[test]
fn spans_after_a_line_break() {
    let mut lexer = Lexer::new("reach(x)\n b");
    let tokens = lexer.tokenize().unwrap();
    let spans: Vec<(usize, usize, usize)> = tokens.iter().map(|t| (t.span.line, t.span.start, t.span.end)).collect();
    assert_eq!(spans, vec![(1, 1, 5), (1, 6, 6), (1, 7, 7), (1, 8, 8), (2, 2, 2)]);
}

#[test]
fn operator_spans() {
    let mut lexer = Lexer::new(":- != !");
    let tokens = lexer.tokenize().unwrap();
    let spans: Vec<(usize, usize, usize)> = tokens.iter().map(|t| (t.span.line, t.span.start, t.span.end)).collect();
    assert_eq!(spans, vec![(1, 1, 2), (1, 4, 5), (1, 7, 7)]);
}

#[test]
fn string_across_lines_keeps_newline_and_counts_it() {
    let mut lexer = Lexer::new("\"a\nb\" c");
    let tokens = lexer.tokenize().unwrap();
    assert_eq!(format!("{:?}", tokens[0].kind), "String(\"a\\nb\")");
    assert_eq!((tokens[0].span.line, tokens[0].span.start), (1, 1));
    assert_eq!((tokens[1].span.line, tokens[1].span.start), (2, 4));
}

#[test]
fn float_then_integer_and_dot() {
    let mut lexer = Lexer::new("3.14 42.");
    let tokens = lexer.tokenize().unwrap();
    let spans: Vec<(usize, usize, usize)> = tokens.iter().map(|t| (t.span.line, t.span.start, t.span.end)).collect();
    assert_eq!(spans, vec![(1, 1, 4), (1, 6, 7), (1, 8, 8)]);
}
