use dn2d::ast::{BinaryOperator, Constant, Expression, Literal, Program, Statement};
use dn2d::lexer::Lexer;
use dn2d::parser::Parser;
use dn2d::planner::OrderedProgram;
use dn2d::token::{Token, TokenKind};
use dn2d::validator::{ValidationError, Validator};

fn lex(src: &str) -> Vec<Token> {
    let mut lexer = Lexer::new(src);
    lexer.tokenize().expect("source should lex")
}

fn parse(src: &str) -> Program {
    let tokens = lex(src);
    let mut parser = Parser::new(src, tokens);
    match parser.parse_program() {
        Ok(p) => p,
        Err(e) => panic!("parse error: {}", e.message),
    }
}

fn plan(program: &Program) -> Result<OrderedProgram, Vec<ValidationError>> {
    let validator = Validator::new(program);
    match validator.validate() {
        Ok(planner) => Ok(planner.plan()),
        Err(errors) => Err(errors),
    }
}

fn names(v: &[String]) -> Vec<&str> {
    v.iter().map(|s| s.as_str()).collect()
}

#[test]
fn linear_chain_outside_iterate_is_rejected() {
    let program = parse("reach(x,y) :- edge(x,y). reach(x,z) :- edge(x,y), reach(y,z).");
    let errors = match plan(&program) {
        Ok(_) => panic!("validation should fail"),
        Err(e) => e,
    };
    // Both rules define `reach`, which sits in a self-looped component, and
    // neither is inside `.iterate`: each is reported.
    assert_eq!(errors.len(), 2);
    for e in &errors {
        assert_eq!(
            e.error_message,
            "The rule defining 'reach' is part of a recursive definition. Should be in a '.iterate' block."
        );
        assert_eq!(e.span.line_start, 1);
        assert_eq!(e.span.line_end, 1);
    }
}

#[test]
fn corrected_chain_in_iterate() {
    let program = parse(".iterate { reach(x,y) :- edge(x,y). reach(x,z) :- edge(x,y), reach(y,z). }");
    let ordered = plan(&program).unwrap_or_else(|_| panic!("validation should pass"));
    assert_eq!(ordered.strata.len(), 1);
    let s = &ordered.strata[0];
    assert!(s.is_recursive);
    assert_eq!(names(&s.relation_names), vec!["reach"]);
    assert_eq!(s.rules.len(), 2);
    assert_eq!(s.rules[0].body.len(), 1);
    assert_eq!(s.rules[1].body.len(), 2);
    assert!(ordered.inputs.is_empty());
    assert!(ordered.outputs.is_empty());
}

#[test]
fn two_independent_strata() {
    let program = parse("a(x) :- b(x). b(x) :- c(x).");
    let ordered = plan(&program).unwrap_or_else(|_| panic!("validation should pass"));
    assert_eq!(ordered.strata.len(), 2);
    assert_eq!(names(&ordered.strata[0].relation_names), vec!["b"]);
    assert_eq!(names(&ordered.strata[1].relation_names), vec!["a"]);
    assert!(!ordered.strata[0].is_recursive);
    assert!(!ordered.strata[1].is_recursive);
    assert_eq!(ordered.strata[0].rules[0].head.name.0, "b");
    assert_eq!(ordered.strata[1].rules[0].head.name.0, "a");
}

#[test]
fn mutual_recursion_is_one_stratum() {
    let program = parse(".iterate { p(x) :- q(x). q(x) :- p(x). }");
    let ordered = plan(&program).unwrap_or_else(|_| panic!("validation should pass"));
    assert_eq!(ordered.strata.len(), 1);
    let s = &ordered.strata[0];
    assert!(s.is_recursive);
    let mut rel = names(&s.relation_names);
    rel.sort();
    assert_eq!(rel, vec!["p", "q"]);
    assert_eq!(s.rules.len(), 2);
    assert_eq!(s.rules[0].head.name.0, "p");
    assert_eq!(s.rules[1].head.name.0, "q");
}

#[test]
fn read_directive_parsing() {
    let program = parse(".read users(id, name) from \"users.csv\" as \"csv\".");
    let ordered = plan(&program).unwrap_or_else(|_| panic!("validation should pass"));
    assert_eq!(ordered.inputs.len(), 1);
    let d = &ordered.inputs[0];
    assert_eq!(d.name.0, "users");
    assert_eq!(d.columns.iter().map(|c| c.0.as_str()).collect::<Vec<_>>(), vec!["id", "name"]);
    assert_eq!(d.path, "users.csv");
    assert_eq!(d.format, "csv");
    assert!(ordered.strata.is_empty());
    assert!(ordered.outputs.is_empty());
}

fn integer_of(e: &Expression) -> i64 {
    match e {
        Expression::Constant(Constant::Integer(i)) => *i,
        other => panic!("expected an integer, got {:?}", other),
    }
}

#[test]
fn expression_precedence() {
    // The comparison `=` of the grammar is the `==` token of the lexer.
    let program = parse("a(x) :- y == 1 + 2 * 3.");
    let rule = match &program.statements[0] {
        Statement::Rule(r) => r,
        other => panic!("expected a rule, got {:?}", other),
    };
    let cond = match &rule.body[0] {
        Literal::Condition(e) => e,
        other => panic!("expected a condition, got {:?}", other),
    };
    match cond {
        Expression::Binary { left, op: BinaryOperator::Eq, right } => {
            match left.as_ref() {
                Expression::Variable(v) => assert_eq!(v.0, "y"),
                other => panic!("expected y, got {:?}", other),
            }
            match right.as_ref() {
                Expression::Binary { left, op: BinaryOperator::Add, right } => {
                    assert_eq!(integer_of(left), 1);
                    match right.as_ref() {
                        Expression::Binary { left, op: BinaryOperator::Mul, right } => {
                            assert_eq!(integer_of(left), 2);
                            assert_eq!(integer_of(right), 3);
                        }
                        other => panic!("expected 2 * 3, got {:?}", other),
                    }
                }
                other => panic!("expected 1 + 2 * 3, got {:?}", other),
            }
        }
        other => panic!("expected an equality, got {:?}", other),
    }
}

#[test]
fn bare_equals_is_a_lexer_error() {
    let mut lexer = Lexer::new("a(x) :- y = 1.");
    let err = lexer.tokenize().expect_err("bare = is illegal");
    assert_eq!(err.message, "Unrecognized character '='");
    assert_eq!(err.span.line, 1);
    assert_eq!(err.span.start, 11);
}

#[test]
fn tokens_of_a_rule() {
    let tokens = lex("p(X) :- q(X, 42), not r(\"s\").");
    let kinds: Vec<TokenKind> = tokens.into_iter().map(|t| t.kind).collect();
    let expected = vec![
        TokenKind::Identifier("p".to_string()),
        TokenKind::LParen,
        TokenKind::Identifier("X".to_string()),
        TokenKind::RParen,
        TokenKind::ColonDash,
        TokenKind::Identifier("q".to_string()),
        TokenKind::LParen,
        TokenKind::Identifier("X".to_string()),
        TokenKind::Comma,
        TokenKind::Integer(42),
        TokenKind::RParen,
        TokenKind::Comma,
        TokenKind::Not,
        TokenKind::Identifier("r".to_string()),
        TokenKind::LParen,
        TokenKind::String("s".to_string()),
        TokenKind::RParen,
        TokenKind::Dot,
    ];
    assert_eq!(format!("{:?}", kinds), format!("{:?}", expected));
}
