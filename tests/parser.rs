use dn2d::ast::{AggregateFunction, Constant, Expression, Literal, Program, RuleOrFact, Statement};
use dn2d::lexer::Lexer;
use dn2d::parser::{Parsable, Parser, ParserError};

fn parse(src: &str) -> Result<Program, ParserError> {
    let mut lexer = Lexer::new(src);
    let tokens = lexer.tokenize().expect("source should lex");
    let mut parser = Parser::new(src, tokens);
    parser.parse_program()
}

#[test]
fn write_directive() {
    let p = parse(".write out to \"o.csv\" as \"csv\".").unwrap();
    match &p.statements[0] {
        Statement::Write(w) => {
            assert_eq!(w.name.0, "out");
            assert_eq!(w.path, "o.csv");
            assert_eq!(w.format, "csv");
        }
        other => panic!("expected a write, got {:?}", other),
    }
}

#[test]
fn facts_and_rules_are_told_apart() {
    let p = parse("edge(1, 2). path(x, y) :- edge(x, y).").unwrap();
    assert!(matches!(&p.statements[0], Statement::Fact(f) if f.head.terms.len() == 2));
    assert!(matches!(&p.statements[1], Statement::Rule(r) if r.body.len() == 1));
}

#[test]
fn iterate_block_holds_rules_and_facts() {
    let p = parse(".iterate { seed(1). grow(x) :- seed(x). }").unwrap();
    match &p.statements[0] {
        Statement::Iterate(b) => {
            assert_eq!(b.rules.len(), 2);
            assert!(matches!(&b.rules[0], RuleOrFact::Fact(_)));
            assert!(matches!(&b.rules[1], RuleOrFact::Rule(_)));
        }
        other => panic!("expected a block, got {:?}", other),
    }
}

#[test]
fn negation_by_not_and_bang() {
    let p = parse("a(x) :- b(x), not c(x), !d(x).").unwrap();
    match &p.statements[0] {
        Statement::Rule(r) => {
            assert!(matches!(&r.body[0], Literal::Positive(a) if a.name.0 == "b"));
            assert!(matches!(&r.body[1], Literal::Negative(a) if a.name.0 == "c"));
            assert!(matches!(&r.body[2], Literal::Negative(a) if a.name.0 == "d"));
        }
        other => panic!("expected a rule, got {:?}", other),
    }
}

#[test]
fn aggregate_in_condition() {
    let p = parse("a(x) :- b(x), x > (sum(y)).").unwrap();
    match &p.statements[0] {
        Statement::Rule(r) => match &r.body[1] {
            Literal::Condition(Expression::Binary { right, .. }) => match right.as_ref() {
                Expression::Paren(inner) => {
                    assert!(matches!(inner.as_ref(), Expression::Aggregate(a) if a.func == AggregateFunction::Sum && a.arg.0 == "y"))
                }
                other => panic!("expected parentheses, got {:?}", other),
            },
            other => panic!("expected a condition, got {:?}", other),
        },
        other => panic!("expected a rule, got {:?}", other),
    }
}

#[test]
fn unknown_aggregate_is_an_error() {
    let err = parse("a(x) :- b(x), x > (median(y)).").unwrap_err();
    assert_eq!(err.message, "Unknown aggregate function 'median'");
    assert_eq!(err.span.line, 1);
    assert_eq!(err.line_ref, "a(x) :- b(x), x > (median(y)).");
}

#[test]
fn left_associative_subtraction_and_unary_minus() {
    let p = parse("a(x) :- x == -1 - 2 - 3.").unwrap();
    let cond = match &p.statements[0] {
        Statement::Rule(r) => match &r.body[0] {
            Literal::Condition(e) => e.clone(),
            other => panic!("expected a condition, got {:?}", other),
        },
        other => panic!("expected a rule, got {:?}", other),
    };
    // x == ((-1 - 2) - 3)
    let rhs = match cond {
        Expression::Binary { right, .. } => *right,
        other => panic!("expected ==, got {:?}", other),
    };
    match rhs {
        Expression::Binary { left, right, .. } => {
            assert!(matches!(*right, Expression::Constant(Constant::Integer(3))));
            match *left {
                Expression::Binary { left, right, .. } => {
                    assert!(matches!(*left, Expression::Unary { .. }));
                    assert!(matches!(*right, Expression::Constant(Constant::Integer(2))));
                }
                other => panic!("expected -1 - 2, got {:?}", other),
            }
        }
        other => panic!("expected a subtraction, got {:?}", other),
    }
}

#[test]
fn constants_wildcards_in_atoms() {
    let p = parse("a(1, 2.5, \"s\", true, _) :- b(x).").unwrap();
    match &p.statements[0] {
        Statement::Rule(r) => {
            let t = &r.head.terms;
            assert!(matches!(&t[0], Expression::Constant(Constant::Integer(1))));
            assert!(matches!(&t[1], Expression::Constant(Constant::Float(f)) if f == "2.5"));
            assert!(matches!(&t[2], Expression::Constant(Constant::String(s)) if s == "s"));
            assert!(matches!(&t[3], Expression::Constant(Constant::Boolean(true))));
            assert!(matches!(&t[4], Expression::Wildcard));
        }
        other => panic!("expected a rule, got {:?}", other),
    }
}

#[test]
fn rule_span_covers_its_lines() {
    let p = parse("a(x) :-\n  b(x),\n  c(x).").unwrap();
    match &p.statements[0] {
        Statement::Rule(r) => {
            assert_eq!(r.span.line_start, 1);
            assert_eq!(r.span.line_end, 3);
        }
        other => panic!("expected a rule, got {:?}", other),
    }
}

#[test]
fn missing_dot_at_end_is_an_error() {
    let err = parse("a(x) :- b(x)").unwrap_err();
    assert_eq!(err.line_ref, "");
    assert_eq!(err.span.line, 0);
}

#[test]
fn statement_cannot_start_with_a_number() {
    let err = parse("1.").unwrap_err();
    assert_eq!(err.message, "Unexpected token 'Integer', expected a statement keyword or identifier");
    assert_eq!(err.line_ref, "1.");
}

#[test]
fn read_needs_columns() {
    assert!(parse(".read r() from \"f\" as \"csv\".").is_err());
}

#[test]
fn empty_program() {
    assert!(parse("").unwrap().statements.is_empty());
}

#[test]
fn parsable_reads_a_program() {
    let src = "p(1). q(x) :- p(x).";
    let mut lexer = Lexer::new(src);
    let tokens = lexer.tokenize().unwrap();
    let mut parser = Parser::new(src, tokens);
    let p = <Program as Parsable<Program>>::parse(&mut parser).unwrap();
    assert_eq!(p.statements.len(), 2);
}

fn literal(src: &str) -> Result<Literal, ParserError> {
    let mut lexer = Lexer::new(src);
    let tokens = lexer.tokenize().expect("source should lex");
    let mut parser = Parser::new(src, tokens);
    Literal::parse(&mut parser)
}

#[test]
fn compound_condition_literal() {
    match literal("y == 1 + 2 * 3").unwrap() {
        Literal::Condition(Expression::Binary { op, right, .. }) => {
            assert_eq!(op, dn2d::ast::BinaryOperator::Eq);
            assert!(matches!(*right, Expression::Binary { op: dn2d::ast::BinaryOperator::Add, .. }));
        }
        other => panic!("expected a condition, got {:?}", other),
    }
    assert!(matches!(literal("x != y").unwrap(), Literal::Condition(Expression::Binary { .. })));
    assert!(matches!(literal("- - x").unwrap(), Literal::Condition(Expression::Unary { .. })));
    assert!(literal("not x").is_err());
}

#[test]
fn aggregate_primaries() {
    let p = parse("a(x) :- b(x), y == count(x).").unwrap();
    match &p.statements[0] {
        Statement::Rule(r) => match &r.body[1] {
            Literal::Condition(Expression::Binary { right, .. }) => {
                assert!(matches!(right.as_ref(), Expression::Aggregate(a) if a.func == AggregateFunction::Count))
            }
            other => panic!("expected a condition, got {:?}", other),
        },
        other => panic!("expected a rule, got {:?}", other),
    }
}

#[test]
fn read_without_columns_names_the_token() {
    let err = parse(".read users() from \"u\" as \"csv\".").unwrap_err();
    assert_eq!(err.message, "Unexpected token 'RParen', expected an identifier");
    assert_eq!((err.span.line, err.span.start), (1, 13));
}

#[test]
fn expect_names_both_kinds() {
    let err = parse("a(x) :- b(x) c.").unwrap_err();
    assert_eq!(err.message, "Unexpected token 'Identifier(c)', expected 'Dot'");
    let err = parse(", a(x).").unwrap_err();
    assert_eq!(err.message, "Unexpected token 'Comma', expected a statement keyword or identifier");
    assert_eq!(err.line_ref, ", a(x).");
}
