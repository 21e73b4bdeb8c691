use dn2d::ast::RuleSpan;
use dn2d::diagnostics::render_validation_errors;
use dn2d::export::ExportTo;
use dn2d::lexer::Lexer;
use dn2d::parser::Parser;
use dn2d::validator::{ValidationError, Validator};

fn errors_of(src: &str) -> Vec<ValidationError> {
    let mut lexer = Lexer::new(src);
    let tokens = lexer.tokenize().unwrap();
    let mut parser = Parser::new(src, tokens);
    let program = parser.parse_program().unwrap_or_else(|e| panic!("{}", e.message));
    let v = Validator::new(&program);
    match v.validate() {
        Ok(_) => Vec::new(),
        Err(e) => e,
    }
}

const MSG_P: &str = "The rule defining 'p' is part of a recursive definition. Should be in a '.iterate' block.";

#[test]
fn render_single_line_error() {
    let src = "p(x) :- q(x).\n.iterate {\n  q(x) :- p(x).\n}";
    let errors = errors_of(src);
    assert_eq!(errors.len(), 1);
    let out = render_validation_errors(src, &errors);
    let expected = format!(
        "\n\x1b[31mValidation ERROR(s):\x1b[0m\n1┃ p(x) :- q(x). \x1b[31m{}\x1b[0m\n⋮┃\n",
        MSG_P
    );
    assert_eq!(out, expected);
}

#[test]
fn render_multi_line_error_with_wide_gutter() {
    let src = "\n\n\n\n\n\n\n\n\nr(x) :-\n  r(x).";
    let errors = errors_of(src);
    assert_eq!(errors.len(), 1);
    let msg = "The rule defining 'r' is part of a recursive definition. Should be in a '.iterate' block.";
    let out = render_validation_errors(src, &errors);
    let expected = format!(
        "\n\x1b[31mValidation ERROR(s):\x1b[0m\n10┃ r(x) :-\n11┃   r(x). \x1b[31m{}\x1b[0m\n⋮ ┃\n",
        msg
    );
    assert_eq!(out, expected);
}

#[test]
fn render_centres_short_numbers() {
    let src: String = (0..100).map(|_| "\n").collect::<String>() + "x";
    let errors = vec![ValidationError { error_message: "m".to_string(), span: RuleSpan { line_start: 7, line_end: 7 } }];
    let out = render_validation_errors(&src, &errors);
    assert_eq!(out, "\n\x1b[31mValidation ERROR(s):\x1b[0m\n 7 ┃  \x1b[31mm\x1b[0m\n ⋮ ┃\n");
}

#[test]
fn render_nothing_for_no_errors() {
    assert_eq!(render_validation_errors("a.", &Vec::new()), "\n\x1b[31mValidation ERROR(s):\x1b[0m\n");
}

#[test]
fn export_choice_ignores_letter_case() {
    assert!(matches!(ExportTo::from_arg("PRINT"), ExportTo::Print));
    assert!(matches!(ExportTo::from_arg("print"), ExportTo::Print));
    assert!(matches!(ExportTo::from_arg("None"), ExportTo::NoExport));
    match ExportTo::from_arg("Out/Tokens.JSON") {
        ExportTo::Path(p) => assert_eq!(p, "out/tokens.json"),
        other => panic!("expected a path, got {:?}", other),
    }
}

#[test]
fn export_choice_from_lowered_form() {
    assert!(matches!(ExportTo::from_lowered("PRINT", "print"), ExportTo::Print));
    assert!(matches!(ExportTo::from_lowered("x", "none"), ExportTo::NoExport));
    assert_eq!(ExportTo::from_arg("PrInT").as_arg(), "print");
    assert_eq!(ExportTo::Path("f.json".to_string()).as_arg(), "f.json");
}

#[test]
fn parser_error_shows_its_source_line() {
    let src = "a(x) :- b(x).\nc(x) :- 5 d.";
    let mut lexer = Lexer::new(src);
    let tokens = lexer.tokenize().unwrap();
    let mut parser = Parser::new(src, tokens);
    let err = parser.parse_program().unwrap_err();
    assert_eq!(err.line_ref, "c(x) :- 5 d.");
    assert_eq!(err.span.line, 2);
}
