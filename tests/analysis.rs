use dn2d::ast::Program;
use dn2d::lexer::Lexer;
use dn2d::parser::Parser;
use dn2d::validator::Validator;

fn parse(src: &str) -> Program {
    let mut lexer = Lexer::new(src);
    let tokens = lexer.tokenize().expect("source should lex");
    let mut parser = Parser::new(src, tokens);
    parser.parse_program().unwrap_or_else(|e| panic!("parse error: {}", e.message))
}

fn node(v: &Validator, name: &str) -> usize {
    let g = &v.dependency_graph;
    (0..g.node_count()).find(|&i| g.name(i) == name).expect("node exists")
}

#[test]
fn graph_nodes_in_order_of_first_mention() {
    let program = parse("a(x) :- b(x), not c(x), x > 1. d(x) :- a(x), b(x).");
    let v = Validator::new(&program);
    let g = &v.dependency_graph;
    let names: Vec<&str> = (0..g.node_count()).map(|i| g.name(i).as_str()).collect();
    // Negated and condition literals add no node and no edge.
    assert_eq!(names, vec!["a", "b", "d"]);
    assert_eq!(g.edges().clone(), vec![(1, 0), (0, 2), (1, 2)]);
}

#[test]
fn every_positive_literal_gives_an_edge() {
    let program = parse("p(x) :- q(x), r(x). .iterate { q(x) :- p(x). }");
    let v = Validator::new(&program);
    let g = &v.dependency_graph;
    for (from, to) in [("q", "p"), ("r", "p"), ("p", "q")] {
        assert!(g.has_edge(node(&v, from), node(&v, to)), "edge {} -> {}", from, to);
    }
    assert!(!g.has_edge(node(&v, "p"), node(&v, "r")));
}

#[test]
fn rule_without_positive_literal_is_a_source() {
    let program = parse("one(x) :- x == 1. two(x) :- one(x).");
    let v = Validator::new(&program);
    let planner = v.validate().unwrap_or_else(|_| panic!("valid"));
    let ordered = planner.plan();
    assert_eq!(ordered.strata.len(), 2);
    assert_eq!(ordered.strata[0].relation_names, vec!["one".to_string()]);
    assert_eq!(ordered.strata[1].relation_names, vec!["two".to_string()]);
}

#[test]
fn self_loop_is_recursive() {
    let program = parse(".iterate { t(x) :- t(x). }");
    let v = Validator::new(&program);
    let scc = vec![node(&v, "t")];
    assert!(v.is_recursive_component(&scc));
    let ordered = v.validate().unwrap_or_else(|_| panic!("valid")).plan();
    assert!(ordered.strata[0].is_recursive);
}

#[test]
fn each_rule_in_exactly_one_stratum() {
    let src = "a(x) :- b(x). .iterate { b(x) :- c(x). c(x) :- b(x). } d(x) :- a(x), c(x). e(1). a(x) :- e(x).";
    let program = parse(src);
    let v = Validator::new(&program);
    let ordered = v.validate().unwrap_or_else(|_| panic!("valid")).plan();
    let total: usize = ordered.strata.iter().map(|s| s.rules.len()).sum();
    assert_eq!(total, 5);
    for head in ["a", "b", "c", "d"] {
        let holding = ordered.strata.iter().filter(|s| s.relation_names.iter().any(|n| n == head)).count();
        assert_eq!(holding, 1, "relation {}", head);
    }
    // `a` has two rules, kept in source order.
    let a = ordered.strata.iter().find(|s| s.relation_names.iter().any(|n| n == "a")).unwrap();
    assert_eq!(a.rules.len(), 2);
    assert_eq!(a.rules[0].body[0].clone_name(), "b");
}

trait BodyName {
    fn clone_name(&self) -> String;
}

impl BodyName for dn2d::ast::Literal {
    fn clone_name(&self) -> String {
        match self {
            dn2d::ast::Literal::Positive(a) | dn2d::ast::Literal::Negative(a) => a.name.0.clone(),
            dn2d::ast::Literal::Condition(_) => String::new(),
        }
    }
}

#[test]
fn strata_follow_dependencies() {
    let src = "d(x) :- c(x). c(x) :- b(x). b(x) :- a(x). a(x) :- src(x).";
    let program = parse(src);
    let v = Validator::new(&program);
    let ordered = v.validate().unwrap_or_else(|_| panic!("valid")).plan();
    let order: Vec<&str> = ordered.strata.iter().map(|s| s.relation_names[0].as_str()).collect();
    assert_eq!(order, vec!["a", "b", "c", "d"]);
}

#[test]
fn validate_plan_orders_components() {
    let program = parse("a(x) :- b(x). b(x) :- c(x).");
    let v = Validator::new(&program);
    let plan = v.validate_plan().unwrap_or_else(|_| panic!("valid"));
    let names: Vec<&str> = plan.iter().map(|c| v.dependency_graph.name(c[0]).as_str()).collect();
    assert_eq!(names, vec!["c", "b", "a"]);
}

#[test]
fn mixed_placement_reports_only_top_level_rules() {
    let src = "p(x) :- q(x).\n.iterate {\n  q(x) :- p(x).\n}";
    let program = parse(src);
    let v = Validator::new(&program);
    let errors = match v.validate() {
        Ok(_) => panic!("should fail"),
        Err(e) => e,
    };
    assert_eq!(errors.len(), 1);
    assert_eq!(errors[0].span.line_start, 1);
    assert!(errors[0].error_message.contains("'p'"));
}

#[test]
fn directives_keep_source_order() {
    let src = ".read a(x) from \"a\" as \"csv\". .write c to \"c\" as \"csv\". .read b(y) from \"b\" as \"json\". .write d to \"d\" as \"csv\". c(x) :- a(x).";
    let program = parse(src);
    let v = Validator::new(&program);
    let ordered = v.validate().unwrap_or_else(|_| panic!("valid")).plan();
    let ins: Vec<&str> = ordered.inputs.iter().map(|d| d.name.0.as_str()).collect();
    let outs: Vec<&str> = ordered.outputs.iter().map(|d| d.name.0.as_str()).collect();
    assert_eq!(ins, vec!["a", "b"]);
    assert_eq!(outs, vec!["c", "d"]);
    assert_eq!(ordered.inputs[1].format, "json");
}

#[test]
fn facts_only_give_no_strata() {
    let program = parse("e(1, 2). e(2, 3).");
    let v = Validator::new(&program);
    let ordered = v.validate().unwrap_or_else(|_| panic!("valid")).plan();
    assert!(ordered.strata.is_empty());
}

#[test]
fn validate_and_plan_in_one_call() {
    let program = parse(".read e(a, b) from \"e.csv\" as \"csv\". .iterate { r(x, y) :- e(x, y). r(x, z) :- e(x, y), r(y, z). } .write r to \"r.csv\" as \"csv\".");
    let v = Validator::new(&program);
    let ordered = v.validate_and_plan().unwrap_or_else(|_| panic!("valid"));
    assert_eq!(ordered.inputs.len(), 1);
    assert_eq!(ordered.outputs.len(), 1);
    assert_eq!(ordered.strata.len(), 1);
    assert!(ordered.strata[0].is_recursive);
    let bad = parse("r(x) :- r(x).");
    let v = Validator::new(&bad);
    assert_eq!(v.validate_and_plan().err().map(|e| e.len()), Some(1));
}
