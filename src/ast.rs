use vstd::prelude::*;

use crate::token::{float_spelling, integer_spelling, name_spelling};

verus! {

/// A relation, variable or column name.
#[derive(Debug)]
pub struct Identifier(pub String);

impl Clone for Identifier {
    fn clone(&self) -> (r: Self)
        ensures
            r == *self,
    {
        Identifier(self.0.clone())
    }
}

/// A literal value. A float keeps the decimal text it was written with.
#[derive(Debug)]
pub enum Constant {
    Integer(i64),
    Float(String),
    String(String),
    Boolean(bool),
}

impl Clone for Constant {
    fn clone(&self) -> (r: Self)
        ensures
            r == *self,
    {
        match self {
            Constant::Integer(i) => Constant::Integer(*i),
            Constant::Float(s) => Constant::Float(s.clone()),
            Constant::String(s) => Constant::String(s.clone()),
            Constant::Boolean(b) => Constant::Boolean(*b),
        }
    }
}

#[derive(Debug, Clone, Copy, PartialEq, Eq, Structural)]
pub enum AggregateFunction {
    Count,
    Sum,
    Min,
    Max,
    Avg,
}

#[derive(Debug)]
pub struct Aggregate {
    pub func: AggregateFunction,
    pub arg: Identifier,
}

impl Clone for Aggregate {
    fn clone(&self) -> (r: Self)
        ensures
            r == *self,
    {
        Aggregate { func: self.func, arg: self.arg.clone() }
    }
}

#[derive(Debug, Clone, Copy, PartialEq, Eq, Structural)]
pub enum BinaryOperator {
    Add,
    Sub,
    Mul,
    Div,
    Mod,
    Eq,
    NotEq,
    Lt,
    LtEq,
    Gt,
    GtEq,
}

#[derive(Debug, Clone, Copy, PartialEq, Eq, Structural)]
pub enum UnaryOperator {
    Neg,
}

#[derive(Debug)]
pub enum Expression {
    Constant(Constant),
    Variable(Identifier),
    Wildcard,
    Aggregate(Aggregate),
    Binary { left: Box<Expression>, op: BinaryOperator, right: Box<Expression> },
    Unary { op: UnaryOperator, expr: Box<Expression> },
    Paren(Box<Expression>),
}

impl Clone for Expression {
    fn clone(&self) -> (r: Self)
        ensures
            r == *self,
        decreases self,
    {
        match self {
            Expression::Constant(c) => Expression::Constant(c.clone()),
            Expression::Variable(v) => Expression::Variable(v.clone()),
            Expression::Wildcard => Expression::Wildcard,
            Expression::Aggregate(a) => Expression::Aggregate(a.clone()),
            Expression::Binary { left, op, right } => {
                let l: &Expression = left;
                let r: &Expression = right;
                Expression::Binary { left: Box::new(l.clone()), op: *op, right: Box::new(r.clone()) }
            },
            Expression::Unary { op, expr } => {
                let e: &Expression = expr;
                Expression::Unary { op: *op, expr: Box::new(e.clone()) }
            },
            Expression::Paren(expr) => {
                let e: &Expression = expr;
                Expression::Paren(Box::new(e.clone()))
            },
        }
    }
}

/// A relation name applied to a list of terms.
#[derive(Debug)]
pub struct Atom {
    pub name: Identifier,
    pub terms: Vec<Expression>,
}

/// The value of an atom: its name and its terms.
pub struct AtomModel {
    pub name: Seq<char>,
    pub terms: Seq<Expression>,
}

impl View for Atom {
    type V = AtomModel;

    open spec fn view(&self) -> AtomModel {
        AtomModel { name: self.name.0@, terms: self.terms@ }
    }
}

impl Clone for Atom {
    fn clone(&self) -> (r: Self)
        ensures
            r@ == self@,
    {
        let terms = self.terms.clone();
        assert(terms@ =~= self.terms@);
        Atom { name: self.name.clone(), terms }
    }
}

#[derive(Debug)]
pub enum Literal {
    Positive(Atom),
    Negative(Atom),
    Condition(Expression),
}

pub enum LiteralModel {
    Positive(AtomModel),
    Negative(AtomModel),
    Condition(Expression),
}

impl View for Literal {
    type V = LiteralModel;

    open spec fn view(&self) -> LiteralModel {
        match self {
            Literal::Positive(a) => LiteralModel::Positive(a@),
            Literal::Negative(a) => LiteralModel::Negative(a@),
            Literal::Condition(e) => LiteralModel::Condition(*e),
        }
    }
}

impl Clone for Literal {
    fn clone(&self) -> (r: Self)
        ensures
            r@ == self@,
    {
        match self {
            Literal::Positive(a) => Literal::Positive(a.clone()),
            Literal::Negative(a) => Literal::Negative(a.clone()),
            Literal::Condition(e) => Literal::Condition(e.clone()),
        }
    }
}

/// The source lines, 1-based and inclusive, that a rule was read from.
#[derive(Debug, Clone, Copy, PartialEq, Eq, Structural)]
pub struct RuleSpan {
    pub line_start: usize,
    pub line_end: usize,
}

#[derive(Debug)]
pub struct Rule {
    pub head: Atom,
    pub body: Vec<Literal>,
    pub span: RuleSpan,
}

pub struct RuleModel {
    pub head: AtomModel,
    pub body: Seq<LiteralModel>,
    pub span: RuleSpan,
}

impl View for Rule {
    type V = RuleModel;

    open spec fn view(&self) -> RuleModel {
        RuleModel { head: self.head@, body: self.body@.map_values(|l: Literal| l@), span: self.span }
    }
}

impl Clone for Rule {
    fn clone(&self) -> (r: Self)
        ensures
            r@ == self@,
    {
        let body = self.body.clone();
        assert(body@.map_values(|l: Literal| l@) =~= self.body@.map_values(|l: Literal| l@));
        Rule { head: self.head.clone(), body, span: self.span }
    }
}

#[derive(Debug)]
pub struct Fact {
    pub head: Atom,
}

#[derive(Debug)]
pub enum RuleOrFact {
    Rule(Rule),
    Fact(Fact),
}

#[derive(Debug)]
pub struct ReadDirective {
    pub name: Identifier,
    pub columns: Vec<Identifier>,
    pub path: String,
    pub format: String,
}

pub struct ReadModel {
    pub name: Seq<char>,
    pub columns: Seq<Identifier>,
    pub path: Seq<char>,
    pub format: Seq<char>,
}

impl View for ReadDirective {
    type V = ReadModel;

    open spec fn view(&self) -> ReadModel {
        ReadModel { name: self.name.0@, columns: self.columns@, path: self.path@, format: self.format@ }
    }
}

impl Clone for ReadDirective {
    fn clone(&self) -> (r: Self)
        ensures
            r@ == self@,
    {
        let columns = self.columns.clone();
        assert(columns@ =~= self.columns@);
        ReadDirective {
            name: self.name.clone(),
            columns,
            path: self.path.clone(),
            format: self.format.clone(),
        }
    }
}

#[derive(Debug)]
pub struct WriteDirective {
    pub name: Identifier,
    pub path: String,
    pub format: String,
}

impl Clone for WriteDirective {
    fn clone(&self) -> (r: Self)
        ensures
            r == *self,
    {
        WriteDirective { name: self.name.clone(), path: self.path.clone(), format: self.format.clone() }
    }
}

#[derive(Debug)]
pub struct IterationBlock {
    pub rules: Vec<RuleOrFact>,
}

#[derive(Debug)]
pub enum Statement {
    Read(ReadDirective),
    Write(WriteDirective),
    Iterate(IterationBlock),
    Rule(Rule),
    Fact(Fact),
}

#[derive(Debug)]
pub struct Program {
    pub statements: Vec<Statement>,
}


// ---------------------------------------------------------------------
// The canonical token spellings of each syntax node: what the parser reads
// a node from, and what the node re-emits when it is printed back.
// ---------------------------------------------------------------------

pub open spec fn quoted(s: Seq<char>) -> Seq<char> {
    seq!['"'] + s + seq!['"']
}

pub open spec fn constant_spelling(c: Constant) -> Seq<char> {
    match c {
        Constant::Integer(v) => integer_spelling(v as int),
        Constant::Float(s) => float_spelling(s@),
        Constant::String(s) => quoted(s@),
        Constant::Boolean(b) => if b {
            "true"@
        } else {
            "false"@
        },
    }
}

pub open spec fn aggregate_spelling(f: AggregateFunction) -> Seq<char> {
    match f {
        AggregateFunction::Count => "count"@,
        AggregateFunction::Sum => "sum"@,
        AggregateFunction::Min => "min"@,
        AggregateFunction::Max => "max"@,
        AggregateFunction::Avg => "avg"@,
    }
}

pub open spec fn operator_spelling(op: BinaryOperator) -> Seq<char> {
    match op {
        BinaryOperator::Add => "+"@,
        BinaryOperator::Sub => "-"@,
        BinaryOperator::Mul => "*"@,
        BinaryOperator::Div => "/"@,
        BinaryOperator::Mod => "%"@,
        BinaryOperator::Eq => "=="@,
        BinaryOperator::NotEq => "!="@,
        BinaryOperator::Lt => "<"@,
        BinaryOperator::LtEq => "<="@,
        BinaryOperator::Gt => ">"@,
        BinaryOperator::GtEq => ">="@,
    }
}

/// The binding level of a binary operator: comparisons bind loosest (3),
/// then `+ -` (2), then `* / %` (1); prefix minus and primaries are level 0.
pub open spec fn operator_level(op: BinaryOperator) -> int {
    match op {
        BinaryOperator::Add | BinaryOperator::Sub => 2,
        BinaryOperator::Mul | BinaryOperator::Div | BinaryOperator::Mod => 1,
        _ => 3,
    }
}

/// `e` is shaped as the grammar's precedence and left associativity build
/// it, when read at binding level `level` or tighter.
pub open spec fn well_shaped(e: Expression, level: int) -> bool
    decreases e,
{
    match e {
        Expression::Binary { left, op, right } => {
            &&& operator_level(op) <= level
            &&& well_shaped(*left, operator_level(op))
            &&& well_shaped(*right, operator_level(op) - 1)
        },
        Expression::Unary { op: _, expr } => well_shaped(*expr, 0),
        Expression::Paren(inner) => well_shaped(*inner, 3),
        _ => true,
    }
}

pub open spec fn expression_text(e: Expression) -> Seq<Seq<char>>
    decreases e,
{
    match e {
        Expression::Constant(c) => seq![constant_spelling(c)],
        Expression::Variable(v) => seq![name_spelling(v.0@)],
        Expression::Wildcard => seq!["_"@],
        Expression::Aggregate(a) => seq![
            name_spelling(aggregate_spelling(a.func)),
            "("@,
            name_spelling(a.arg.0@),
            ")"@,
        ],
        Expression::Binary { left, op, right } => expression_text(*left) + seq![
            operator_spelling(op),
        ] + expression_text(*right),
        Expression::Unary { op: _, expr } => seq!["-"@] + expression_text(*expr),
        Expression::Paren(inner) => seq!["("@] + expression_text(*inner) + seq![")"@],
    }
}

/// The items' spellings joined by commas.
pub open spec fn comma_list(items: Seq<Seq<Seq<char>>>) -> Seq<Seq<char>>
    decreases items.len(),
{
    if items.len() == 0 {
        Seq::empty()
    } else if items.len() == 1 {
        items[0]
    } else {
        comma_list(items.drop_last()) + seq![","@] + items.last()
    }
}

/// The items' spellings one after another.
pub open spec fn concat(items: Seq<Seq<Seq<char>>>) -> Seq<Seq<char>>
    decreases items.len(),
{
    if items.len() == 0 {
        Seq::empty()
    } else {
        concat(items.drop_last()) + items.last()
    }
}

pub open spec fn identifier_list_text(ids: Seq<Identifier>) -> Seq<Seq<char>> {
    comma_list(ids.map_values(|i: Identifier| seq![name_spelling(i.0@)]))
}

pub open spec fn expression_list_text(es: Seq<Expression>) -> Seq<Seq<char>> {
    comma_list(es.map_values(|e: Expression| expression_text(e)))
}

pub open spec fn atom_text(a: Atom) -> Seq<Seq<char>> {
    seq![name_spelling(a.name.0@), "("@] + expression_list_text(a.terms@) + seq![")"@]
}

pub open spec fn literal_text(l: Literal) -> Seq<Seq<char>> {
    match l {
        Literal::Positive(a) => atom_text(a),
        Literal::Negative(a) => seq!["not"@] + atom_text(a),
        Literal::Condition(e) => expression_text(e),
    }
}

pub open spec fn rule_text(r: Rule) -> Seq<Seq<char>> {
    atom_text(r.head) + seq![":-"@] + comma_list(r.body@.map_values(|l: Literal| literal_text(l)))
        + seq!["."@]
}

pub open spec fn fact_text(f: Fact) -> Seq<Seq<char>> {
    atom_text(f.head) + seq!["."@]
}

pub open spec fn rule_or_fact_text(x: RuleOrFact) -> Seq<Seq<char>> {
    match x {
        RuleOrFact::Rule(r) => rule_text(r),
        RuleOrFact::Fact(f) => fact_text(f),
    }
}

pub open spec fn read_text(d: ReadDirective) -> Seq<Seq<char>> {
    seq![".read"@, name_spelling(d.name.0@), "("@] + identifier_list_text(d.columns@) + seq![
        ")"@,
        "from"@,
        quoted(d.path@),
        "as"@,
        quoted(d.format@),
        "."@,
    ]
}

pub open spec fn write_text(d: WriteDirective) -> Seq<Seq<char>> {
    seq![".write"@, name_spelling(d.name.0@), "to"@, quoted(d.path@), "as"@, quoted(d.format@), "."@]
}

pub open spec fn iteration_text(b: IterationBlock) -> Seq<Seq<char>> {
    seq![".iterate"@, "{"@] + concat(b.rules@.map_values(|x: RuleOrFact| rule_or_fact_text(x))) + seq![
        "}"@,
    ]
}

pub open spec fn statement_text(s: Statement) -> Seq<Seq<char>> {
    match s {
        Statement::Read(d) => read_text(d),
        Statement::Write(d) => write_text(d),
        Statement::Iterate(b) => iteration_text(b),
        Statement::Rule(r) => rule_text(r),
        Statement::Fact(f) => fact_text(f),
    }
}

pub open spec fn program_text(p: Program) -> Seq<Seq<char>> {
    concat(p.statements@.map_values(|s: Statement| statement_text(s)))
}

pub proof fn lemma_comma_list_one(x: Seq<Seq<char>>)
    ensures
        comma_list(seq![x]) == x,
{
}

pub proof fn lemma_comma_list_push(items: Seq<Seq<Seq<char>>>, x: Seq<Seq<char>>)
    requires
        items.len() > 0,
    ensures
        comma_list(items.push(x)) == comma_list(items) + seq![","@] + x,
{
    assert(items.push(x).drop_last() =~= items);
}

pub proof fn lemma_concat_push(items: Seq<Seq<Seq<char>>>, x: Seq<Seq<char>>)
    ensures
        concat(items.push(x)) == concat(items) + x,
{
    assert(items.push(x).drop_last() =~= items);
}

pub proof fn lemma_rule_or_fact_nonempty(x: RuleOrFact)
    ensures
        rule_or_fact_text(x).len() > 0,
{
}

pub proof fn lemma_statement_nonempty(s: Statement)
    ensures
        statement_text(s).len() > 0,
{
}
} // verus!
