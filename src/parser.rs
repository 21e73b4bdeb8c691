use vstd::prelude::*;

use crate::ast::{
    atom_text, comma_list, concat, constant_spelling, expression_list_text, expression_text,
    identifier_list_text, iteration_text, lemma_comma_list_one, lemma_comma_list_push,
    lemma_concat_push, lemma_rule_or_fact_nonempty, lemma_statement_nonempty, literal_text,
    program_text, quoted, read_text, rule_or_fact_text, statement_text, well_shaped, write_text,
    Aggregate, AggregateFunction, Atom, BinaryOperator, Constant, Expression, Fact, Identifier,
    IterationBlock, Literal, Program, ReadDirective, Rule, RuleOrFact, RuleSpan, Statement,
    UnaryOperator, WriteDirective,
};
use crate::lexer::chars_of;
use crate::source::{line_at, line_of, same_text};
use crate::span::Span;
use crate::token::{name_spelling, lemma_spellings_one, lemma_spellings_split, spelling, spellings, Token, TokenKind};

verus! {

/// A number for each token kind, the same for two tokens of one kind
/// whatever they carry.
pub open spec fn kind_code(k: TokenKind) -> int {
    match k {
        TokenKind::Read => 0,
        TokenKind::From => 1,
        TokenKind::Write => 2,
        TokenKind::To => 3,
        TokenKind::As => 4,
        TokenKind::Iterate => 5,
        TokenKind::LParen => 6,
        TokenKind::RParen => 7,
        TokenKind::LBrace => 8,
        TokenKind::RBrace => 9,
        TokenKind::Comma => 10,
        TokenKind::Dot => 11,
        TokenKind::ColonDash => 12,
        TokenKind::Wildcard => 13,
        TokenKind::Not => 14,
        TokenKind::Eq => 15,
        TokenKind::NotEq => 16,
        TokenKind::Lt => 17,
        TokenKind::LtEq => 18,
        TokenKind::Gt => 19,
        TokenKind::GtEq => 20,
        TokenKind::Plus => 21,
        TokenKind::Minus => 22,
        TokenKind::Star => 23,
        TokenKind::Slash => 24,
        TokenKind::Percent => 25,
        TokenKind::Bang => 26,
        TokenKind::Identifier(_) => 27,
        TokenKind::Integer(_) => 28,
        TokenKind::Float(_) => 29,
        TokenKind::String(_) => 30,
        TokenKind::Boolean(_) => 31,
        TokenKind::Eof => 32,
        TokenKind::Illegal => 33,
    }
}

/// A token kind that carries nothing.
pub open spec fn is_plain(k: TokenKind) -> bool {
    !(k is Identifier || k is Integer || k is Float || k is String || k is Boolean)
}

pub proof fn lemma_same_plain_kind(a: TokenKind, b: TokenKind)
    requires
        kind_code(a) == kind_code(b),
        is_plain(b),
    ensures
        a == b,
{
    match a {
        TokenKind::Identifier(_) => {},
        TokenKind::Integer(_) => {},
        TokenKind::Float(_) => {},
        TokenKind::String(_) => {},
        TokenKind::Boolean(_) => {},
        _ => {
            match b {
                TokenKind::Identifier(_) => {},
                TokenKind::Integer(_) => {},
                TokenKind::Float(_) => {},
                TokenKind::String(_) => {},
                TokenKind::Boolean(_) => {},
                _ => {},
            }
        },
    }
}

/// Two token kinds are the same kind, whatever they carry.
pub open spec fn same_kind(a: TokenKind, b: TokenKind) -> bool {
    kind_code(a) == kind_code(b)
}

fn kind_number(k: &TokenKind) -> (r: u8)
    ensures
        r as int == kind_code(*k),
{
    match k {
        TokenKind::Read => 0,
        TokenKind::From => 1,
        TokenKind::Write => 2,
        TokenKind::To => 3,
        TokenKind::As => 4,
        TokenKind::Iterate => 5,
        TokenKind::LParen => 6,
        TokenKind::RParen => 7,
        TokenKind::LBrace => 8,
        TokenKind::RBrace => 9,
        TokenKind::Comma => 10,
        TokenKind::Dot => 11,
        TokenKind::ColonDash => 12,
        TokenKind::Wildcard => 13,
        TokenKind::Not => 14,
        TokenKind::Eq => 15,
        TokenKind::NotEq => 16,
        TokenKind::Lt => 17,
        TokenKind::LtEq => 18,
        TokenKind::Gt => 19,
        TokenKind::GtEq => 20,
        TokenKind::Plus => 21,
        TokenKind::Minus => 22,
        TokenKind::Star => 23,
        TokenKind::Slash => 24,
        TokenKind::Percent => 25,
        TokenKind::Bang => 26,
        TokenKind::Identifier(_) => 27,
        TokenKind::Integer(_) => 28,
        TokenKind::Float(_) => 29,
        TokenKind::String(_) => 30,
        TokenKind::Boolean(_) => 31,
        TokenKind::Eof => 32,
        TokenKind::Illegal => 33,
    }
}

/// The name under which a token kind is shown in messages.
pub open spec fn kind_text(k: TokenKind) -> Seq<char> {
    match k {
        TokenKind::Read => "Read"@,
        TokenKind::From => "From"@,
        TokenKind::Write => "Write"@,
        TokenKind::To => "To"@,
        TokenKind::As => "As"@,
        TokenKind::Iterate => "Iterate"@,
        TokenKind::LParen => "LParen"@,
        TokenKind::RParen => "RParen"@,
        TokenKind::LBrace => "LBrace"@,
        TokenKind::RBrace => "RBrace"@,
        TokenKind::Comma => "Comma"@,
        TokenKind::Dot => "Dot"@,
        TokenKind::ColonDash => "ColonDash"@,
        TokenKind::Wildcard => "Wildcard"@,
        TokenKind::Not => "Not"@,
        TokenKind::Eq => "Eq"@,
        TokenKind::NotEq => "NotEq"@,
        TokenKind::Lt => "Lt"@,
        TokenKind::LtEq => "LtEq"@,
        TokenKind::Gt => "Gt"@,
        TokenKind::GtEq => "GtEq"@,
        TokenKind::Plus => "Plus"@,
        TokenKind::Minus => "Minus"@,
        TokenKind::Star => "Star"@,
        TokenKind::Slash => "Slash"@,
        TokenKind::Percent => "Percent"@,
        TokenKind::Bang => "Bang"@,
        TokenKind::Eof => "Eof"@,
        TokenKind::Illegal => "Illegal"@,
        TokenKind::Identifier(s) => "Identifier("@ + s@ + ")"@,
        TokenKind::Integer(_) => "Integer"@,
        TokenKind::Float(s) => "Float("@ + s@ + ")"@,
        TokenKind::String(s) => "String(\""@ + s@ + "\")"@,
        TokenKind::Boolean(b) => if b {
            "Boolean(true)"@
        } else {
            "Boolean(false)"@
        },
    }
}

/// The name of a token kind, as messages show it.
pub fn kind_name(k: &TokenKind) -> (r: String)
    ensures
        r@ == kind_text(*k),
{
    let name = match k {
        TokenKind::Read => "Read",
        TokenKind::From => "From",
        TokenKind::Write => "Write",
        TokenKind::To => "To",
        TokenKind::As => "As",
        TokenKind::Iterate => "Iterate",
        TokenKind::LParen => "LParen",
        TokenKind::RParen => "RParen",
        TokenKind::LBrace => "LBrace",
        TokenKind::RBrace => "RBrace",
        TokenKind::Comma => "Comma",
        TokenKind::Dot => "Dot",
        TokenKind::ColonDash => "ColonDash",
        TokenKind::Wildcard => "Wildcard",
        TokenKind::Not => "Not",
        TokenKind::Eq => "Eq",
        TokenKind::NotEq => "NotEq",
        TokenKind::Lt => "Lt",
        TokenKind::LtEq => "LtEq",
        TokenKind::Gt => "Gt",
        TokenKind::GtEq => "GtEq",
        TokenKind::Plus => "Plus",
        TokenKind::Minus => "Minus",
        TokenKind::Star => "Star",
        TokenKind::Slash => "Slash",
        TokenKind::Percent => "Percent",
        TokenKind::Bang => "Bang",
        TokenKind::Identifier(s) => {
            let mut r = String::from_str("Identifier(");
            r.append(s.as_str());
            r.append(")");
            return r;
        },
        TokenKind::Integer(_) => "Integer",
        TokenKind::Float(s) => {
            let mut r = String::from_str("Float(");
            r.append(s.as_str());
            r.append(")");
            return r;
        },
        TokenKind::String(s) => {
            let mut r = String::from_str("String(\"");
            r.append(s.as_str());
            r.append("\")");
            return r;
        },
        TokenKind::Boolean(b) => if *b {
            "Boolean(true)"
        } else {
            "Boolean(false)"
        },
        TokenKind::Eof => "Eof",
        TokenKind::Illegal => "Illegal",
    };
    String::from_str(name)
}

/// The token at `i` is a whole primary expression by itself: a constant,
/// `_`, or a name that no `(` follows.
pub open spec fn simple_term_at(ts: Seq<Token>, i: int) -> bool {
    &&& 0 <= i < ts.len()
    &&& {
        ||| ts[i].kind is Integer
        ||| ts[i].kind is Float
        ||| ts[i].kind is String
        ||| ts[i].kind is Boolean
        ||| ts[i].kind is Wildcard
        ||| ts[i].kind is Identifier && !(i + 1 < ts.len() && ts[i + 1].kind is LParen)
    }
}

pub open spec fn is_negation(k: TokenKind) -> bool {
    k is Not || k is Bang
}

pub open spec fn is_multiplicative(k: TokenKind) -> bool {
    k is Star || k is Slash || k is Percent
}

pub open spec fn is_additive(k: TokenKind) -> bool {
    k is Plus || k is Minus
}

pub open spec fn is_comparison(k: TokenKind) -> bool {
    k is Eq || k is NotEq || k is Lt || k is LtEq || k is Gt || k is GtEq
}

/// The token at `i` is a simple term, and the token after it (if any) is
/// not an operator of binding level `level` or tighter.
pub open spec fn term_ends_at(ts: Seq<Token>, i: int, level: int) -> bool {
    &&& simple_term_at(ts, i)
    &&& i + 1 < ts.len() ==> {
        let k = ts[i + 1].kind;
        &&& !(level >= 1 && is_multiplicative(k))
        &&& !(level >= 2 && is_additive(k))
        &&& !(level >= 3 && is_comparison(k))
    }
}

/// Where an atom with `n` terms that starts at `i` ends.
pub open spec fn atom_end(i: int, n: int) -> int {
    if n == 0 {
        i + 3
    } else {
        i + 2 * n + 2
    }
}

/// The tokens from `i` are `name ( t1 , ... , tn )` with every `tk` a
/// simple term.
pub open spec fn simple_atom_at(ts: Seq<Token>, i: int, n: int) -> bool {
    &&& 0 <= i
    &&& 0 <= n
    &&& atom_end(i, n) <= ts.len()
    &&& ts[i].kind is Identifier
    &&& ts[i + 1].kind is LParen
    &&& ts[atom_end(i, n) - 1].kind is RParen
    &&& forall|m: int| 0 <= m < n ==> #[trigger] simple_term_at(ts, i + 2 + 2 * m)
    &&& forall|m: int| 0 <= m < n - 1 ==> (#[trigger] ts[i + 3 + 2 * m]).kind is Comma
}

/// The tokens from `i` are `.write name to "path" as "format" .`.
pub open spec fn write_directive_at(ts: Seq<Token>, i: int) -> bool {
    &&& 0 <= i
    &&& i + 7 <= ts.len()
    &&& ts[i].kind is Write
    &&& ts[i + 1].kind is Identifier
    &&& ts[i + 2].kind is To
    &&& ts[i + 3].kind is String
    &&& ts[i + 4].kind is As
    &&& ts[i + 5].kind is String
    &&& ts[i + 6].kind is Dot
}

/// The tokens from `i` are `.read name ( c1 , ... , cn ) from "path" as
/// "format" .` with `n >= 1` columns; they end at `i + 2 * n + 8`.
pub open spec fn read_directive_at(ts: Seq<Token>, i: int, n: int) -> bool {
    &&& 0 <= i
    &&& 1 <= n
    &&& i + 2 * n + 8 <= ts.len()
    &&& ts[i].kind is Read
    &&& ts[i + 1].kind is Identifier
    &&& ts[i + 2].kind is LParen
    &&& forall|m: int| 0 <= m < n ==> (#[trigger] ts[i + 3 + 2 * m]).kind is Identifier
    &&& forall|m: int| 0 <= m < n - 1 ==> (#[trigger] ts[i + 4 + 2 * m]).kind is Comma
    &&& ts[i + 2 * n + 2].kind is RParen
    &&& ts[i + 2 * n + 3].kind is From
    &&& ts[i + 2 * n + 4].kind is String
    &&& ts[i + 2 * n + 5].kind is As
    &&& ts[i + 2 * n + 6].kind is String
    &&& ts[i + 2 * n + 7].kind is Dot
}

/// Where term `m` of an atom that starts at `i` starts, given where each
/// term ends.
pub open spec fn term_start(i: int, ends: Seq<int>, m: int) -> int {
    if m == 0 {
        i + 2
    } else {
        ends[m - 1] + 1
    }
}

/// The tokens from `i` are `name ( e1 , ... , en )` with each `ek` an
/// expression of the grammar that ends at `ends[k]` (`n` may be 0).
pub open spec fn atom_at(ts: Seq<Token>, i: int, ends: Seq<int>) -> bool {
    &&& 0 <= i
    &&& i + 2 < ts.len()
    &&& ts[i].kind is Identifier
    &&& ts[i + 1].kind is LParen
    &&& ends.len() == 0 ==> ts[i + 2].kind is RParen
    &&& forall|m: int| 0 <= m < ends.len() ==> #[trigger] expr_end(ts, term_start(i, ends, m)) == Some(ends[m])
    &&& forall|m: int| 0 <= m < ends.len() ==> 0 <= #[trigger] ends[m] < ts.len()
    &&& forall|m: int| 0 <= m < ends.len() - 1 ==> (#[trigger] ts[ends[m]]).kind is Comma
    &&& ends.len() > 0 ==> ts[ends.last()].kind is RParen
}

/// Where such an atom ends.
pub open spec fn atom_at_end(i: int, ends: Seq<int>) -> int {
    if ends.len() == 0 {
        i + 3
    } else {
        ends.last() + 1
    }
}

/// An expression never starts with `)`.
proof fn lemma_expr_start(ts: Seq<Token>, i: int)
    requires
        expr_end(ts, i) is Some,
    ensures
        0 <= i < ts.len(),
        !(ts[i].kind is RParen),
        !(ts[i].kind is Comma),
{
    assert(add_end(ts, i) is Some);
    assert(mul_end(ts, i) is Some);
    assert(unary_end(ts, i) is Some);
}

/// The tokens from `i` are a fact `name ( e1 , ... , en ) .` whose terms
/// are expressions, term `k` ending at `n[k]`.
pub open spec fn fact_at(ts: Seq<Token>, i: int, n: Seq<int>) -> bool {
    &&& atom_at(ts, i, n)
    &&& atom_at_end(i, n) < ts.len()
    &&& ts[atom_at_end(i, n)].kind is Dot
}

/// The tokens from `i` are `.iterate { }`.
pub open spec fn empty_block_at(ts: Seq<Token>, i: int) -> bool {
    &&& 0 <= i
    &&& i + 3 <= ts.len()
    &&& ts[i].kind is Iterate
    &&& ts[i + 1].kind is LBrace
    &&& ts[i + 2].kind is RBrace
}

/// The token at `i` starts a condition literal: it is neither a negation
/// nor a name followed by `(`.
pub open spec fn condition_at(ts: Seq<Token>, i: int) -> bool {
    &&& 0 <= i < ts.len()
    &&& !is_negation(ts[i].kind)
    &&& !(ts[i].kind is Identifier && i + 1 < ts.len() && ts[i + 1].kind is LParen)
}

/// The tokens `i..j` are one literal of the grammar: an atom, an atom after
/// `not` or `!`, or a condition expression.
pub open spec fn literal_span(ts: Seq<Token>, i: int, j: int) -> bool {
    ||| exists|ends: Seq<int>| #[trigger] atom_at(ts, i, ends) && j == atom_at_end(i, ends)
    ||| 0 <= i < ts.len() && is_negation(ts[i].kind) && exists|ends: Seq<int>|
        #[trigger] atom_at(ts, i + 1, ends) && j == atom_at_end(i + 1, ends)
    ||| condition_at(ts, i) && expr_end(ts, i) == Some(j)
}

/// Where literal `m` of a rule body starts, given where the head ends and
/// where each literal ends.
pub open spec fn literal_start(head_end: int, ends: Seq<int>, m: int) -> int {
    if m == 0 {
        head_end + 1
    } else {
        ends[m - 1] + 1
    }
}

/// The tokens from `i` are a rule `head :- l1 , ... , lk .` whose head is an
/// atom with expression terms ending at `n` and whose literal `m` ends at
/// `ends[m]`.
pub open spec fn rule_at(ts: Seq<Token>, i: int, n: Seq<int>, ends: Seq<int>) -> bool {
    &&& atom_at(ts, i, n)
    &&& atom_at_end(i, n) < ts.len()
    &&& ts[atom_at_end(i, n)].kind is ColonDash
    &&& ends.len() >= 1
    &&& forall|m: int|
        0 <= m < ends.len() ==> #[trigger] literal_span(
            ts,
            literal_start(atom_at_end(i, n), ends, m),
            ends[m],
        )
    &&& forall|m: int| 0 <= m < ends.len() - 1 ==> (#[trigger] ts[ends[m]]).kind is Comma
    &&& forall|m: int| 0 <= m < ends.len() ==> 0 <= #[trigger] ends[m] < ts.len()
    &&& ends.last() < ts.len()
    &&& ts[ends.last()].kind is Dot
}

/// The tokens `i..j` are a fact or a rule of the grammar.
pub open spec fn item_span(ts: Seq<Token>, i: int, j: int) -> bool {
    ||| exists|n: Seq<int>| #[trigger] fact_at(ts, i, n) && j == atom_at_end(i, n) + 1
    ||| exists|n: Seq<int>, ends: Seq<int>| #[trigger] rule_at(ts, i, n, ends) && j == ends.last() + 1
}

/// The tokens from `i` are `.iterate { ... }` around facts and rules,
/// item `k` spanning `bounds[k]..bounds[k + 1]` and `}` standing at
/// `bounds.last()`.
pub open spec fn block_at(ts: Seq<Token>, i: int, bounds: Seq<int>) -> bool {
    &&& 0 <= i
    &&& i + 2 < ts.len()
    &&& ts[i].kind is Iterate
    &&& ts[i + 1].kind is LBrace
    &&& bounds.len() >= 1
    &&& bounds[0] == i + 2
    &&& 0 <= bounds.last() < ts.len()
    &&& ts[bounds.last()].kind is RBrace
    &&& forall|k: int| 0 <= k < bounds.len() - 1 ==> #[trigger] item_span(ts, bounds[k], bounds[k + 1])
}

/// The tokens `i..j` are one statement of a shape the parser always reads:
/// a directive, a fact, a rule, or an iteration block of facts and rules.
pub open spec fn statement_span(ts: Seq<Token>, i: int, j: int) -> bool {
    ||| write_directive_at(ts, i) && j == i + 7
    ||| exists|n: int| #[trigger] read_directive_at(ts, i, n) && j == i + 2 * n + 8
    ||| exists|bounds: Seq<int>| #[trigger] block_at(ts, i, bounds) && j == bounds.last() + 1
    ||| exists|n: Seq<int>| #[trigger] fact_at(ts, i, n) && j == atom_at_end(i, n) + 1
    ||| exists|n: Seq<int>, ends: Seq<int>| #[trigger] rule_at(ts, i, n, ends) && j == ends.last() + 1
}

/// The tokens from `bounds[0]` to the end are statements of those shapes,
/// statement `k` spanning `bounds[k]..bounds[k + 1]`.
pub open spec fn program_at(ts: Seq<Token>, bounds: Seq<int>) -> bool {
    &&& bounds.len() >= 1
    &&& bounds.last() == ts.len()
    &&& forall|k: int| 0 <= k < bounds.len() - 1 ==> #[trigger] statement_span(ts, bounds[k], bounds[k + 1])
}

/// The aggregate function that a name calls, if any.
pub open spec fn aggregate_named(n: Seq<char>) -> Option<AggregateFunction> {
    if n == "count"@ {
        Some(AggregateFunction::Count)
    } else if n == "sum"@ {
        Some(AggregateFunction::Sum)
    } else if n == "min"@ {
        Some(AggregateFunction::Min)
    } else if n == "max"@ {
        Some(AggregateFunction::Max)
    } else if n == "avg"@ {
        Some(AggregateFunction::Avg)
    } else {
        None
    }
}

/// The constant that a literal token is.
pub open spec fn constant_of(k: TokenKind) -> Option<Constant> {
    match k {
        TokenKind::Integer(i) => Some(Constant::Integer(i)),
        TokenKind::Float(f) => Some(Constant::Float(f)),
        TokenKind::String(s) => Some(Constant::String(s)),
        TokenKind::Boolean(b) => Some(Constant::Boolean(b)),
        _ => None,
    }
}

/// The expression that a lone token is: a constant, `_`, or a variable.
pub open spec fn primary_of(k: TokenKind) -> Option<Expression> {
    match k {
        TokenKind::Integer(i) => Some(Expression::Constant(Constant::Integer(i))),
        TokenKind::Float(f) => Some(Expression::Constant(Constant::Float(f))),
        TokenKind::String(s) => Some(Expression::Constant(Constant::String(s))),
        TokenKind::Boolean(b) => Some(Expression::Constant(Constant::Boolean(b))),
        TokenKind::Wildcard => Some(Expression::Wildcard),
        TokenKind::Identifier(n) => Some(Expression::Variable(Identifier(n))),
        _ => None,
    }
}

// The expression grammar as a recognizer over tokens. Each function gives
// where the phrase that starts at `i` ends, or `None` when no such phrase
// starts there:
//   Primary := INT | FLOAT | STRING | BOOL | "_" | IDENT "(" IDENT ")" | IDENT
//            | "(" Expr ")"
//   Unary   := "-" Unary | Primary
//   Mul     := Unary (("*" | "/" | "%") Unary)*
//   Add     := Mul (("+" | "-") Mul)*
//   Expr    := Add (("==" | "!=" | "<" | "<=" | ">" | ">=") Add)*

pub open spec fn primary_end(ts: Seq<Token>, i: int) -> Option<int>
    decreases ts.len() - i, 0int,
{
    if !(0 <= i < ts.len()) {
        None
    } else {
        match ts[i].kind {
            TokenKind::Integer(_) | TokenKind::Float(_) | TokenKind::String(_) | TokenKind::Boolean(_)
            | TokenKind::Wildcard => Some(i + 1),
            TokenKind::Identifier(n) => if i + 1 < ts.len() && ts[i + 1].kind is LParen {
                if i + 3 < ts.len() && ts[i + 2].kind is Identifier && ts[i + 3].kind is RParen
                    && aggregate_named(n@) is Some {
                    Some(i + 4)
                } else {
                    None
                }
            } else {
                Some(i + 1)
            },
            TokenKind::LParen => match expr_end(ts, i + 1) {
                Some(j) => if i + 1 < j < ts.len() && ts[j].kind is RParen {
                    Some(j + 1)
                } else {
                    None
                },
                None => None,
            },
            _ => None,
        }
    }
}

pub open spec fn unary_end(ts: Seq<Token>, i: int) -> Option<int>
    decreases ts.len() - i, 1int,
{
    if !(0 <= i < ts.len()) {
        None
    } else if ts[i].kind is Minus {
        unary_end(ts, i + 1)
    } else {
        primary_end(ts, i)
    }
}

pub open spec fn mul_rest(ts: Seq<Token>, j: int) -> Option<int>
    decreases ts.len() - j, 2int,
{
    if 0 <= j < ts.len() && is_multiplicative(ts[j].kind) {
        match unary_end(ts, j + 1) {
            Some(k) => if j < k <= ts.len() {
                mul_rest(ts, k)
            } else {
                None
            },
            None => None,
        }
    } else {
        Some(j)
    }
}

pub open spec fn mul_end(ts: Seq<Token>, i: int) -> Option<int>
    decreases ts.len() - i, 3int,
{
    if !(0 <= i <= ts.len()) {
        None
    } else {
        match unary_end(ts, i) {
            Some(j) => if i < j <= ts.len() {
                mul_rest(ts, j)
            } else {
                None
            },
            None => None,
        }
    }
}

pub open spec fn add_rest(ts: Seq<Token>, j: int) -> Option<int>
    decreases ts.len() - j, 4int,
{
    if 0 <= j < ts.len() && is_additive(ts[j].kind) {
        match mul_end(ts, j + 1) {
            Some(k) => if j < k <= ts.len() {
                add_rest(ts, k)
            } else {
                None
            },
            None => None,
        }
    } else {
        Some(j)
    }
}

pub open spec fn add_end(ts: Seq<Token>, i: int) -> Option<int>
    decreases ts.len() - i, 5int,
{
    if !(0 <= i <= ts.len()) {
        None
    } else {
        match mul_end(ts, i) {
            Some(j) => if i < j <= ts.len() {
                add_rest(ts, j)
            } else {
                None
            },
            None => None,
        }
    }
}

pub open spec fn cmp_rest(ts: Seq<Token>, j: int) -> Option<int>
    decreases ts.len() - j, 6int,
{
    if 0 <= j < ts.len() && is_comparison(ts[j].kind) {
        match add_end(ts, j + 1) {
            Some(k) => if j < k <= ts.len() {
                cmp_rest(ts, k)
            } else {
                None
            },
            None => None,
        }
    } else {
        Some(j)
    }
}

/// Where the expression that starts at `i` ends, if one does.
pub open spec fn expr_end(ts: Seq<Token>, i: int) -> Option<int>
    decreases ts.len() - i, 7int,
{
    if !(0 <= i <= ts.len()) {
        None
    } else {
        match add_end(ts, i) {
            Some(j) => if i < j <= ts.len() {
                cmp_rest(ts, j)
            } else {
                None
            },
            None => None,
        }
    }
}

/// The error that stops parsing: what went wrong, the source line it
/// happened on (empty at the end of input), and where.
#[derive(Debug)]
pub struct ParserError {
    pub message: String,
    pub line_ref: String,
    pub span: Span,
}

pub type ParseResult<T> = Result<T, ParserError>;

/// A recursive-descent parser over a token vector, with one token of
/// lookahead.
pub struct Parser<'a> {
    tokens: Vec<Token>,
    pos: usize,
    pub source: &'a str,
    chars: Vec<char>,
}

impl<'a> Parser<'a> {
    pub closed spec fn wf(&self) -> bool {
        &&& self.pos <= self.tokens.len()
        &&& self.chars@ == self.source@
    }

    pub closed spec fn tokens(&self) -> Seq<Token> {
        self.tokens@
    }

    /// The characters of the source text.
    pub closed spec fn text(&self) -> Seq<char> {
        self.chars@
    }

    /// How many tokens have been consumed.
    pub closed spec fn position(&self) -> int {
        self.pos as int
    }

    /// The spellings of the tokens consumed since position `start`.
    pub open spec fn read_since(&self, start: int) -> Seq<Seq<char>> {
        spellings(self.tokens().subrange(start, self.position()))
    }

    /// The kind of the token at position `i`, if there is one.
    pub open spec fn kind_at(&self, i: int) -> Option<TokenKind> {
        if 0 <= i < self.tokens().len() {
            Some(self.tokens()[i].kind)
        } else {
            None
        }
    }

    /// The tokens at position `i` and after it are an identifier and `(`.
    pub open spec fn starts_atom_at(&self, i: int) -> bool {
        &&& self.kind_at(i) matches Some(TokenKind::Identifier(_))
        &&& self.kind_at(i + 1) matches Some(TokenKind::LParen)
    }

    /// `after` is `before` with zero or more tokens consumed.
    pub open spec fn moved_on(before: Parser, after: Parser) -> bool {
        &&& after.wf()
        &&& after.tokens() == before.tokens()
        &&& after.text() == before.text()
        &&& 0 <= before.position() <= after.position() <= after.tokens().len()
    }

    pub fn new(source: &'a str, tokens: Vec<Token>) -> (r: Parser<'a>)
        ensures
            r.wf(),
            r.tokens() == tokens@,
            r.position() == 0,
            r.text() == source@,
    {
        Parser { tokens, pos: 0, source, chars: chars_of(source) }
    }

    /// Line `token.span.line` of the source, without its line break; empty
    /// when the source has no such line.
    pub fn source_line(&self, token: &Token) -> (r: String)
        requires
            self.wf(),
        ensures
            r@ == line_of(self.text(), token.span.line as int),
    {
        self.line_text(token.span.line)
    }

    /// Line `n` (1-based) of the source, without its line break; empty when
    /// the source has no such line.
    fn line_text(&self, n: usize) -> (r: String)
        requires
            self.wf(),
        ensures
            r@ == line_of(self.text(), n as int),
    {
        line_at(self.source, &self.chars, n)
    }

    pub fn peek(&self) -> (r: Option<&Token>)
        requires
            self.wf(),
        ensures
            self.position() < self.tokens().len() ==> r == Some(&self.tokens()[self.position()]),
            self.position() >= self.tokens().len() ==> r is None,
    {
        if self.pos < self.tokens.len() {
            Some(&self.tokens[self.pos])
        } else {
            None
        }
    }

    pub fn consume(&mut self) -> (r: Option<Token>)
        requires
            old(self).wf(),
        ensures
            Self::moved_on(*old(self), *final(self)),
            old(self).position() < old(self).tokens().len() ==> r == Some(
                old(self).tokens()[old(self).position()],
            ) && final(self).position() == old(self).position() + 1,
            old(self).position() >= old(self).tokens().len() ==> r is None && final(self).position()
                == old(self).position(),
    {
        if self.pos < self.tokens.len() {
            let t = self.tokens[self.pos].clone();
            self.pos = self.pos + 1;
            Some(t)
        } else {
            None
        }
    }

    /// Whether the next token is of the same kind as `kind`.
    pub fn peek_is(&self, kind: &TokenKind) -> (r: ParseResult<bool>)
        requires
            self.wf(),
        ensures
            r == Ok::<bool, ParserError>(
                self.position() < self.tokens().len() && same_kind(
                    self.tokens()[self.position()].kind,
                    *kind,
                ),
            ),
    {
        if self.pos < self.tokens.len() {
            Ok(kind_number(&self.tokens[self.pos].kind) == kind_number(kind))
        } else {
            Ok(false)
        }
    }

    /// Whether there is a next token and it is not of the kind of `kind`.
    pub fn peek_is_not(&self, kind: &TokenKind) -> (r: ParseResult<bool>)
        requires
            self.wf(),
        ensures
            r == Ok::<bool, ParserError>(
                self.position() < self.tokens().len() && !same_kind(
                    self.tokens()[self.position()].kind,
                    *kind,
                ),
            ),
    {
        if self.pos < self.tokens.len() {
            Ok(kind_number(&self.tokens[self.pos].kind) != kind_number(kind))
        } else {
            Ok(false)
        }
    }

    pub fn eof_error(&self, message: &str) -> (r: ParserError)
        ensures
            r.message@ == message@,
            r.line_ref@.len() == 0,
            r.span == (Span { line: 0, start: 0, end: 0 }),
    {
        ParserError { message: String::from_str(message), line_ref: String::new(), span: Span::new(0, 0, 0) }
    }

    pub fn unexpected_token_error(&self, token: &Token, expected: &str) -> (r: ParserError)
        requires
            self.wf(),
        ensures
            r.span == token.span,
            r.line_ref@ == line_of(self.text(), token.span.line as int),
            r.message@ == "Unexpected token '"@ + kind_text(token.kind) + "', expected "@ + expected@,
    {
        let mut message = String::from_str("Unexpected token '");
        let name = kind_name(&token.kind);
        message.append(name.as_str());
        message.append("', expected ");
        message.append(expected);
        ParserError { message, line_ref: self.source_line(token), span: token.span }
    }

    /// Consumes the next token, which must be of the kind of `expected`.
    pub fn expect(&mut self, expected: TokenKind) -> (r: ParseResult<Token>)
        requires
            old(self).wf(),
        ensures
            Self::moved_on(*old(self), *final(self)),
            r is Ok <==> old(self).position() < old(self).tokens().len() && same_kind(
                old(self).tokens()[old(self).position()].kind,
                expected,
            ),
            r is Ok ==> r->Ok_0 == old(self).tokens()[old(self).position()] && final(self).position()
                == old(self).position() + 1,
            r is Ok && is_plain(expected) ==> old(self).tokens()[old(self).position()].kind == expected,
            old(self).position() >= old(self).tokens().len() ==> (r matches Err(e) && e.message@
                == "Unexpected end of input, expected "@ + ("'"@ + kind_text(expected) + "'"@) && e.span == (Span {
                line: 0,
                start: 0,
                end: 0,
            })),
            ({
                let ts = old(self).tokens();
                let p = old(self).position();
                p < ts.len() && !same_kind(ts[p].kind, expected) ==> (r matches Err(e) && e.message@
                    == "Unexpected token '"@ + kind_text(ts[p].kind) + "', expected "@ + ("'"@ + kind_text(expected)
                    + "'"@)
                    && e.span == ts[p].span && e.line_ref@ == line_of(old(self).text(), ts[p].span.line as int))
            }),
    {
        let mut what = String::from_str("'");
        let name = kind_name(&expected);
        what.append(name.as_str());
        what.append("'");
        let token = match self.consume() {
            Some(t) => t,
            None => {
                let mut message = String::from_str("Unexpected end of input, expected ");
                message.append(what.as_str());
                return Err(ParserError { message, line_ref: String::new(), span: Span::new(0, 0, 0) });
            },
        };
        if kind_number(&token.kind) == kind_number(&expected) {
            proof {
                if is_plain(expected) {
                    lemma_same_plain_kind(token.kind, expected);
                }
            }
            Ok(token)
        } else {
            Err(self.unexpected_token_error(&token, what.as_str()))
        }
    }
}


impl Identifier {
    pub fn parse(parser: &mut Parser) -> (r: ParseResult<Identifier>)
        requires
            old(parser).wf(),
        ensures
            Parser::moved_on(*old(parser), *final(parser)),
            r is Ok <==> old(parser).kind_at(old(parser).position()) matches Some(TokenKind::Identifier(_)),
            r is Ok ==> final(parser).read_since(old(parser).position()) == seq![name_spelling(r->Ok_0.0@)],
            r is Ok ==> final(parser).position() == old(parser).position() + 1,
            r is Ok ==> old(parser).tokens()[old(parser).position()].kind == TokenKind::Identifier(r->Ok_0.0),
            old(parser).position() >= old(parser).tokens().len() ==> (r matches Err(e) && e.message@ == "Expected an identifier"@
                && e.span == (Span { line: 0, start: 0, end: 0 })),
            ({
                let ts = old(parser).tokens();
                let p = old(parser).position();
                p < ts.len() && !(ts[p].kind is Identifier) ==> (r matches Err(e) && e.message@ == "Unexpected token '"@ + kind_text(
                    ts[p].kind,
                ) + "', expected "@ + "an identifier"@ && e.span == ts[p].span && e.line_ref@ == line_of(
                    old(parser).text(),
                    ts[p].span.line as int,
                ))
            }),
    {
        let ghost p = parser.position();
        let token = match parser.consume() {
            Some(t) => t,
            None => {
                return Err(parser.eof_error("Expected an identifier"));
            },
        };
        proof {
            lemma_spellings_one(parser.tokens(), p);
        }
        if let TokenKind::Identifier(name) = token.kind {
            Ok(Identifier(name))
        } else {
            Err(parser.unexpected_token_error(&token, "an identifier"))
        }
    }
}

impl<'a> Parser<'a> {
    pub fn parse_string_literal(&mut self) -> (r: ParseResult<String>)
        requires
            old(self).wf(),
        ensures
            Self::moved_on(*old(self), *final(self)),
            r is Ok <==> old(self).kind_at(old(self).position()) matches Some(TokenKind::String(_)),
            r is Ok ==> final(self).read_since(old(self).position()) == seq![quoted(r->Ok_0@)],
            r is Ok ==> final(self).position() == old(self).position() + 1,
            r is Ok ==> old(self).tokens()[old(self).position()].kind == TokenKind::String(r->Ok_0),
    {
        let ghost p = self.position();
        let token = match self.consume() {
            Some(t) => t,
            None => {
                return Err(self.eof_error("Expected a string literal"));
            },
        };
        proof {
            lemma_spellings_one(self.tokens(), p);
        }
        if let TokenKind::String(s) = token.kind {
            Ok(s)
        } else {
            Err(self.unexpected_token_error(&token, "a string literal"))
        }
    }
}

impl Constant {
    pub fn parse(parser: &mut Parser) -> (r: ParseResult<Constant>)
        requires
            old(parser).wf(),
        ensures
            Parser::moved_on(*old(parser), *final(parser)),
            r is Ok <==> old(parser).kind_at(old(parser).position()) matches Some(
                TokenKind::Integer(_) | TokenKind::Float(_) | TokenKind::String(_) | TokenKind::Boolean(_),
            ),
            r is Ok ==> final(parser).read_since(old(parser).position()) == seq![
                constant_spelling(r->Ok_0),
            ],
            r is Ok ==> final(parser).position() == old(parser).position() + 1,
            r is Ok ==> r == Ok::<Constant, ParserError>(
                constant_of(old(parser).tokens()[old(parser).position()].kind)->0,
            ),
    {
        let ghost p = parser.position();
        let token = match parser.consume() {
            Some(t) => t,
            None => {
                return Err(parser.eof_error("Expected a constant"));
            },
        };
        proof {
            lemma_spellings_one(parser.tokens(), p);
        }
        match token.kind {
            TokenKind::Integer(i) => Ok(Constant::Integer(i)),
            TokenKind::Float(f) => Ok(Constant::Float(f)),
            TokenKind::String(s) => Ok(Constant::String(s)),
            TokenKind::Boolean(b) => Ok(Constant::Boolean(b)),
            _ => Err(parser.unexpected_token_error(&token, "a constant value (integer, string, etc.)")),
        }
    }
}

impl Expression {
    pub fn parse(parser: &mut Parser) -> (r: ParseResult<Expression>)
        requires
            old(parser).wf(),
        ensures
            Parser::moved_on(*old(parser), *final(parser)),
            r is Ok ==> final(parser).read_since(old(parser).position()) == expression_text(r->Ok_0),
            r is Ok ==> well_shaped(r->Ok_0, 3),
            r is Ok ==> old(parser).position() < final(parser).position(),
            term_ends_at(old(parser).tokens(), old(parser).position(), 3) ==> r is Ok
                && final(parser).position() == old(parser).position() + 1,
            r is Ok <==> expr_end(old(parser).tokens(), old(parser).position()) is Some,
            r is Ok ==> final(parser).position() == expr_end(old(parser).tokens(), old(parser).position())->0,
        decreases old(parser).tokens().len() - old(parser).position(), 5nat,
    {
        Expression::parse_comparison(parser)
    }

    fn parse_primary(parser: &mut Parser) -> (r: ParseResult<Expression>)
        requires
            old(parser).wf(),
        ensures
            Parser::moved_on(*old(parser), *final(parser)),
            r is Ok ==> final(parser).read_since(old(parser).position()) == expression_text(r->Ok_0),
            r is Ok ==> well_shaped(r->Ok_0, 0),
            r is Ok ==> old(parser).position() < final(parser).position(),
            simple_term_at(old(parser).tokens(), old(parser).position()) ==> r is Ok
                && final(parser).position() == old(parser).position() + 1,
            r is Ok <==> primary_end(old(parser).tokens(), old(parser).position()) is Some,
            r is Ok ==> final(parser).position() == primary_end(old(parser).tokens(), old(parser).position())->0,
            simple_term_at(old(parser).tokens(), old(parser).position()) ==> r == Ok::<Expression, ParserError>(
                primary_of(old(parser).tokens()[old(parser).position()].kind)->0,
            ),
            ({
                let ts = old(parser).tokens();
                let p = old(parser).position();
                (p + 3 < ts.len() && ts[p].kind is Identifier && ts[p + 1].kind is LParen && ts[p + 2].kind is Identifier
                    && ts[p + 3].kind is RParen) ==> {
                    let n = ts[p].kind->Identifier_0;
                    &&& aggregate_named(n@) is Some ==> r == Ok::<Expression, ParserError>(
                        Expression::Aggregate(
                            Aggregate {
                                func: aggregate_named(n@)->0,
                                arg: Identifier(ts[p + 2].kind->Identifier_0),
                            },
                        ),
                    )
                    &&& aggregate_named(n@) is None ==> (r matches Err(e) && e.message@ == "Unknown aggregate function '"@
                        + n@ + "'"@ && e.span == ts[p].span)
                }
            }),
            old(parser).position() >= old(parser).tokens().len() ==> (r matches Err(e) && e.message@ == "Expected a primary expression"@
                && e.span == (Span { line: 0, start: 0, end: 0 })),
            ({
                let ts = old(parser).tokens();
                let p = old(parser).position();
                p < ts.len() && !(ts[p].kind is Integer || ts[p].kind is Float || ts[p].kind is String || ts[p].kind is Boolean || ts[p].kind is Identifier || ts[p].kind is Wildcard || ts[p].kind is LParen) ==> (r matches Err(e) && e.message@ == "Unexpected token '"@ + kind_text(
                    ts[p].kind,
                ) + "', expected "@ + "a literal, identifier, or expression"@ && e.span == ts[p].span && e.line_ref@ == line_of(
                    old(parser).text(),
                    ts[p].span.line as int,
                ))
            }),
        decreases old(parser).tokens().len() - old(parser).position(), 0nat,
    {
        let ghost p = parser.position();
        let token = match parser.consume() {
            Some(t) => t,
            None => {
                return Err(parser.eof_error("Expected a primary expression"));
            },
        };
        proof {
            lemma_spellings_one(parser.tokens(), p);
        }
        match token.kind {
            TokenKind::Integer(i) => Ok(Expression::Constant(Constant::Integer(i))),
            TokenKind::Float(f) => Ok(Expression::Constant(Constant::Float(f))),
            TokenKind::String(s) => Ok(Expression::Constant(Constant::String(s))),
            TokenKind::Boolean(b) => Ok(Expression::Constant(Constant::Boolean(b))),
            TokenKind::Identifier(name) => {
                if parser.peek_is(&TokenKind::LParen)? {
                    parser.consume();
                    let ghost q = parser.position();
                    let arg = Identifier::parse(parser)?;
                    let ghost q2 = parser.position();
                    parser.expect(TokenKind::RParen)?;
                    let func = if same_text(name.as_str(), "count") {
                        AggregateFunction::Count
                    } else if same_text(name.as_str(), "sum") {
                        AggregateFunction::Sum
                    } else if same_text(name.as_str(), "min") {
                        AggregateFunction::Min
                    } else if same_text(name.as_str(), "max") {
                        AggregateFunction::Max
                    } else if same_text(name.as_str(), "avg") {
                        AggregateFunction::Avg
                    } else {
                        let mut message = String::from_str("Unknown aggregate function '");
                        message.append(name.as_str());
                        message.append("'");
                        return Err(
                            ParserError {
                                message,
                                line_ref: parser.line_text(token.span.line),
                                span: token.span,
                            },
                        );
                    };
                    proof {
                        let ts = parser.tokens();
                        lemma_spellings_one(ts, p + 1);
                        lemma_spellings_one(ts, q2);
                        lemma_spellings_split(ts, p, p + 1, q);
                        lemma_spellings_split(ts, p, q, q2);
                        lemma_spellings_split(ts, p, q2, parser.position());
                    }
                    Ok(Expression::Aggregate(Aggregate { func, arg }))
                } else {
                    Ok(Expression::Variable(Identifier(name)))
                }
            },
            TokenKind::Wildcard => Ok(Expression::Wildcard),
            TokenKind::LParen => {
                let ghost q = parser.position();
                let expr = Expression::parse(parser)?;
                let ghost q2 = parser.position();
                parser.expect(TokenKind::RParen)?;
                proof {
                    let ts = parser.tokens();
                    lemma_spellings_one(ts, q2);
                    lemma_spellings_split(ts, p, q, q2);
                    lemma_spellings_split(ts, p, q2, parser.position());
                }
                Ok(Expression::Paren(Box::new(expr)))
            },
            _ => Err(parser.unexpected_token_error(&token, "a literal, identifier, or expression")),
        }
    }

    fn parse_unary(parser: &mut Parser) -> (r: ParseResult<Expression>)
        requires
            old(parser).wf(),
        ensures
            Parser::moved_on(*old(parser), *final(parser)),
            r is Ok ==> final(parser).read_since(old(parser).position()) == expression_text(r->Ok_0),
            r is Ok ==> well_shaped(r->Ok_0, 0),
            r is Ok ==> old(parser).position() < final(parser).position(),
            simple_term_at(old(parser).tokens(), old(parser).position()) ==> r is Ok
                && final(parser).position() == old(parser).position() + 1,
            r is Ok <==> unary_end(old(parser).tokens(), old(parser).position()) is Some,
            r is Ok ==> final(parser).position() == unary_end(old(parser).tokens(), old(parser).position())->0,
        decreases old(parser).tokens().len() - old(parser).position(), 1nat,
    {
        let ghost p = parser.position();
        if parser.peek_is(&TokenKind::Minus)? {
            parser.consume();
            let expr = Expression::parse_unary(parser)?;
            proof {
                let ts = parser.tokens();
                lemma_spellings_one(ts, p);
                lemma_spellings_split(ts, p, p + 1, parser.position());
            }
            Ok(Expression::Unary { op: UnaryOperator::Neg, expr: Box::new(expr) })
        } else {
            Expression::parse_primary(parser)
        }
    }
}

impl Expression {
    fn parse_multiplicative(parser: &mut Parser) -> (r: ParseResult<Expression>)
        requires
            old(parser).wf(),
        ensures
            Parser::moved_on(*old(parser), *final(parser)),
            r is Ok ==> final(parser).read_since(old(parser).position()) == expression_text(r->Ok_0),
            r is Ok ==> well_shaped(r->Ok_0, 1),
            r is Ok ==> old(parser).position() < final(parser).position(),
            r is Ok ==> !(final(parser).kind_at(final(parser).position()) matches Some(TokenKind::Star | TokenKind::Slash | TokenKind::Percent)),
            term_ends_at(old(parser).tokens(), old(parser).position(), 1) ==> r is Ok
                && final(parser).position() == old(parser).position() + 1,
            r is Ok <==> mul_end(old(parser).tokens(), old(parser).position()) is Some,
            r is Ok ==> final(parser).position() == mul_end(old(parser).tokens(), old(parser).position())->0,
        decreases old(parser).tokens().len() - old(parser).position(), 2nat,
    {
        let ghost p = parser.position();
        let mut expr = Expression::parse_unary(parser)?;
        loop
            invariant
                Parser::moved_on(*old(parser), *parser),
                parser.read_since(p) == expression_text(expr),
                well_shaped(expr, 1),
                p < parser.position(),
                mul_rest(parser.tokens(), parser.position()) == mul_end(parser.tokens(), p),
                p == old(parser).position(),
                term_ends_at(parser.tokens(), p, 1) ==> parser.position() == p + 1,
            ensures
                mul_rest(parser.tokens(), parser.position()) == mul_end(parser.tokens(), p),
                Parser::moved_on(*old(parser), *parser),
                parser.read_since(p) == expression_text(expr),
                well_shaped(expr, 1),
                p < parser.position(),
                term_ends_at(parser.tokens(), p, 1) ==> parser.position() == p + 1,
                !(parser.kind_at(parser.position()) matches Some(TokenKind::Star | TokenKind::Slash | TokenKind::Percent)),
            decreases parser.tokens().len() - parser.position(),
        {
            let op = match parser.peek() {
                Some(t) => match t.kind {
TokenKind::Star => BinaryOperator::Mul,
                    TokenKind::Slash => BinaryOperator::Div,
                    TokenKind::Percent => BinaryOperator::Mod,
                    _ => break,
                },
                None => break,
            };
            let ghost q = parser.position();
            parser.consume();
            let right = Expression::parse_unary(parser)?;
            proof {
                let ts = parser.tokens();
                lemma_spellings_one(ts, q);
                lemma_spellings_split(ts, p, q, q + 1);
                lemma_spellings_split(ts, p, q + 1, parser.position());
            }
            expr = Expression::Binary { left: Box::new(expr), op, right: Box::new(right) };
        }
        Ok(expr)
    }
}

impl Expression {
    fn parse_additive(parser: &mut Parser) -> (r: ParseResult<Expression>)
        requires
            old(parser).wf(),
        ensures
            Parser::moved_on(*old(parser), *final(parser)),
            r is Ok ==> final(parser).read_since(old(parser).position()) == expression_text(r->Ok_0),
            r is Ok ==> well_shaped(r->Ok_0, 2),
            r is Ok ==> old(parser).position() < final(parser).position(),
            r is Ok ==> !(final(parser).kind_at(final(parser).position()) matches Some(TokenKind::Plus | TokenKind::Minus)),
            term_ends_at(old(parser).tokens(), old(parser).position(), 2) ==> r is Ok
                && final(parser).position() == old(parser).position() + 1,
            r is Ok <==> add_end(old(parser).tokens(), old(parser).position()) is Some,
            r is Ok ==> final(parser).position() == add_end(old(parser).tokens(), old(parser).position())->0,
        decreases old(parser).tokens().len() - old(parser).position(), 3nat,
    {
        let ghost p = parser.position();
        let mut expr = Expression::parse_multiplicative(parser)?;
        loop
            invariant
                Parser::moved_on(*old(parser), *parser),
                parser.read_since(p) == expression_text(expr),
                well_shaped(expr, 2),
                p < parser.position(),
                add_rest(parser.tokens(), parser.position()) == add_end(parser.tokens(), p),
                p == old(parser).position(),
                term_ends_at(parser.tokens(), p, 2) ==> parser.position() == p + 1,
            ensures
                add_rest(parser.tokens(), parser.position()) == add_end(parser.tokens(), p),
                Parser::moved_on(*old(parser), *parser),
                parser.read_since(p) == expression_text(expr),
                well_shaped(expr, 2),
                p < parser.position(),
                term_ends_at(parser.tokens(), p, 2) ==> parser.position() == p + 1,
                !(parser.kind_at(parser.position()) matches Some(TokenKind::Plus | TokenKind::Minus)),
            decreases parser.tokens().len() - parser.position(),
        {
            let op = match parser.peek() {
                Some(t) => match t.kind {
TokenKind::Plus => BinaryOperator::Add,
                    TokenKind::Minus => BinaryOperator::Sub,
                    _ => break,
                },
                None => break,
            };
            let ghost q = parser.position();
            parser.consume();
            let right = Expression::parse_multiplicative(parser)?;
            proof {
                let ts = parser.tokens();
                lemma_spellings_one(ts, q);
                lemma_spellings_split(ts, p, q, q + 1);
                lemma_spellings_split(ts, p, q + 1, parser.position());
            }
            expr = Expression::Binary { left: Box::new(expr), op, right: Box::new(right) };
        }
        Ok(expr)
    }
}

impl Expression {
    fn parse_comparison(parser: &mut Parser) -> (r: ParseResult<Expression>)
        requires
            old(parser).wf(),
        ensures
            Parser::moved_on(*old(parser), *final(parser)),
            r is Ok ==> final(parser).read_since(old(parser).position()) == expression_text(r->Ok_0),
            r is Ok ==> well_shaped(r->Ok_0, 3),
            r is Ok ==> old(parser).position() < final(parser).position(),
            r is Ok ==> !(final(parser).kind_at(final(parser).position()) matches Some(TokenKind::Eq | TokenKind::NotEq | TokenKind::Lt | TokenKind::LtEq | TokenKind::Gt | TokenKind::GtEq)),
            term_ends_at(old(parser).tokens(), old(parser).position(), 3) ==> r is Ok
                && final(parser).position() == old(parser).position() + 1,
            r is Ok <==> expr_end(old(parser).tokens(), old(parser).position()) is Some,
            r is Ok ==> final(parser).position() == expr_end(old(parser).tokens(), old(parser).position())->0,
        decreases old(parser).tokens().len() - old(parser).position(), 4nat,
    {
        let ghost p = parser.position();
        let mut expr = Expression::parse_additive(parser)?;
        loop
            invariant
                Parser::moved_on(*old(parser), *parser),
                parser.read_since(p) == expression_text(expr),
                well_shaped(expr, 3),
                p < parser.position(),
                cmp_rest(parser.tokens(), parser.position()) == expr_end(parser.tokens(), p),
                p == old(parser).position(),
                term_ends_at(parser.tokens(), p, 3) ==> parser.position() == p + 1,
            ensures
                cmp_rest(parser.tokens(), parser.position()) == expr_end(parser.tokens(), p),
                Parser::moved_on(*old(parser), *parser),
                parser.read_since(p) == expression_text(expr),
                well_shaped(expr, 3),
                p < parser.position(),
                term_ends_at(parser.tokens(), p, 3) ==> parser.position() == p + 1,
                !(parser.kind_at(parser.position()) matches Some(TokenKind::Eq | TokenKind::NotEq | TokenKind::Lt | TokenKind::LtEq | TokenKind::Gt | TokenKind::GtEq)),
            decreases parser.tokens().len() - parser.position(),
        {
            let op = match parser.peek() {
                Some(t) => match t.kind {
TokenKind::Eq => BinaryOperator::Eq,
                    TokenKind::NotEq => BinaryOperator::NotEq,
                    TokenKind::Lt => BinaryOperator::Lt,
                    TokenKind::LtEq => BinaryOperator::LtEq,
                    TokenKind::Gt => BinaryOperator::Gt,
                    TokenKind::GtEq => BinaryOperator::GtEq,
                    _ => break,
                },
                None => break,
            };
            let ghost q = parser.position();
            parser.consume();
            let right = Expression::parse_additive(parser)?;
            proof {
                let ts = parser.tokens();
                lemma_spellings_one(ts, q);
                lemma_spellings_split(ts, p, q, q + 1);
                lemma_spellings_split(ts, p, q + 1, parser.position());
            }
            expr = Expression::Binary { left: Box::new(expr), op, right: Box::new(right) };
        }
        Ok(expr)
    }
}

impl<'a> Parser<'a> {
    /// Whether the next two tokens are an identifier and `(`: the start of
    /// an atom.
    fn starts_atom(&self) -> (r: bool)
        requires
            self.wf(),
        ensures
            r == (self.kind_at(self.position()) matches Some(TokenKind::Identifier(_))
                && self.kind_at(self.position() + 1) matches Some(TokenKind::LParen)),
    {
        if self.pos < self.tokens.len() && self.tokens.len() - self.pos > 1 {
            let first = matches!(self.tokens[self.pos].kind, TokenKind::Identifier(_));
            let second = matches!(self.tokens[self.pos + 1].kind, TokenKind::LParen);
            first && second
        } else {
            false
        }
    }
}

/// A literal of the grammar meets one of the premises under which `Literal::parse`
/// owes success, and the parse ends where the literal does.
proof fn lemma_literal_parses(ts: Seq<Token>, i: int)
    ensures
        forall|j: int| #[trigger] literal_span(ts, i, j) ==> {
            ||| exists|ends: Seq<int>| #[trigger] atom_at(ts, i, ends) && j == atom_at_end(i, ends)
            ||| 0 <= i < ts.len() && is_negation(ts[i].kind) && exists|ends: Seq<int>|
                #[trigger] atom_at(ts, i + 1, ends) && j == atom_at_end(i + 1, ends)
            ||| condition_at(ts, i) && expr_end(ts, i) == Some(j)
        },
{
}

impl Atom {
    pub fn parse(parser: &mut Parser) -> (r: ParseResult<Atom>)
        requires
            old(parser).wf(),
        ensures
            Parser::moved_on(*old(parser), *final(parser)),
            r is Ok ==> final(parser).read_since(old(parser).position()) == atom_text(r->Ok_0),
            forall|n: int| #[trigger] simple_atom_at(old(parser).tokens(), old(parser).position(), n) ==> r is Ok
                && final(parser).position() == atom_end(old(parser).position(), n),
            forall|ends: Seq<int>| #[trigger] atom_at(old(parser).tokens(), old(parser).position(), ends) ==> r is Ok
                && final(parser).position() == atom_at_end(old(parser).position(), ends),
    {
        let ghost p = parser.position();
        let name = Identifier::parse(parser)?;
        let ghost p1 = parser.position();
        parser.expect(TokenKind::LParen)?;
        let ghost q = parser.position();
        let mut terms: Vec<Expression> = Vec::new();
        if parser.peek_is_not(&TokenKind::RParen)? {
            proof {
                assert forall|n: int| #[trigger] simple_atom_at(parser.tokens(), p, n) implies term_ends_at(
                    parser.tokens(),
                    p + 2,
                    3,
                ) && n >= 1 by {
                    let ts = parser.tokens();
                    if n == 0 {
                        assert(ts[p + 2].kind is RParen);
                    } else {
                        assert(simple_term_at(ts, p + 2 + 2 * 0));
                        if n > 1 {
                            assert(ts[p + 3 + 2 * 0].kind is Comma);
                        } else {
                            assert(ts[atom_end(p, n) - 1].kind is RParen);
                        }
                    }
                }
            }
            proof {
                let ts = parser.tokens();
                assert forall|ends: Seq<int>| #[trigger] atom_at(ts, p, ends) implies ends.len() >= 1 && expr_end(
                    ts,
                    p + 2,
                ) == Some(ends[0]) by {
                    assert(expr_end(ts, term_start(p, ends, 0)) == Some(ends[0]) || ends.len() == 0);
                }
            }
            let first = Expression::parse(parser)?;
            terms.push(first);
            proof {
                assert(terms@.map_values(|e: Expression| expression_text(e)) =~= seq![expression_text(first)]);
                lemma_comma_list_one(expression_text(first));
            }
            loop
                invariant
                    Parser::moved_on(*old(parser), *parser),
                    old(parser).position() <= q <= parser.position(),
                    q == p + 2,
                    p == old(parser).position(),
                    terms@.len() > 0,
                    parser.read_since(q) == expression_list_text(terms@),
                    forall|n: int| #[trigger] simple_atom_at(parser.tokens(), p, n) ==> terms@.len() <= n
                        && parser.position() == p + 1 + 2 * terms@.len(),
                    forall|ends: Seq<int>| #[trigger] atom_at(parser.tokens(), p, ends) ==> terms@.len() <= ends.len()
                        && parser.position() == ends[terms@.len() - 1],
                ensures
                    Parser::moved_on(*old(parser), *parser),
                    old(parser).position() <= q <= parser.position(),
                    q == p + 2,
                    p == old(parser).position(),
                    terms@.len() > 0,
                    parser.read_since(q) == expression_list_text(terms@),
                    forall|n: int| #[trigger] simple_atom_at(parser.tokens(), p, n) ==> terms@.len() <= n
                        && parser.position() == p + 1 + 2 * terms@.len(),
                    forall|ends: Seq<int>| #[trigger] atom_at(parser.tokens(), p, ends) ==> terms@.len() <= ends.len()
                        && parser.position() == ends[terms@.len() - 1],
                    !(parser.kind_at(parser.position()) matches Some(TokenKind::Comma)),
                decreases parser.tokens().len() - parser.position(),
            {
                let more = parser.peek_is(&TokenKind::Comma)?;
                if !more {
                    break;
                }
                let ghost c = parser.position();
                parser.consume();
                proof {
                    let ts = parser.tokens();
                    assert forall|n: int| #[trigger] simple_atom_at(ts, p, n) implies term_ends_at(ts, c + 1, 3) by {
                        let m = terms@.len() as int;
                        if m == n {
                            assert(ts[atom_end(p, n) - 1].kind is RParen);
                        }
                        assert(m < n);
                        assert(simple_term_at(ts, p + 2 + 2 * m));
                        if m < n - 1 {
                            assert(ts[p + 3 + 2 * m].kind is Comma);
                        } else {
                            assert(ts[atom_end(p, n) - 1].kind is RParen);
                        }
                    }
                }
                proof {
                    let ts = parser.tokens();
                    assert forall|ends: Seq<int>| #[trigger] atom_at(ts, p, ends) implies terms@.len() < ends.len()
                        && expr_end(ts, c + 1) == Some(ends[terms@.len() as int]) by {
                        let m = terms@.len() as int;
                        if m == ends.len() {
                            assert(ts[ends.last()].kind is RParen);
                        }
                        assert(expr_end(ts, term_start(p, ends, m)) == Some(ends[m]));
                    }
                }
                let e = Expression::parse(parser)?;
                proof {
                    let ts = parser.tokens();
                    assert forall|n: int| #[trigger] simple_atom_at(ts, p, n) implies terms@.len() + 1 <= n
                        && parser.position() == p + 1 + 2 * (terms@.len() + 1) by {
                        let m = terms@.len() as int;
                        if m == n {
                            assert(ts[atom_end(p, n) - 1].kind is RParen);
                        }
                    }
                    assert forall|ends: Seq<int>| #[trigger] atom_at(ts, p, ends) implies terms@.len() + 1 <= ends.len()
                        && parser.position() == ends[terms@.len() as int] by {
                        let m = terms@.len() as int;
                        if m == ends.len() {
                            assert(ts[ends.last()].kind is RParen);
                        }
                    }
                    let f = |x: Expression| expression_text(x);
                    let before = terms@;
                    assert(before.push(e).map_values(f) =~= before.map_values(f).push(expression_text(e)));
                    lemma_comma_list_push(before.map_values(f), expression_text(e));
                    lemma_spellings_one(ts, c);
                    lemma_spellings_split(ts, q, c, c + 1);
                    lemma_spellings_split(ts, q, c + 1, parser.position());
                }
                terms.push(e);
            }
            proof {
                let ts = parser.tokens();
                assert forall|n: int| #[trigger] simple_atom_at(ts, p, n) implies parser.position() == atom_end(p, n)
                    - 1 by {
                    let m = terms@.len() as int;
                    if m < n {
                        assert(ts[p + 3 + 2 * (m - 1)].kind is Comma);
                    }
                }
                assert forall|ends: Seq<int>| #[trigger] atom_at(ts, p, ends) implies parser.position() == ends.last()
                    && ts[parser.position()].kind is RParen by {
                    let m = terms@.len() as int;
                    if m < ends.len() {
                        assert(ts[ends[m - 1]].kind is Comma);
                    }
                }
            }
        } else {
            proof {
                let ts = parser.tokens();
                assert forall|n: int| #[trigger] simple_atom_at(ts, p, n) implies parser.position() == atom_end(p, n)
                    - 1 by {
                    if n > 0 {
                        assert(simple_term_at(ts, p + 2 + 2 * 0));
                    }
                }
                assert forall|ends: Seq<int>| #[trigger] atom_at(ts, p, ends) implies ends.len() == 0 by {
                    if ends.len() > 0 {
                        assert(expr_end(ts, term_start(p, ends, 0)) == Some(ends[0]));
                        lemma_expr_start(ts, p + 2);
                    }
                }
            }
            assert(terms@.map_values(|e: Expression| expression_text(e)) =~= Seq::<Seq<Seq<char>>>::empty());
            assert(spellings(parser.tokens().subrange(q, q)) =~= Seq::<Seq<char>>::empty());
        }
        let ghost q2 = parser.position();
        parser.expect(TokenKind::RParen)?;
        proof {
            let ts = parser.tokens();
            lemma_spellings_one(ts, p1);
            lemma_spellings_one(ts, q2);
            lemma_spellings_split(ts, p, p1, q);
            lemma_spellings_split(ts, p, q, q2);
            lemma_spellings_split(ts, p, q2, parser.position());
        }
        Ok(Atom { name, terms })
    }
}

impl Literal {
    pub fn parse(parser: &mut Parser) -> (r: ParseResult<Literal>)
        requires
            old(parser).wf(),
        ensures
            Parser::moved_on(*old(parser), *final(parser)),
            r is Ok ==> final(parser).read_since(old(parser).position()) == literal_text(r->Ok_0),
            r is Ok ==> (r->Ok_0 is Negative <==> old(parser).kind_at(old(parser).position()) matches Some(
                TokenKind::Not | TokenKind::Bang,
            )),
            r is Ok ==> (r->Ok_0 is Positive <==> old(parser).starts_atom_at(old(parser).position())),
            r matches Ok(Literal::Condition(e)) ==> well_shaped(e, 3),
            forall|n: int| #[trigger] simple_atom_at(old(parser).tokens(), old(parser).position(), n) ==> r is Ok
                && final(parser).position() == atom_end(old(parser).position(), n),
            forall|n: int|
                #[trigger] simple_atom_at(old(parser).tokens(), old(parser).position() + 1, n) && is_negation(
                    old(parser).tokens()[old(parser).position()].kind,
                ) ==> r is Ok && final(parser).position() == atom_end(old(parser).position() + 1, n),
            term_ends_at(old(parser).tokens(), old(parser).position(), 3) ==> r is Ok
                && final(parser).position() == old(parser).position() + 1,
            forall|ends: Seq<int>| #[trigger] atom_at(old(parser).tokens(), old(parser).position(), ends) ==> r is Ok
                && final(parser).position() == atom_at_end(old(parser).position(), ends),
            forall|ends: Seq<int>|
                #[trigger] atom_at(old(parser).tokens(), old(parser).position() + 1, ends) && is_negation(
                    old(parser).tokens()[old(parser).position()].kind,
                ) ==> r is Ok && final(parser).position() == atom_at_end(old(parser).position() + 1, ends),
            condition_at(old(parser).tokens(), old(parser).position()) ==> (r is Ok <==> expr_end(
                old(parser).tokens(),
                old(parser).position(),
            ) is Some),
            condition_at(old(parser).tokens(), old(parser).position()) && r is Ok ==> r->Ok_0 is Condition
                && final(parser).position() == expr_end(old(parser).tokens(), old(parser).position())->0,
    {
        let ghost p = parser.position();
        let is_negated = parser.peek_is(&TokenKind::Not)? || parser.peek_is(&TokenKind::Bang)?;
        if is_negated {
            parser.consume();
            let atom = Atom::parse(parser)?;
            proof {
                let ts = parser.tokens();
                lemma_spellings_one(ts, p);
                lemma_spellings_split(ts, p, p + 1, parser.position());
            }
            return Ok(Literal::Negative(atom));
        }
        if parser.starts_atom() {
            Ok(Literal::Positive(Atom::parse(parser)?))
        } else {
            Ok(Literal::Condition(Expression::parse(parser)?))
        }
    }
}

impl RuleOrFact {
    /// Parses a head atom, then either `:-` and a comma-separated body up to
    /// `.` (a rule), or `.` alone (a fact).
    pub fn parse(parser: &mut Parser) -> (r: ParseResult<RuleOrFact>)
        requires
            old(parser).wf(),
        ensures
            Parser::moved_on(*old(parser), *final(parser)),
            r is Ok ==> final(parser).read_since(old(parser).position()) == rule_or_fact_text(r->Ok_0),
            r matches Ok(RuleOrFact::Rule(rule)) ==> {
                &&& rule.span.line_start == old(parser).tokens()[old(parser).position()].span.line
                &&& rule.span.line_end == final(parser).tokens()[final(parser).position() - 1].span.line
            },
            forall|n: Seq<int>| #[trigger] fact_at(old(parser).tokens(), old(parser).position(), n) ==> r is Ok
                && r->Ok_0 is Fact && final(parser).position() == atom_at_end(old(parser).position(), n) + 1,
            forall|n: Seq<int>, ends: Seq<int>|
                #[trigger] rule_at(old(parser).tokens(), old(parser).position(), n, ends) ==> r is Ok
                    && r->Ok_0 is Rule && final(parser).position() == ends.last() + 1,
    {
        let ghost p = parser.position();
        let line_start = match parser.peek() {
            Some(t) => t.span.line,
            None => {
                return Err(parser.eof_error("Expected a rule or fact"));
            },
        };
        let head = Atom::parse(parser)?;
        let ghost h = parser.position();
        let token = match parser.consume() {
            Some(t) => t,
            None => {
                return Err(parser.eof_error("Expected ':-' or '.'"));
            },
        };
        proof {
            lemma_spellings_one(parser.tokens(), h);
            lemma_spellings_split(parser.tokens(), p, h, h + 1);
        }
        match token.kind {
            TokenKind::ColonDash => {},
            TokenKind::Dot => {
                return Ok(RuleOrFact::Fact(Fact { head }));
            },
            _ => {
                return Err(parser.unexpected_token_error(&token, "':-' or '.'"));
            },
        }
        let ghost q = parser.position();
        proof {
            assert forall|n: Seq<int>| !#[trigger] fact_at(old(parser).tokens(), p, n) by {
                if fact_at(old(parser).tokens(), p, n) {
                    assert(atom_at(old(parser).tokens(), p, n));
                }
            }
            assert forall|n: Seq<int>, ends: Seq<int>| #[trigger] rule_at(old(parser).tokens(), p, n, ends) implies q
                == atom_at_end(p, n) + 1 && literal_span(old(parser).tokens(), q, ends[0]) by {
                assert(atom_at(old(parser).tokens(), p, n));
                assert(literal_span(old(parser).tokens(), literal_start(atom_at_end(p, n), ends, 0), ends[0]));
            }
            lemma_literal_parses(old(parser).tokens(), q);
        }
        let first = Literal::parse(parser)?;
        let mut body: Vec<Literal> = Vec::new();
        body.push(first);
        proof {
            assert(body@.map_values(|l: Literal| literal_text(l)) =~= seq![literal_text(first)]);
            lemma_comma_list_one(literal_text(first));
        }
        loop
            invariant
                Parser::moved_on(*old(parser), *parser),
                old(parser).position() <= q <= parser.position(),
                p == old(parser).position(),
                forall|n: Seq<int>| !#[trigger] fact_at(old(parser).tokens(), p, n),
                forall|n: Seq<int>, ends: Seq<int>| #[trigger] rule_at(old(parser).tokens(), p, n, ends) ==> body@.len()
                    <= ends.len() && parser.position() == ends[body@.len() - 1],
                body@.len() > 0,
                parser.read_since(q) == comma_list(body@.map_values(|l: Literal| literal_text(l))),
            ensures
                Parser::moved_on(*old(parser), *parser),
                old(parser).position() <= q <= parser.position(),
                p == old(parser).position(),
                forall|n: Seq<int>| !#[trigger] fact_at(old(parser).tokens(), p, n),
                forall|n: Seq<int>, ends: Seq<int>| #[trigger] rule_at(old(parser).tokens(), p, n, ends) ==> body@.len()
                    <= ends.len() && parser.position() == ends[body@.len() - 1],
                body@.len() > 0,
                parser.read_since(q) == comma_list(body@.map_values(|l: Literal| literal_text(l))),
                !(parser.kind_at(parser.position()) matches Some(TokenKind::Comma)),
            decreases parser.tokens().len() - parser.position(),
        {
            let more = parser.peek_is(&TokenKind::Comma)?;
            if !more {
                break;
            }
            let ghost c = parser.position();
            parser.consume();
            proof {
                let ts = old(parser).tokens();
                assert forall|n: Seq<int>, ends: Seq<int>| #[trigger] rule_at(ts, p, n, ends) implies body@.len()
                    < ends.len() && literal_span(ts, c + 1, ends[body@.len() as int]) by {
                    let m = body@.len() as int;
                    if m == ends.len() {
                        assert(ts[ends.last()].kind is Dot);
                    }
                    assert(literal_span(ts, literal_start(atom_at_end(p, n), ends, m), ends[m]));
                }
                lemma_literal_parses(ts, c + 1);
            }
            let l = Literal::parse(parser)?;
            proof {
                let ts = parser.tokens();
                let f = |x: Literal| literal_text(x);
                let before = body@;
                assert(before.push(l).map_values(f) =~= before.map_values(f).push(literal_text(l)));
                lemma_comma_list_push(before.map_values(f), literal_text(l));
                lemma_spellings_one(ts, c);
                lemma_spellings_split(ts, q, c, c + 1);
                lemma_spellings_split(ts, q, c + 1, parser.position());
            }
            body.push(l);
        }
        proof {
            let ts = old(parser).tokens();
            assert forall|n: Seq<int>, ends: Seq<int>| #[trigger] rule_at(ts, p, n, ends) implies parser.position()
                == ends.last() by {
                let m = body@.len() as int;
                if m < ends.len() {
                    assert(ts[ends[m - 1]].kind is Comma);
                }
            }
        }
        let line_end = match parser.peek() {
            Some(t) => t.span.line,
            None => {
                return Err(parser.eof_error("Expected '.'"));
            },
        };
        let ghost d = parser.position();
        parser.expect(TokenKind::Dot)?;
        proof {
            let ts = parser.tokens();
            lemma_spellings_one(ts, d);
            lemma_spellings_split(ts, p, h + 1, q);
            lemma_spellings_split(ts, p, q, d);
            lemma_spellings_split(ts, p, d, parser.position());
        }
        Ok(RuleOrFact::Rule(Rule { head, body, span: RuleSpan { line_start, line_end } }))
    }
}

impl ReadDirective {
    /// `.read Name(col, ...) from "path" as "format".`
    pub fn parse(parser: &mut Parser) -> (r: ParseResult<ReadDirective>)
        requires
            old(parser).wf(),
        ensures
            Parser::moved_on(*old(parser), *final(parser)),
            r is Ok ==> final(parser).read_since(old(parser).position()) == read_text(r->Ok_0),
            forall|n: int| #[trigger] read_directive_at(old(parser).tokens(), old(parser).position(), n) ==> r is Ok
                && final(parser).position() == old(parser).position() + 2 * n + 8,
            ({
                let ts = old(parser).tokens();
                let p = old(parser).position();
                0 <= p && p + 3 < ts.len() && ts[p].kind is Read && ts[p + 1].kind is Identifier && ts[p + 2].kind is LParen
                    && !(ts[p + 3].kind is Identifier) ==> (r matches Err(e) && e.message@ == "Unexpected token '"@
                    + kind_text(ts[p + 3].kind) + "', expected "@ + "an identifier"@ && e.span == ts[p + 3].span)
            }),
    {
        let ghost p = parser.position();
        parser.expect(TokenKind::Read)?;
        let name = Identifier::parse(parser)?;
        let ghost p2 = parser.position();
        parser.expect(TokenKind::LParen)?;
        let ghost q = parser.position();
        proof {
            let ts = parser.tokens();
            assert forall|n: int| #[trigger] read_directive_at(ts, p, n) implies ts[p + 3].kind is Identifier by {
                assert(ts[p + 3 + 2 * 0].kind is Identifier);
            }
        }
        let first = Identifier::parse(parser)?;
        let mut columns: Vec<Identifier> = Vec::new();
        columns.push(first);
        proof {
            assert(columns@.map_values(|i: Identifier| seq![name_spelling(i.0@)]) =~= seq![seq![name_spelling(first.0@)]]);
            lemma_comma_list_one(seq![name_spelling(first.0@)]);
        }
        loop
            invariant
                Parser::moved_on(*old(parser), *parser),
                old(parser).position() <= q <= parser.position(),
                p == old(parser).position(),
                q == p + 3,
                old(parser).tokens()[p + 3].kind is Identifier,
                columns@.len() > 0,
                parser.read_since(q) == identifier_list_text(columns@),
                forall|n: int| #[trigger] read_directive_at(parser.tokens(), p, n) ==> columns@.len() <= n
                    && parser.position() == p + 2 + 2 * columns@.len(),
            ensures
                Parser::moved_on(*old(parser), *parser),
                old(parser).position() <= q <= parser.position(),
                p == old(parser).position(),
                q == p + 3,
                old(parser).tokens()[p + 3].kind is Identifier,
                columns@.len() > 0,
                parser.read_since(q) == identifier_list_text(columns@),
                forall|n: int| #[trigger] read_directive_at(parser.tokens(), p, n) ==> columns@.len() <= n
                    && parser.position() == p + 2 + 2 * columns@.len(),
                !(parser.kind_at(parser.position()) matches Some(TokenKind::Comma)),
            decreases parser.tokens().len() - parser.position(),
        {
            let more = parser.peek_is(&TokenKind::Comma)?;
            if !more {
                break;
            }
            let ghost c = parser.position();
            parser.consume();
            proof {
                let ts = parser.tokens();
                assert forall|n: int| #[trigger] read_directive_at(ts, p, n) implies ts[c + 1].kind is Identifier by {
                    let m = columns@.len() as int;
                    if m == n {
                        assert(ts[p + 2 * n + 2].kind is RParen);
                    }
                    assert(ts[p + 3 + 2 * m].kind is Identifier);
                }
            }
            let col = Identifier::parse(parser)?;
            proof {
                let ts = parser.tokens();
                assert forall|n: int| #[trigger] read_directive_at(ts, p, n) implies columns@.len() + 1 <= n
                    && parser.position() == p + 2 + 2 * (columns@.len() + 1) by {
                    let m = columns@.len() as int;
                    if m == n {
                        assert(ts[p + 2 * n + 2].kind is RParen);
                    }
                }
            }
            proof {
                let ts = parser.tokens();
                let f = |x: Identifier| seq![name_spelling(x.0@)];
                let before = columns@;
                assert(before.push(col).map_values(f) =~= before.map_values(f).push(seq![name_spelling(col.0@)]));
                lemma_comma_list_push(before.map_values(f), seq![name_spelling(col.0@)]);
                lemma_spellings_one(ts, c);
                lemma_spellings_split(ts, q, c, c + 1);
                lemma_spellings_split(ts, q, c + 1, parser.position());
            }
            columns.push(col);
        }
        proof {
            let ts = parser.tokens();
            assert forall|n: int| #[trigger] read_directive_at(ts, p, n) implies parser.position() == p + 2 * n + 2 by {
                let m = columns@.len() as int;
                if m < n {
                    assert(ts[p + 4 + 2 * (m - 1)].kind is Comma);
                }
            }
        }
        let ghost q2 = parser.position();
        parser.expect(TokenKind::RParen)?;
        parser.expect(TokenKind::From)?;
        let path = parser.parse_string_literal()?;
        parser.expect(TokenKind::As)?;
        let format = parser.parse_string_literal()?;
        parser.expect(TokenKind::Dot)?;
        proof {
            let ts = parser.tokens();
            lemma_spellings_one(ts, p);
            lemma_spellings_one(ts, p2);
            let e = parser.position();
            assert(e == q2 + 6);
            lemma_spellings_split(ts, p, p + 1, p2);
            lemma_spellings_split(ts, p, p2, q);
            lemma_spellings_split(ts, p, q, q2);
            lemma_spellings_split(ts, p, q2, e);
            assert(spellings(ts.subrange(q2, e)) =~= seq![
                ")"@,
                "from"@,
                quoted(path@),
                "as"@,
                quoted(format@),
                "."@,
            ]) by {
                lemma_spellings_one(ts, q2 + 2);
                lemma_spellings_one(ts, q2 + 4);
                assert(spelling(ts[q2].kind) == ")"@);
                assert(spelling(ts[q2 + 1].kind) == "from"@);
                assert(spelling(ts[q2 + 2].kind) == quoted(path@));
                assert(spelling(ts[q2 + 3].kind) == "as"@);
                assert(spelling(ts[q2 + 4].kind) == quoted(format@));
                assert(spelling(ts[q2 + 5].kind) == "."@);
            }
        }
        Ok(ReadDirective { name, columns, path, format })
    }
}

impl WriteDirective {
    /// `.write Name to "path" as "format".`
    pub fn parse(parser: &mut Parser) -> (r: ParseResult<WriteDirective>)
        requires
            old(parser).wf(),
        ensures
            Parser::moved_on(*old(parser), *final(parser)),
            r is Ok ==> final(parser).read_since(old(parser).position()) == write_text(r->Ok_0),
            write_directive_at(old(parser).tokens(), old(parser).position()) ==> r is Ok
                && final(parser).position() == old(parser).position() + 7,
    {
        let ghost p = parser.position();
        parser.expect(TokenKind::Write)?;
        let name = Identifier::parse(parser)?;
        parser.expect(TokenKind::To)?;
        let path = parser.parse_string_literal()?;
        parser.expect(TokenKind::As)?;
        let format = parser.parse_string_literal()?;
        parser.expect(TokenKind::Dot)?;
        proof {
            let ts = parser.tokens();
            assert(parser.position() == p + 7);
            lemma_spellings_one(ts, p);
            lemma_spellings_one(ts, p + 1);
            lemma_spellings_one(ts, p + 2);
            lemma_spellings_one(ts, p + 3);
            lemma_spellings_one(ts, p + 4);
            lemma_spellings_one(ts, p + 5);
            lemma_spellings_one(ts, p + 6);
            assert(spellings(ts.subrange(p, p + 7)) =~= write_text(
                WriteDirective { name, path, format },
            ));
        }
        Ok(WriteDirective { name, path, format })
    }
}

impl IterationBlock {
    /// `.iterate { rule_or_fact* }`
    pub fn parse(parser: &mut Parser) -> (r: ParseResult<IterationBlock>)
        requires
            old(parser).wf(),
        ensures
            Parser::moved_on(*old(parser), *final(parser)),
            r is Ok ==> final(parser).read_since(old(parser).position()) == iteration_text(r->Ok_0),
            empty_block_at(old(parser).tokens(), old(parser).position()) ==> r is Ok && r->Ok_0.rules@.len()
                == 0 && final(parser).position() == old(parser).position() + 3,
            forall|bounds: Seq<int>|
                #[trigger] block_at(old(parser).tokens(), old(parser).position(), bounds) ==> r is Ok
                    && final(parser).position() == bounds.last() + 1,
    {
        let ghost p = parser.position();
        parser.expect(TokenKind::Iterate)?;
        parser.expect(TokenKind::LBrace)?;
        let ghost q = parser.position();
        let mut rules: Vec<RuleOrFact> = Vec::new();
        proof {
            assert(rules@.map_values(|x: RuleOrFact| rule_or_fact_text(x)) =~= Seq::<Seq<Seq<char>>>::empty());
            assert(spellings(parser.tokens().subrange(q, q)) =~= Seq::<Seq<char>>::empty());
        }
        loop
            invariant
                Parser::moved_on(*old(parser), *parser),
                old(parser).position() + 2 == q <= parser.position(),
                empty_block_at(old(parser).tokens(), old(parser).position()) ==> parser.position() == q
                    && rules@.len() == 0,
                forall|bounds: Seq<int>|
                    #[trigger] block_at(old(parser).tokens(), p, bounds) ==> rules@.len() < bounds.len()
                        && parser.position() == bounds[rules@.len() as int],
                p == old(parser).position(),
                parser.read_since(q) == concat(rules@.map_values(|x: RuleOrFact| rule_or_fact_text(x))),
            ensures
                Parser::moved_on(*old(parser), *parser),
                old(parser).position() + 2 == q <= parser.position(),
                empty_block_at(old(parser).tokens(), old(parser).position()) ==> parser.position() == q
                    && rules@.len() == 0,
                forall|bounds: Seq<int>|
                    #[trigger] block_at(old(parser).tokens(), p, bounds) ==> rules@.len() < bounds.len()
                        && parser.position() == bounds[rules@.len() as int],
                p == old(parser).position(),
                parser.read_since(q) == concat(rules@.map_values(|x: RuleOrFact| rule_or_fact_text(x))),
                forall|bounds: Seq<int>|
                    #[trigger] block_at(old(parser).tokens(), p, bounds) ==> parser.position() == bounds.last(),
            decreases parser.tokens().len() - parser.position(),
        {
            let more = parser.peek_is_not(&TokenKind::RBrace)?;
            if !more {
                proof {
                    let ts = old(parser).tokens();
                    assert forall|bounds: Seq<int>| #[trigger] block_at(ts, p, bounds) implies rules@.len()
                        == bounds.len() - 1 by {
                        let m = rules@.len() as int;
                        if m < bounds.len() - 1 {
                            assert(item_span(ts, bounds[m], bounds[m + 1]));
                            if exists|n: Seq<int>| #[trigger] fact_at(ts, bounds[m], n) && bounds[m + 1] == atom_at_end(bounds[m], n) + 1 {
                                let n = choose|n: Seq<int>| #[trigger] fact_at(ts, bounds[m], n) && bounds[m + 1] == atom_at_end(bounds[m], n) + 1;
                                assert(ts[bounds[m]].kind is Identifier);
                            } else {
                                let (n, ends) = choose|n: Seq<int>, ends: Seq<int>| #[trigger] rule_at(ts, bounds[m], n, ends) && bounds[m + 1] == ends.last() + 1;
                                assert(ts[bounds[m]].kind is Identifier);
                            }
                        }
                    }
                }
                break;
            }
            let ghost c = parser.position();
            proof {
                let ts = old(parser).tokens();
                assert forall|bounds: Seq<int>| #[trigger] block_at(ts, p, bounds) implies rules@.len() + 1
                    < bounds.len() && item_span(ts, c, bounds[rules@.len() + 1int]) by {
                    let m = rules@.len() as int;
                    if m == bounds.len() - 1 {
                        assert(ts[bounds.last()].kind is RBrace);
                    }
                }
            }
            let item = RuleOrFact::parse(parser)?;
            proof {
                let ts = parser.tokens();
                let f = |x: RuleOrFact| rule_or_fact_text(x);
                let before = rules@;
                assert(before.push(item).map_values(f) =~= before.map_values(f).push(rule_or_fact_text(item)));
                lemma_concat_push(before.map_values(f), rule_or_fact_text(item));
                lemma_spellings_split(ts, q, c, parser.position());
                lemma_rule_or_fact_nonempty(item);
            }
            rules.push(item);
        }
        let ghost q2 = parser.position();
        parser.expect(TokenKind::RBrace)?;
        proof {
            let ts = parser.tokens();
            lemma_spellings_one(ts, p);
            lemma_spellings_one(ts, p + 1);
            lemma_spellings_one(ts, q2);
            lemma_spellings_split(ts, p, p + 1, q);
            lemma_spellings_split(ts, p, q, q2);
            lemma_spellings_split(ts, p, q2, parser.position());
        }
        Ok(IterationBlock { rules })
    }
}

impl Statement {
    /// Dispatches on the next token: a directive, an iteration block, or a
    /// rule or fact that starts with an identifier.
    pub fn parse(parser: &mut Parser) -> (r: ParseResult<Statement>)
        requires
            old(parser).wf(),
        ensures
            Parser::moved_on(*old(parser), *final(parser)),
            r is Ok ==> final(parser).read_since(old(parser).position()) == statement_text(r->Ok_0),
            r is Ok ==> old(parser).position() < final(parser).position(),
            r matches Ok(Statement::Rule(rule)) ==> {
                &&& rule.span.line_start == old(parser).tokens()[old(parser).position()].span.line
                &&& rule.span.line_end == final(parser).tokens()[final(parser).position() - 1].span.line
            },
            write_directive_at(old(parser).tokens(), old(parser).position()) ==> r is Ok
                && final(parser).position() == old(parser).position() + 7,
            forall|n: int| #[trigger] read_directive_at(old(parser).tokens(), old(parser).position(), n) ==> r is Ok
                && final(parser).position() == old(parser).position() + 2 * n + 8,
            forall|n: Seq<int>| #[trigger] fact_at(old(parser).tokens(), old(parser).position(), n) ==> r is Ok
                && final(parser).position() == atom_at_end(old(parser).position(), n) + 1,
            forall|n: Seq<int>, ends: Seq<int>|
                #[trigger] rule_at(old(parser).tokens(), old(parser).position(), n, ends) ==> r is Ok
                    && final(parser).position() == ends.last() + 1,
            forall|bounds: Seq<int>|
                #[trigger] block_at(old(parser).tokens(), old(parser).position(), bounds) ==> r is Ok
                    && final(parser).position() == bounds.last() + 1,
            forall|j: int| #[trigger] statement_span(old(parser).tokens(), old(parser).position(), j) ==> r is Ok
                && final(parser).position() == j,
            old(parser).position() >= old(parser).tokens().len() ==> (r matches Err(e) && e.message@ == "Expected a statement"@
                && e.span == (Span { line: 0, start: 0, end: 0 })),
            ({
                let ts = old(parser).tokens();
                let p = old(parser).position();
                p < ts.len() && !(ts[p].kind is Read || ts[p].kind is Write || ts[p].kind is Iterate || ts[p].kind is Identifier) ==> (r matches Err(e) && e.message@ == "Unexpected token '"@ + kind_text(
                    ts[p].kind,
                ) + "', expected "@ + "a statement keyword or identifier"@ && e.span == ts[p].span && e.line_ref@ == line_of(
                    old(parser).text(),
                    ts[p].span.line as int,
                ))
            }),
    {
        let code = match parser.peek() {
            Some(t) => kind_number(&t.kind),
            None => {
                return Err(parser.eof_error("Expected a statement"));
            },
        };
        let r = if code == 0 {
            match ReadDirective::parse(parser) {
                Ok(d) => Ok(Statement::Read(d)),
                Err(e) => Err(e),
            }
        } else if code == 2 {
            match WriteDirective::parse(parser) {
                Ok(d) => Ok(Statement::Write(d)),
                Err(e) => Err(e),
            }
        } else if code == 5 {
            match IterationBlock::parse(parser) {
                Ok(b) => Ok(Statement::Iterate(b)),
                Err(e) => Err(e),
            }
        } else if code == 27 {
            match RuleOrFact::parse(parser) {
                Ok(RuleOrFact::Rule(rule)) => Ok(Statement::Rule(rule)),
                Ok(RuleOrFact::Fact(fact)) => Ok(Statement::Fact(fact)),
                Err(e) => Err(e),
            }
        } else {
            let token = parser.consume();
            match token {
                Some(t) => Err(parser.unexpected_token_error(&t, "a statement keyword or identifier")),
                None => Err(parser.eof_error("Expected a statement")),
            }
        };
        proof {
            if r is Ok {
                lemma_statement_nonempty(r->Ok_0);
                if parser.position() == old(parser).position() {
                    assert(spellings(parser.tokens().subrange(old(parser).position(), old(parser).position())) =~= Seq::<Seq<char>>::empty());
                }
            }
        }
        r
    }
}

impl Program {
    /// Parses statements until the tokens run out.
    pub fn parse(parser: &mut Parser) -> (r: ParseResult<Program>)
        requires
            old(parser).wf(),
        ensures
            Parser::moved_on(*old(parser), *final(parser)),
            r is Ok ==> final(parser).position() == final(parser).tokens().len(),
            r is Ok ==> final(parser).read_since(old(parser).position()) == program_text(r->Ok_0),
            old(parser).position() == old(parser).tokens().len() ==> r is Ok && r->Ok_0.statements@.len() == 0,
            forall|bounds: Seq<int>|
                #[trigger] program_at(old(parser).tokens(), bounds) && bounds[0] == old(parser).position()
                    ==> r is Ok,
    {
        let ghost p = parser.position();
        let mut statements: Vec<Statement> = Vec::new();
        proof {
            assert(statements@.map_values(|x: Statement| statement_text(x)) =~= Seq::<Seq<Seq<char>>>::empty());
            assert(spellings(parser.tokens().subrange(p, p)) =~= Seq::<Seq<char>>::empty());
        }
        while parser.peek().is_some()
            invariant
                Parser::moved_on(*old(parser), *parser),
                old(parser).position() == p,
                p == parser.tokens().len() ==> statements@.len() == 0,
                forall|bounds: Seq<int>|
                    #[trigger] program_at(parser.tokens(), bounds) && bounds[0] == p ==> statements@.len()
                        < bounds.len() && parser.position() == bounds[statements@.len() as int],
                parser.read_since(p) == concat(statements@.map_values(|x: Statement| statement_text(x))),
            decreases parser.tokens().len() - parser.position(),
        {
            let ghost c = parser.position();
            proof {
                let ts = parser.tokens();
                assert forall|bounds: Seq<int>|
                    #[trigger] program_at(ts, bounds) && bounds[0] == p implies statements@.len() + 1
                        < bounds.len() && statement_span(ts, c, bounds[statements@.len() + 1int]) by {
                    let m = statements@.len() as int;
                    if m + 1 == bounds.len() {
                        assert(c == ts.len());
                    }
                }
            }
            let st = Statement::parse(parser)?;
            proof {
                let ts = parser.tokens();
                let f = |x: Statement| statement_text(x);
                let before = statements@;
                assert(before.push(st).map_values(f) =~= before.map_values(f).push(statement_text(st)));
                lemma_concat_push(before.map_values(f), statement_text(st));
                lemma_spellings_split(ts, p, c, parser.position());
            }
            statements.push(st);
        }
        Ok(Program { statements })
    }
}

impl<'a> Parser<'a> {
    /// Parses the whole token vector as a program.
    pub fn parse_program(&mut self) -> (r: ParseResult<Program>)
        requires
            old(self).wf(),
        ensures
            Self::moved_on(*old(self), *final(self)),
            r is Ok ==> final(self).position() == final(self).tokens().len(),
            r is Ok ==> final(self).read_since(old(self).position()) == program_text(r->Ok_0),
            old(self).position() == old(self).tokens().len() ==> r is Ok && r->Ok_0.statements@.len() == 0,
            forall|bounds: Seq<int>|
                #[trigger] program_at(old(self).tokens(), bounds) && bounds[0] == old(self).position()
                    ==> r is Ok,
    {
        Program::parse(self)
    }
}

/// A syntax node that a parser can read: the common face of the `parse`
/// functions, each of which states more of its result.
pub trait Parsable<T>: Sized {
    fn parse(parser: &mut Parser) -> (r: ParseResult<T>)
        requires
            old(parser).wf(),
        ensures
            Parser::moved_on(*old(parser), *final(parser)),
    ;
}

impl Parsable<Identifier> for Identifier {
    fn parse(parser: &mut Parser) -> (r: ParseResult<Identifier>) {
        Identifier::parse(parser)
    }
}

impl Parsable<Constant> for Constant {
    fn parse(parser: &mut Parser) -> (r: ParseResult<Constant>) {
        Constant::parse(parser)
    }
}

impl Parsable<Expression> for Expression {
    fn parse(parser: &mut Parser) -> (r: ParseResult<Expression>) {
        Expression::parse(parser)
    }
}

impl Parsable<Atom> for Atom {
    fn parse(parser: &mut Parser) -> (r: ParseResult<Atom>) {
        Atom::parse(parser)
    }
}

impl Parsable<Literal> for Literal {
    fn parse(parser: &mut Parser) -> (r: ParseResult<Literal>) {
        Literal::parse(parser)
    }
}

impl Parsable<RuleOrFact> for RuleOrFact {
    fn parse(parser: &mut Parser) -> (r: ParseResult<RuleOrFact>) {
        RuleOrFact::parse(parser)
    }
}

impl Parsable<ReadDirective> for ReadDirective {
    fn parse(parser: &mut Parser) -> (r: ParseResult<ReadDirective>) {
        ReadDirective::parse(parser)
    }
}

impl Parsable<WriteDirective> for WriteDirective {
    fn parse(parser: &mut Parser) -> (r: ParseResult<WriteDirective>) {
        WriteDirective::parse(parser)
    }
}

impl Parsable<IterationBlock> for IterationBlock {
    fn parse(parser: &mut Parser) -> (r: ParseResult<IterationBlock>) {
        IterationBlock::parse(parser)
    }
}

impl Parsable<Statement> for Statement {
    fn parse(parser: &mut Parser) -> (r: ParseResult<Statement>) {
        Statement::parse(parser)
    }
}

impl Parsable<Program> for Program {
    fn parse(parser: &mut Parser) -> (r: ParseResult<Program>) {
        Program::parse(parser)
    }
}

} // verus!
