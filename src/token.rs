use vstd::prelude::*;

use crate::span::Span;

verus! {

/// The kinds of token that the lexer produces.
///
/// A floating-point literal keeps the decimal text it was written with
/// (`"3.25"`); turning it into a machine float is left to the consumer.
#[derive(Debug)]
pub enum TokenKind {
    Read,
    From,
    Write,
    To,
    As,
    Iterate,
    LParen,
    RParen,
    LBrace,
    RBrace,
    Comma,
    Dot,
    ColonDash,
    Wildcard,
    Not,
    Eq,
    NotEq,
    Lt,
    LtEq,
    Gt,
    GtEq,
    Plus,
    Minus,
    Star,
    Slash,
    Percent,
    Bang,
    Identifier(String),
    Integer(i64),
    Float(String),
    String(String),
    Boolean(bool),
    Eof,
    Illegal,
}

impl Clone for TokenKind {
    fn clone(&self) -> (r: Self)
        ensures
            r == *self,
    {
        match self {
            TokenKind::Read => TokenKind::Read,
            TokenKind::From => TokenKind::From,
            TokenKind::Write => TokenKind::Write,
            TokenKind::To => TokenKind::To,
            TokenKind::As => TokenKind::As,
            TokenKind::Iterate => TokenKind::Iterate,
            TokenKind::LParen => TokenKind::LParen,
            TokenKind::RParen => TokenKind::RParen,
            TokenKind::LBrace => TokenKind::LBrace,
            TokenKind::RBrace => TokenKind::RBrace,
            TokenKind::Comma => TokenKind::Comma,
            TokenKind::Dot => TokenKind::Dot,
            TokenKind::ColonDash => TokenKind::ColonDash,
            TokenKind::Wildcard => TokenKind::Wildcard,
            TokenKind::Not => TokenKind::Not,
            TokenKind::Eq => TokenKind::Eq,
            TokenKind::NotEq => TokenKind::NotEq,
            TokenKind::Lt => TokenKind::Lt,
            TokenKind::LtEq => TokenKind::LtEq,
            TokenKind::Gt => TokenKind::Gt,
            TokenKind::GtEq => TokenKind::GtEq,
            TokenKind::Plus => TokenKind::Plus,
            TokenKind::Minus => TokenKind::Minus,
            TokenKind::Star => TokenKind::Star,
            TokenKind::Slash => TokenKind::Slash,
            TokenKind::Percent => TokenKind::Percent,
            TokenKind::Bang => TokenKind::Bang,
            TokenKind::Identifier(s) => TokenKind::Identifier(s.clone()),
            TokenKind::Integer(i) => TokenKind::Integer(*i),
            TokenKind::Float(s) => TokenKind::Float(s.clone()),
            TokenKind::String(s) => TokenKind::String(s.clone()),
            TokenKind::Boolean(b) => TokenKind::Boolean(*b),
            TokenKind::Eof => TokenKind::Eof,
            TokenKind::Illegal => TokenKind::Illegal,
        }
    }
}

/// A token with the source region it was read from.
#[derive(Debug)]
pub struct Token {
    pub kind: TokenKind,
    pub span: Span,
}

impl Clone for Token {
    fn clone(&self) -> (r: Self)
        ensures
            r == *self,
    {
        Token { kind: self.kind.clone(), span: self.span }
    }
}

impl Token {
    pub fn new(kind: TokenKind, span: Span) -> (r: Token)
        ensures
            r.kind == kind,
            r.span == span,
    {
        Token { kind, span }
    }
}

/// The error that stops lexing: what went wrong, and where.
#[derive(Debug)]
pub struct LexerError {
    pub message: String,
    pub span: Span,
}


pub open spec fn digit_char(d: int) -> char {
    if d == 0 {
        '0'
    } else if d == 1 {
        '1'
    } else if d == 2 {
        '2'
    } else if d == 3 {
        '3'
    } else if d == 4 {
        '4'
    } else if d == 5 {
        '5'
    } else if d == 6 {
        '6'
    } else if d == 7 {
        '7'
    } else if d == 8 {
        '8'
    } else {
        '9'
    }
}

/// The decimal digits of a natural number, without leading zeros.
pub open spec fn decimal(n: nat) -> Seq<char>
    decreases n,
{
    if n < 10 {
        seq![digit_char(n as int)]
    } else {
        decimal(n / 10).push(digit_char((n % 10) as int))
    }
}

/// The decimal text of an integer, with a leading `-` when negative.
pub open spec fn signed_decimal(v: int) -> Seq<char> {
    if v < 0 {
        seq!['-'] + decimal((-v) as nat)
    } else {
        decimal(v as nat)
    }
}

/// The spelling of a name: `$` and its text. The tag keeps names apart from
/// keywords and literals.
pub open spec fn name_spelling(s: Seq<char>) -> Seq<char> {
    seq!['$'] + s
}

/// The spelling of an integer: `#` and its decimal digits.
pub open spec fn integer_spelling(v: int) -> Seq<char> {
    seq!['#'] + signed_decimal(v)
}

/// The spelling of a float: `~` and its decimal text.
pub open spec fn float_spelling(s: Seq<char>) -> Seq<char> {
    seq!['~'] + s
}

/// The canonical spelling of a token: two tokens that the parser treats
/// alike spell the same, and tokens of different kinds never do (names,
/// integers and floats carry a tag that no other spelling starts with). An
/// integer is spelled without leading zeros, and `!` spells the negation
/// keyword `not`.
pub open spec fn spelling(k: TokenKind) -> Seq<char> {
    match k {
        TokenKind::Read => ".read"@,
        TokenKind::From => "from"@,
        TokenKind::Write => ".write"@,
        TokenKind::To => "to"@,
        TokenKind::As => "as"@,
        TokenKind::Iterate => ".iterate"@,
        TokenKind::LParen => "("@,
        TokenKind::RParen => ")"@,
        TokenKind::LBrace => "{"@,
        TokenKind::RBrace => "}"@,
        TokenKind::Comma => ","@,
        TokenKind::Dot => "."@,
        TokenKind::ColonDash => ":-"@,
        TokenKind::Wildcard => "_"@,
        TokenKind::Not => "not"@,
        TokenKind::Eq => "=="@,
        TokenKind::NotEq => "!="@,
        TokenKind::Lt => "<"@,
        TokenKind::LtEq => "<="@,
        TokenKind::Gt => ">"@,
        TokenKind::GtEq => ">="@,
        TokenKind::Plus => "+"@,
        TokenKind::Minus => "-"@,
        TokenKind::Star => "*"@,
        TokenKind::Slash => "/"@,
        TokenKind::Percent => "%"@,
        TokenKind::Bang => "not"@,
        TokenKind::Identifier(s) => name_spelling(s@),
        TokenKind::Integer(v) => integer_spelling(v as int),
        TokenKind::Float(s) => float_spelling(s@),
        TokenKind::String(s) => seq!['"'] + s@ + seq!['"'],
        TokenKind::Boolean(b) => if b {
            "true"@
        } else {
            "false"@
        },
        TokenKind::Eof => Seq::empty(),
        TokenKind::Illegal => Seq::empty(),
    }
}

/// The canonical spellings of a run of tokens.
pub open spec fn spellings(ts: Seq<Token>) -> Seq<Seq<char>> {
    ts.map_values(|t: Token| spelling(t.kind))
}

pub proof fn lemma_spellings_split(ts: Seq<Token>, a: int, b: int, c: int)
    requires
        0 <= a <= b <= c <= ts.len(),
    ensures
        spellings(ts.subrange(a, c)) == spellings(ts.subrange(a, b)) + spellings(ts.subrange(b, c)),
{
    assert(spellings(ts.subrange(a, c)) =~= spellings(ts.subrange(a, b)) + spellings(ts.subrange(b, c)));
}

pub proof fn lemma_spellings_one(ts: Seq<Token>, a: int)
    requires
        0 <= a < ts.len(),
    ensures
        spellings(ts.subrange(a, a + 1)) == seq![spelling(ts[a].kind)],
{
    assert(spellings(ts.subrange(a, a + 1)) =~= seq![spelling(ts[a].kind)]);
}
} // verus!
