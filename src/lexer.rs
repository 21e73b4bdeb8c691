use vstd::prelude::*;

use crate::span::Span;
use crate::token::{LexerError, Token, TokenKind};
use vstd::std_specs::iter::IteratorSpec;

verus! {

/// Whether `char::is_alphabetic` holds of a character (Unicode `Alphabetic`).
pub uninterp spec fn alphabetic(c: char) -> bool;

/// Whether `char::is_alphanumeric` holds of a character.
pub uninterp spec fn alphanumeric(c: char) -> bool;

/// Whether `char::is_whitespace` holds of a character (Unicode `White_Space`).
pub uninterp spec fn whitespace(c: char) -> bool;

/// Relies on `char::is_alphabetic`: a function of the character alone.
pub assume_specification[ char::is_alphabetic ](c: char) -> (r: bool)
    ensures
        r == alphabetic(c),
;

/// Relies on `char::is_alphanumeric`: a function of the character alone.
pub assume_specification[ char::is_alphanumeric ](c: char) -> (r: bool)
    ensures
        r == alphanumeric(c),
;

/// Relies on `char::is_whitespace`: a function of the character alone.
pub assume_specification[ char::is_whitespace ](c: char) -> (r: bool)
    ensures
        r == whitespace(c),
;

pub open spec fn is_digit(c: char) -> bool {
    '0' <= c <= '9'
}

pub open spec fn all_digits(s: Seq<char>) -> bool {
    forall|i: int| 0 <= i < s.len() ==> is_digit(#[trigger] s[i])
}

/// The value of a string of decimal digits.
pub open spec fn decimal_value(s: Seq<char>) -> int
    decreases s.len(),
{
    if s.len() == 0 {
        0
    } else {
        decimal_value(s.drop_last()) * 10 + (s.last() as int - '0' as int)
    }
}

pub open spec fn ident_char(c: char) -> bool {
    alphanumeric(c) || c == '_'
}

/// A word: an alphabetic character followed by letters, digits and underscores.
pub open spec fn is_word(text: Seq<char>) -> bool {
    &&& text.len() > 0
    &&& alphabetic(text[0])
    &&& forall|i: int| 1 <= i < text.len() ==> ident_char(#[trigger] text[i])
}

/// The keyword that a word spells, if any.
pub open spec fn keyword(text: Seq<char>) -> Option<TokenKind> {
    if text == "from"@ {
        Some(TokenKind::From)
    } else if text == "to"@ {
        Some(TokenKind::To)
    } else if text == "as"@ {
        Some(TokenKind::As)
    } else if text == "not"@ {
        Some(TokenKind::Not)
    } else if text == "true"@ {
        Some(TokenKind::Boolean(true))
    } else if text == "false"@ {
        Some(TokenKind::Boolean(false))
    } else {
        None
    }
}

/// The directive that a word after a leading `.` names, if any.
pub open spec fn directive(word: Seq<char>) -> Option<TokenKind> {
    if word == "read"@ {
        Some(TokenKind::Read)
    } else if word == "write"@ {
        Some(TokenKind::Write)
    } else if word == "iterate"@ {
        Some(TokenKind::Iterate)
    } else {
        None
    }
}

pub open spec fn single(text: Seq<char>, c: char) -> bool {
    text.len() == 1 && text[0] == c
}

pub open spec fn pair(text: Seq<char>, c: char, d: char) -> bool {
    text.len() == 2 && text[0] == c && text[1] == d
}

/// `text` is a lexeme that the lexer reads as a token of kind `kind`.
pub open spec fn lexeme_of(kind: TokenKind, text: Seq<char>) -> bool {
    match kind {
        TokenKind::Read | TokenKind::Write | TokenKind::Iterate => {
            &&& text.len() > 1
            &&& text[0] == '.'
            &&& is_word(text.drop_first())
            &&& directive(text.drop_first()) == Some(kind)
        },
        TokenKind::From | TokenKind::To | TokenKind::As | TokenKind::Not | TokenKind::Boolean(_) => {
            is_word(text) && keyword(text) == Some(kind)
        },
        TokenKind::Identifier(s) => is_word(text) && keyword(text) is None && s@ == text,
        TokenKind::Integer(v) => text.len() > 0 && all_digits(text) && v == decimal_value(text),
        TokenKind::Float(s) => {
            &&& s@ == text
            &&& exists|k: int|
                0 < k < text.len() - 1 && #[trigger] text[k] == '.' && all_digits(text.subrange(0, k))
                    && all_digits(text.subrange(k + 1, text.len() as int))
        },
        TokenKind::String(s) => {
            &&& text.len() >= 2
            &&& text[0] == '"'
            &&& text.last() == '"'
            &&& s@ == text.subrange(1, text.len() - 1)
            &&& !s@.contains('"')
        },
        TokenKind::LParen => single(text, '('),
        TokenKind::RParen => single(text, ')'),
        TokenKind::LBrace => single(text, '{'),
        TokenKind::RBrace => single(text, '}'),
        TokenKind::Comma => single(text, ','),
        TokenKind::Dot => single(text, '.'),
        TokenKind::Wildcard => single(text, '_'),
        TokenKind::Plus => single(text, '+'),
        TokenKind::Minus => single(text, '-'),
        TokenKind::Star => single(text, '*'),
        TokenKind::Slash => single(text, '/'),
        TokenKind::Percent => single(text, '%'),
        TokenKind::Lt => single(text, '<'),
        TokenKind::Gt => single(text, '>'),
        TokenKind::Bang => single(text, '!'),
        TokenKind::ColonDash => pair(text, ':', '-'),
        TokenKind::NotEq => pair(text, '!', '='),
        TokenKind::Eq => pair(text, '=', '='),
        TokenKind::LtEq => pair(text, '<', '='),
        TokenKind::GtEq => pair(text, '>', '='),
        TokenKind::Eof => text.len() == 0,
        TokenKind::Illegal => false,
    }
}

/// Where skipping whitespace and `#` comments from `a` stops; `in_comment`
/// says whether `a` lies inside a comment.
pub open spec fn skip_end(text: Seq<char>, a: int, in_comment: bool) -> int
    decreases text.len() - a, if in_comment {
        1int
    } else {
        0int
    },
{
    if a < 0 || a >= text.len() {
        a
    } else if in_comment {
        if text[a] == '\n' {
            skip_end(text, a, false)
        } else {
            skip_end(text, a + 1, true)
        }
    } else if whitespace(text[a]) {
        skip_end(text, a + 1, false)
    } else if text[a] == '#' {
        skip_end(text, a + 1, true)
    } else {
        a
    }
}

/// The end of the run of letters, digits and underscores that starts at `i`.
pub open spec fn word_end(text: Seq<char>, i: int) -> int
    decreases text.len() - i,
{
    if 0 <= i < text.len() && ident_char(text[i]) {
        word_end(text, i + 1)
    } else {
        i
    }
}

/// The end of the run of decimal digits that starts at `i`.
pub open spec fn digits_end(text: Seq<char>, i: int) -> int
    decreases text.len() - i,
{
    if 0 <= i < text.len() && is_digit(text[i]) {
        digits_end(text, i + 1)
    } else {
        i
    }
}

/// A character that can begin a token.
pub open spec fn starts_token(c: char) -> bool {
    c == '(' || c == ')' || c == '{' || c == '}' || c == ',' || c == '_' || c == '+' || c == '-' || c == '*'
        || c == '/' || c == '%' || c == ':' || c == '!' || c == '=' || c == '<' || c == '>' || c == '.' || c
        == '"' || is_digit(c) || alphabetic(c)
}

/// The character at `i` is `c`.
pub open spec fn char_at(text: Seq<char>, i: int, c: char) -> bool {
    0 <= i < text.len() && text[i] == c
}

/// A token that starts at `b` cannot be read: an unknown character, a `:`
/// without `-`, a `=` without `=`, an unknown directive, a string that is
/// never closed, or an integer that does not fit in 64 bits.
pub open spec fn lex_error_at(text: Seq<char>, b: int) -> bool {
    &&& 0 <= b < text.len()
    &&& {
        let c = text[b];
        ||| !starts_token(c)
        ||| c == ':' && !char_at(text, b + 1, '-')
        ||| c == '=' && !char_at(text, b + 1, '=')
        ||| c == '.' && b + 1 < text.len() && alphabetic(text[b + 1]) && directive(
            text.subrange(b + 1, word_end(text, b + 2)),
        ) is None
        ||| c == '"' && !text.subrange(b + 1, text.len() as int).contains('"')
        ||| is_digit(c) && number_overflows(text, b)
    }
}

/// The message of the lexing error at `b`.
pub open spec fn lex_error_message(text: Seq<char>, b: int) -> Seq<char> {
    let c = text[b];
    if c == '.' {
        "Unknown directive '"@ + text.subrange(b, word_end(text, b + 2)) + "'"@
    } else if c == '"' {
        "Unterminated string literal"@
    } else if is_digit(c) {
        "Integer literal out of range: "@ + text.subrange(b, digits_end(text, b + 1))
    } else {
        "Unrecognized character '"@ + seq![c] + "'"@
    }
}

/// The last column of the span of the lexing error at `b`, given its first
/// column `start`: the span covers what was read, and for a string that is
/// never closed it ends one past the text.
pub open spec fn lex_error_end(text: Seq<char>, b: int, start: int) -> int {
    let c = text[b];
    if c == '.' {
        start + (word_end(text, b + 2) - b) - 1
    } else if c == '"' {
        start + (text.len() - b)
    } else if is_digit(c) {
        start + (digits_end(text, b + 1) - b) - 1
    } else {
        start
    }
}

/// The number that starts at `b` is an integer too large for `i64`.
pub open spec fn number_overflows(text: Seq<char>, b: int) -> bool {
    let e = digits_end(text, b + 1);
    &&& !(char_at(text, e, '.') && e + 1 < text.len() && is_digit(text[e + 1]))
    &&& decimal_value(text.subrange(b, e)) > i64::MAX
}

/// The first `"` at or after `i`, or the end of the text.
pub open spec fn find_quote(text: Seq<char>, i: int) -> int
    decreases text.len() - i,
{
    if 0 <= i < text.len() && text[i] != '"' {
        find_quote(text, i + 1)
    } else {
        i
    }
}

/// Where the token that starts at `b` ends, when it can be read.
pub open spec fn lexeme_end(text: Seq<char>, b: int) -> int {
    let c = text[b];
    if c == '(' || c == ')' || c == '{' || c == '}' || c == ',' || c == '_' || c == '+' || c == '-' || c
        == '*' || c == '/' || c == '%' {
        b + 1
    } else if c == ':' || c == '=' {
        b + 2
    } else if c == '!' || c == '<' || c == '>' {
        if char_at(text, b + 1, '=') {
            b + 2
        } else {
            b + 1
        }
    } else if c == '.' {
        if b + 1 < text.len() && alphabetic(text[b + 1]) {
            word_end(text, b + 2)
        } else {
            b + 1
        }
    } else if c == '"' {
        find_quote(text, b + 1) + 1
    } else if is_digit(c) {
        let e = digits_end(text, b + 1);
        if char_at(text, e, '.') && e + 1 < text.len() && is_digit(text[e + 1]) {
            digits_end(text, e + 1)
        } else {
            e
        }
    } else {
        word_end(text, b + 1)
    }
}

/// Reading tokens from `a` meets no error before the end of the text, in
/// at most `fuel` tokens.
pub open spec fn lexes_from(text: Seq<char>, a: int, fuel: nat) -> bool
    decreases fuel,
{
    let b = skip_end(text, a, false);
    if b >= text.len() {
        true
    } else if fuel == 0 {
        false
    } else {
        !lex_error_at(text, b) && lexes_from(text, lexeme_end(text, b), (fuel - 1) as nat)
    }
}

/// Where the tokens read from `a` start, at most `fuel` of them.
pub open spec fn token_starts(text: Seq<char>, a: int, fuel: nat) -> Seq<int>
    decreases fuel,
{
    let b = skip_end(text, a, false);
    if b >= text.len() || fuel == 0 {
        Seq::empty()
    } else {
        seq![b] + token_starts(text, lexeme_end(text, b), (fuel - 1) as nat)
    }
}

/// Where the tokens of the text that are left after position `a` start.
pub open spec fn starts_from(text: Seq<char>, a: int) -> Seq<int> {
    token_starts(text, a, (text.len() - a + 1) as nat)
}

/// `ts` are the tokens of `text` that start at `starts`: each one is the
/// lexeme from its start to `lexeme_end`, its span starts at the line and
/// column of its start, and it is as wide as the lexeme.
pub open spec fn tokens_match(text: Seq<char>, ts: Seq<Token>, starts: Seq<int>) -> bool {
    &&& ts.len() == starts.len()
    &&& forall|i: int|
        0 <= i < ts.len() ==> {
            &&& lexeme_of(#[trigger] ts[i].kind, text.subrange(starts[i], lexeme_end(text, starts[i])))
            &&& ts[i].span.end - ts[i].span.start + 1 == lexeme_end(text, starts[i]) - starts[i]
            &&& ts[i].span.line == line_of_pos(text, starts[i])
            &&& ts[i].span.start == column_of_pos(text, starts[i])
        }
}

proof fn lemma_starts_fuel(text: Seq<char>, a: int, f1: nat, f2: nat)
    requires
        0 <= a,
        f1 >= text.len() - a + 1,
        f2 >= text.len() - a + 1,
    ensures
        token_starts(text, a, f1) == token_starts(text, a, f2),
    decreases f1,
{
    let b = skip_end(text, a, false);
    lemma_skip_grows(text, a, false);
    if b < text.len() {
        lemma_lexeme_grows(text, b);
        lemma_starts_fuel(text, lexeme_end(text, b), (f1 - 1) as nat, (f2 - 1) as nat);
    }
}

/// The whole text reads as tokens without a lexing error.
pub open spec fn lexes_cleanly(text: Seq<char>) -> bool {
    lexes_from(text, 0, (text.len() + 1) as nat)
}

proof fn lemma_ends_grow(text: Seq<char>, i: int)
    requires
        0 <= i,
    ensures
        word_end(text, i) >= i,
        digits_end(text, i) >= i,
        find_quote(text, i) >= i,
        find_quote(text, i) <= text.len() || find_quote(text, i) == i,
    decreases text.len() - i,
{
    if i < text.len() {
        lemma_ends_grow(text, i + 1);
    }
}

proof fn lemma_ends_bounded(text: Seq<char>, i: int)
    requires
        0 <= i <= text.len(),
    ensures
        word_end(text, i) <= text.len(),
        digits_end(text, i) <= text.len(),
    decreases text.len() - i,
{
    if i < text.len() {
        lemma_ends_bounded(text, i + 1);
    }
}

proof fn lemma_skip_grows(text: Seq<char>, a: int, in_comment: bool)
    requires
        0 <= a,
    ensures
        skip_end(text, a, in_comment) >= a,
    decreases text.len() - a, if in_comment {
        1int
    } else {
        0int
    },
{
    if a < text.len() {
        if in_comment {
            if text[a] == '\n' {
                lemma_skip_grows(text, a, false);
            } else {
                lemma_skip_grows(text, a + 1, true);
            }
        } else if whitespace(text[a]) {
            lemma_skip_grows(text, a + 1, false);
        } else if text[a] == '#' {
            lemma_skip_grows(text, a + 1, true);
        }
    }
}

proof fn lemma_lexeme_grows(text: Seq<char>, b: int)
    requires
        0 <= b < text.len(),
    ensures
        lexeme_end(text, b) > b,
{
    lemma_ends_grow(text, b + 1);
    lemma_ends_grow(text, b + 2);
    let e = digits_end(text, b + 1);
    lemma_ends_grow(text, e + 1);
}

/// Any fuel that covers every remaining character gives the same answer.
proof fn lemma_fuel(text: Seq<char>, a: int, f1: nat, f2: nat)
    requires
        0 <= a,
        f1 >= text.len() - a + 1,
        f2 >= text.len() - a + 1,
    ensures
        lexes_from(text, a, f1) == lexes_from(text, a, f2),
    decreases f1,
{
    let b = skip_end(text, a, false);
    lemma_skip_grows(text, a, false);
    if b < text.len() {
        lemma_lexeme_grows(text, b);
        lemma_fuel(text, lexeme_end(text, b), (f1 - 1) as nat, (f2 - 1) as nat);
    }
}

proof fn lemma_quote_skip(text: Seq<char>, i: int, j: int)
    requires
        0 <= i <= j <= text.len(),
        forall|k: int| i <= k < j ==> #[trigger] text[k] != '"',
    ensures
        find_quote(text, i) == find_quote(text, j),
    decreases j - i,
{
    if i < j {
        lemma_quote_skip(text, i + 1, j);
    }
}

/// Where the line that holds position `pos` starts: just after the last
/// line break before `pos`, or 0.
pub open spec fn line_start_of(text: Seq<char>, pos: int) -> int
    decreases pos,
{
    if pos <= 0 {
        0
    } else if text[pos - 1] == '\n' {
        pos
    } else {
        line_start_of(text, pos - 1)
    }
}

/// The 1-based line of position `pos`: one more than the line breaks
/// before it.
pub open spec fn line_of_pos(text: Seq<char>, pos: int) -> int {
    1 + crate::source::newlines(text.subrange(0, pos)) as int
}

/// The 1-based column of position `pos` on its line.
pub open spec fn column_of_pos(text: Seq<char>, pos: int) -> int {
    pos - line_start_of(text, pos) + 1
}

proof fn lemma_line_step(text: Seq<char>, pos: int)
    requires
        0 <= pos < text.len(),
    ensures
        line_of_pos(text, pos + 1) == line_of_pos(text, pos) + if text[pos] == '\n' {
            1int
        } else {
            0int
        },
        line_start_of(text, pos + 1) == if text[pos] == '\n' {
            pos + 1
        } else {
            line_start_of(text, pos)
        },
{
    assert(text.subrange(0, pos + 1).drop_last() =~= text.subrange(0, pos));
}

/// Moving forward never goes to an earlier line, and on one line the column
/// grows with the position.
proof fn lemma_pos_order(text: Seq<char>, b: int, e: int)
    requires
        0 <= b <= e <= text.len(),
    ensures
        line_of_pos(text, b) <= line_of_pos(text, e),
        line_of_pos(text, b) == line_of_pos(text, e) ==> column_of_pos(text, e) - column_of_pos(text, b) == e - b,
    decreases e - b,
{
    if b < e {
        lemma_pos_order(text, b, e - 1);
        lemma_line_step(text, e - 1);
    }
}

/// `(l1, c1)` comes no later than `(l2, c2)` in (line, column) order.
pub open spec fn at_or_before(l1: int, c1: int, l2: int, c2: int) -> bool {
    l1 < l2 || (l1 == l2 && c1 <= c2)
}

/// Every token after the first starts at or after the point where the one
/// before it ends.
pub open spec fn spans_monotone(tokens: Seq<Token>) -> bool {
    forall|i: int|
        0 < i < tokens.len() ==> at_or_before(
            tokens[i - 1].span.line as int,
            tokens[i - 1].span.end as int,
            #[trigger] tokens[i].span.line as int,
            tokens[i].span.start as int,
        )
}


/// The characters of a string slice, in order.
pub fn chars_of(source: &str) -> (chars: Vec<char>)
    ensures
        chars@ == source@,
{
        let mut chars: Vec<char> = Vec::new();
        let mut it = source.chars();
        proof {
            broadcast use vstd::string::axiom_spec_iter;
        }
        loop
            invariant
                chars@ + it.remaining() == source@,
                it.obeys_prophetic_iter_laws(),
                it.decrease() is Some,
            ensures
                chars@ == source@,
            decreases it.decrease()->0,
        {
            let ghost before = it;
            let n = it.next();
            proof {
                broadcast use vstd::string::next_postcondition;
            }
            match n {
                Some(c) => {
                    chars.push(c);
                    assert(chars@ + it.remaining() =~= source@);
                },
                None => {
                    assert(chars@ =~= source@);
                    break;
                },
            }
        }
        chars
}

/// A hand-written scanner over the characters of a source text.
pub struct Lexer<'a> {
    source: &'a str,
    chars: Vec<char>,
    pos: usize,
    line: usize,
    line_start_pos: usize,
}

impl<'a> Lexer<'a> {
    pub closed spec fn wf(&self) -> bool {
        &&& self.chars@ == self.source@
        &&& self.chars.len() < usize::MAX
        &&& self.line_start_pos <= self.pos <= self.chars.len()
        &&& 1 <= self.line <= self.pos + 1
        &&& self.line == line_of_pos(self.chars@, self.pos as int)
        &&& self.line_start_pos == line_start_of(self.chars@, self.pos as int)
    }

    /// The characters of the source text.
    pub closed spec fn text(&self) -> Seq<char> {
        self.chars@
    }

    /// How many characters have been read.
    pub closed spec fn position(&self) -> nat {
        self.pos as nat
    }

    /// The current line, 1-based.
    pub closed spec fn current_line(&self) -> int {
        self.line as int
    }

    /// The column of the last character read on the current line (0 when
    /// none has been read on it).
    pub closed spec fn last_column(&self) -> int {
        self.pos - self.line_start_pos
    }

    pub fn new(source: &'a str) -> (r: Lexer<'a>)
        requires
            source@.len() < usize::MAX,
        ensures
            r.wf(),
            r.text() == source@,
            r.position() == 0,
            r.current_line() == 1,
            r.last_column() == 0,
    {
        let chars = chars_of(source);
        Lexer { source, chars, pos: 0, line: 1, line_start_pos: 0 }
    }
}


impl<'a> Lexer<'a> {
    fn peek(&self) -> (r: Option<char>)
        requires
            self.wf(),
        ensures
            self.pos < self.chars.len() ==> r == Some(self.chars@[self.pos as int]),
            self.pos >= self.chars.len() ==> r is None,
    {
        if self.pos < self.chars.len() {
            Some(self.chars[self.pos])
        } else {
            None
        }
    }

    /// The character after the next one, if any.
    fn peek_second(&self) -> (r: Option<char>)
        requires
            self.wf(),
        ensures
            self.pos + 1 < self.chars.len() ==> r == Some(self.chars@[self.pos + 1]),
            self.pos + 1 >= self.chars.len() ==> r is None,
    {
        if self.pos + 1 < self.chars.len() {
            Some(self.chars[self.pos + 1])
        } else {
            None
        }
    }

    fn next_char(&mut self) -> (r: Option<char>)
        requires
            old(self).wf(),
        ensures
            final(self).wf(),
            final(self).source == old(self).source,
            final(self).chars == old(self).chars,
            old(self).pos < old(self).chars.len() ==> r == Some(old(self).chars@[old(self).pos as int])
                && final(self).pos == old(self).pos + 1,
            old(self).pos >= old(self).chars.len() ==> r is None && final(self).pos == old(self).pos,
    {
        if self.pos < self.chars.len() {
            let c = self.chars[self.pos];
            proof {
                lemma_line_step(self.chars@, self.pos as int);
            }
            self.pos = self.pos + 1;
            if c == '\n' {
                self.line = self.line + 1;
                self.line_start_pos = self.pos;
            }
            Some(c)
        } else {
            None
        }
    }

    fn column(&self) -> (r: usize)
        requires
            self.wf(),
        ensures
            r == self.pos - self.line_start_pos + 1,
    {
        self.pos - self.line_start_pos + 1
    }

    fn skip_whitespace_and_comments(&mut self)
        requires
            old(self).wf(),
        ensures
            final(self).wf(),
            final(self).source == old(self).source,
            final(self).chars == old(self).chars,
            old(self).pos <= final(self).pos,
            final(self).pos == skip_end(old(self).chars@, old(self).pos as int, false),
    {
        loop
            invariant
                self.wf(),
                self.source == old(self).source,
                self.chars == old(self).chars,
                old(self).pos <= self.pos,
                skip_end(self.chars@, self.pos as int, false) == skip_end(
                    self.chars@,
                    old(self).pos as int,
                    false,
                ),
            ensures
                self.wf(),
                self.source == old(self).source,
                self.chars == old(self).chars,
                old(self).pos <= self.pos,
                self.pos == skip_end(self.chars@, old(self).pos as int, false),
            decreases self.chars.len() - self.pos,
        {
            let ghost start = self.pos;
            match self.peek() {
                Some(c) => {
                    if c.is_whitespace() {
                        self.next_char();
                    } else if c == '#' {
                        self.next_char();
                        loop
                            invariant
                                self.wf(),
                                self.source == old(self).source,
                                self.chars == old(self).chars,
                                start < self.pos,
                                old(self).pos < self.pos,
                                skip_end(self.chars@, self.pos as int, true) == skip_end(
                                    self.chars@,
                                    old(self).pos as int,
                                    false,
                                ),
                            ensures
                                self.wf(),
                                self.source == old(self).source,
                                self.chars == old(self).chars,
                                start < self.pos,
                                old(self).pos < self.pos,
                                skip_end(self.chars@, self.pos as int, false) == skip_end(
                                    self.chars@,
                                    old(self).pos as int,
                                    false,
                                ),
                            decreases self.chars.len() - self.pos,
                        {
                            match self.peek() {
                                Some(d) => {
                                    if d == '\n' {
                                        break;
                                    }
                                    self.next_char();
                                },
                                None => break,
                            }
                        }
                    } else {
                        break;
                    }
                },
                None => break,
            }
        }
    }
}

/// Whether the characters `chars[a..b]` spell `w`.
fn range_spells(chars: &Vec<char>, a: usize, b: usize, w: &str) -> (r: bool)
    requires
        a <= b <= chars.len(),
    ensures
        r == (chars@.subrange(a as int, b as int) == w@),
{
    let n = w.unicode_len();
    if b - a != n {
        return false;
    }
    let mut i: usize = 0;
    while i < n
        invariant
            i <= n,
            n == b - a,
            n == w@.len(),
            a <= b <= chars.len(),
            forall|j: int| 0 <= j < i ==> chars@[a + j] == w@[j],
        decreases n - i,
    {
        if chars[a + i] != w.get_char(i) {
            assert(chars@.subrange(a as int, b as int)[i as int] != w@[i as int]);
            return false;
        }
        i = i + 1;
    }
    assert(chars@.subrange(a as int, b as int) =~= w@);
    true
}

impl<'a> Lexer<'a> {
    /// Reads letters, digits and underscores for as long as they come.
    fn read_word_rest(&mut self)
        requires
            old(self).wf(),
        ensures
            final(self).wf(),
            final(self).source == old(self).source,
            final(self).chars == old(self).chars,
            old(self).pos <= final(self).pos,
            forall|i: int| old(self).pos <= i < final(self).pos ==> ident_char(#[trigger] final(self).chars@[i]),
            final(self).pos < final(self).chars.len() ==> !ident_char(final(self).chars@[final(self).pos as int]),
            final(self).pos == word_end(old(self).chars@, old(self).pos as int),
    {
        loop
            invariant
                self.wf(),
                self.source == old(self).source,
                self.chars == old(self).chars,
                old(self).pos <= self.pos,
                forall|i: int| old(self).pos <= i < self.pos ==> ident_char(#[trigger] self.chars@[i]),
                word_end(self.chars@, self.pos as int) == word_end(self.chars@, old(self).pos as int),
            ensures
                self.wf(),
                self.source == old(self).source,
                self.chars == old(self).chars,
                old(self).pos <= self.pos,
                forall|i: int| old(self).pos <= i < self.pos ==> ident_char(#[trigger] self.chars@[i]),
                self.pos < self.chars.len() ==> !ident_char(self.chars@[self.pos as int]),
                self.pos == word_end(self.chars@, old(self).pos as int),
            decreases self.chars.len() - self.pos,
        {
            match self.peek() {
                Some(c) => {
                    if c.is_alphanumeric() || c == '_' {
                        self.next_char();
                    } else {
                        break;
                    }
                },
                None => break,
            }
        }
    }

    /// The text `source[a..b]` as an owned string.
    fn slice(&self, a: usize, b: usize) -> (r: String)
        requires
            self.wf(),
            a <= b <= self.chars.len(),
        ensures
            r@ == self.chars@.subrange(a as int, b as int),
    {
        String::from_str(self.source.substring_char(a, b))
    }

    /// The keyword or identifier that `source[a..b]` spells.
    fn word_kind(&self, a: usize, b: usize) -> (r: TokenKind)
        requires
            self.wf(),
            a <= b <= self.chars.len(),
        ensures
            keyword(self.chars@.subrange(a as int, b as int)) is Some ==> r == keyword(
                self.chars@.subrange(a as int, b as int),
            )->0,
            keyword(self.chars@.subrange(a as int, b as int)) is None ==> r is Identifier
                && r->Identifier_0@ == self.chars@.subrange(a as int, b as int),
    {
        if range_spells(&self.chars, a, b, "from") {
            TokenKind::From
        } else if range_spells(&self.chars, a, b, "to") {
            TokenKind::To
        } else if range_spells(&self.chars, a, b, "as") {
            TokenKind::As
        } else if range_spells(&self.chars, a, b, "not") {
            TokenKind::Not
        } else if range_spells(&self.chars, a, b, "true") {
            TokenKind::Boolean(true)
        } else if range_spells(&self.chars, a, b, "false") {
            TokenKind::Boolean(false)
        } else {
            TokenKind::Identifier(self.slice(a, b))
        }
    }
}

/// What one call of `next_token` did: the token read, between the lexer
/// states `before` and `after`.
pub open spec fn token_read(before: Lexer, after: Lexer, t: Token) -> bool {
    let text = before.text();
    let b = skip_end(text, before.position() as int, false);
    &&& after.text() == text
    &&& before.position() <= b
    &&& t.span.line == line_of_pos(text, b)
    &&& t.span.start == column_of_pos(text, b)
    &&& t.kind is Eof ==> {
        &&& b == text.len()
        &&& after.position() == text.len()
        &&& t.span.end == t.span.start
    }
    &&& !(t.kind is Eof) ==> {
        &&& b < after.position()
        &&& t.span.end == t.span.start + (after.position() - b) - 1
        &&& lexeme_of(t.kind, text.subrange(b, after.position() as int))
    }
}

impl<'a> Lexer<'a> {
    fn digit_value(c: char) -> (r: i64)
        requires
            is_digit(c),
        ensures
            r == c as int - '0' as int,
            0 <= r <= 9,
    {
        (c as u32 - '0' as u32) as i64
    }

    /// Reads the rest of a number whose first digit was just read.
    fn read_number(&mut self, line: usize, start_col: usize) -> (r: Result<TokenKind, LexerError>)
        requires
            old(self).wf(),
            1 <= start_col <= old(self).pos,
            old(self).pos >= 1,
            is_digit(old(self).chars@[old(self).pos - 1]),
        ensures
            final(self).wf(),
            final(self).source == old(self).source,
            final(self).chars == old(self).chars,
            old(self).pos <= final(self).pos,
            r is Ok ==> lexeme_of(
                r->Ok_0,
                final(self).chars@.subrange(old(self).pos - 1, final(self).pos as int),
            ),
            r is Err <==> number_overflows(old(self).chars@, old(self).pos - 1),
            r is Ok ==> final(self).pos == lexeme_end(old(self).chars@, old(self).pos - 1),
            r matches Err(e) ==> e.message@ == "Integer literal out of range: "@ + old(self).chars@.subrange(
                old(self).pos - 1,
                digits_end(old(self).chars@, old(self).pos as int),
            ) && e.span == (Span {
                line,
                start: start_col,
                end: (start_col + (digits_end(old(self).chars@, old(self).pos as int) - old(self).pos)) as usize,
            }),
    {
        let a = self.pos - 1;
        let mut value: i64 = Self::digit_value(self.chars[a]);
        let mut fits = true;
        proof {
            let t = self.chars@.subrange(a as int, self.pos as int);
            assert(t.drop_last() =~= Seq::<char>::empty());
            assert(decimal_value(t.drop_last()) == 0);
            assert(t.last() == self.chars@[a as int]);
        }
        loop
            invariant
                self.wf(),
                self.source == old(self).source,
                self.chars == old(self).chars,
                a + 1 <= self.pos,
                a + 1 == old(self).pos,
                value >= 0,
                all_digits(self.chars@.subrange(a as int, self.pos as int)),
                fits ==> value == decimal_value(self.chars@.subrange(a as int, self.pos as int)),
                !fits ==> decimal_value(self.chars@.subrange(a as int, self.pos as int)) > i64::MAX,
                digits_end(self.chars@, self.pos as int) == digits_end(self.chars@, a + 1),
            ensures
                self.wf(),
                self.source == old(self).source,
                self.chars == old(self).chars,
                a + 1 <= self.pos,
                value >= 0,
                all_digits(self.chars@.subrange(a as int, self.pos as int)),
                fits ==> value == decimal_value(self.chars@.subrange(a as int, self.pos as int)),
                !fits ==> decimal_value(self.chars@.subrange(a as int, self.pos as int)) > i64::MAX,
                self.pos < self.chars.len() ==> !is_digit(self.chars@[self.pos as int]),
                self.pos == digits_end(self.chars@, a + 1),
            decreases self.chars.len() - self.pos,
        {
            match self.peek() {
                Some(c) => {
                    if '0' <= c && c <= '9' {
                        let ghost before = self.chars@.subrange(a as int, self.pos as int);
                        let ghost dv = decimal_value(before);
                        self.next_char();
                        let d = Self::digit_value(c);
                        proof {
                            let t = self.chars@.subrange(a as int, self.pos as int);
                            assert(t.drop_last() =~= before);
                            assert(t.last() == c);
                            assert(decimal_value(t) == dv * 10 + d);
                            assert(all_digits(t)) by {
                                assert forall|j: int| 0 <= j < t.len() implies is_digit(#[trigger] t[j]) by {
                                    if j < t.len() - 1 {
                                        assert(t[j] == before[j]);
                                    }
                                }
                            }
                        }
                        if fits && value <= (i64::MAX - d) / 10 {
                            proof {
                                assert(value * 10 + d <= i64::MAX) by (nonlinear_arith)
                                    requires value <= (i64::MAX - d) / 10, 0 <= d <= 9;
                            }
                            value = value * 10 + d;
                        } else {
                            proof {
                                if fits {
                                    assert(dv * 10 + d > i64::MAX) by (nonlinear_arith)
                                        requires dv > (i64::MAX - d) / 10, 0 <= d <= 9;
                                } else {
                                    assert(dv * 10 + d > i64::MAX) by (nonlinear_arith)
                                        requires dv > i64::MAX, 0 <= d <= 9;
                                }
                            }
                            fits = false;
                        }
                    } else {
                        break;
                    }
                },
                None => break,
            }
        }
        let int_end = self.pos;
        if self.peek() == Some('.') {
            match self.peek_second() {
                Some(c) => {
                    if '0' <= c && c <= '9' {
                        self.next_char();
                        let frac_start = self.pos;
                        loop
                            invariant
                                self.wf(),
                                self.source == old(self).source,
                                self.chars == old(self).chars,
                                frac_start <= self.pos,
                                frac_start == int_end + 1,
                                int_end < self.chars.len(),
                                self.chars@[int_end as int] == '.',
                                a < int_end,
                                all_digits(self.chars@.subrange(a as int, int_end as int)),
                                self.pos == frac_start ==> is_digit(self.chars@[frac_start as int]),
                                self.pos == frac_start ==> frac_start < self.chars.len(),
                                forall|j: int| frac_start <= j < self.pos ==> is_digit(#[trigger] self.chars@[j]),
                                digits_end(self.chars@, self.pos as int) == digits_end(self.chars@, frac_start as int),
                            ensures
                                self.wf(),
                                self.source == old(self).source,
                                self.chars == old(self).chars,
                                frac_start < self.pos,
                                forall|j: int| frac_start <= j < self.pos ==> is_digit(#[trigger] self.chars@[j]),
                                self.pos == digits_end(self.chars@, frac_start as int),
                            decreases self.chars.len() - self.pos,
                        {
                            match self.peek() {
                                Some(d) => {
                                    if '0' <= d && d <= '9' {
                                        self.next_char();
                                    } else {
                                        break;
                                    }
                                },
                                None => break,
                            }
                        }
                        proof {
                            let t = self.chars@.subrange(a as int, self.pos as int);
                            let k = int_end - a;
                            assert(t[k] == '.');
                            assert(t.subrange(0, k) =~= self.chars@.subrange(a as int, int_end as int));
                            assert(all_digits(t.subrange(k + 1, t.len() as int))) by {
                                let u = t.subrange(k + 1, t.len() as int);
                                assert forall|j: int| 0 <= j < u.len() implies is_digit(#[trigger] u[j]) by {
                                    assert(u[j] == self.chars@[frac_start + j]);
                                }
                            }
                        }
                        return Ok(TokenKind::Float(self.slice(a, self.pos)));
                    }
                },
                None => {},
            }
        }
        if fits {
            Ok(TokenKind::Integer(value))
        } else {
            let mut message = String::from_str("Integer literal out of range: ");
            message.append(self.source.substring_char(a, self.pos));
            Err(LexerError { message, span: Span::new(line, start_col, start_col + (self.pos - a) - 1) })
        }
    }
}

impl<'a> Lexer<'a> {
    /// Reads the rest of a string literal whose opening quote was just read.
    fn read_string(&mut self, line: usize, start_col: usize) -> (r: Result<TokenKind, LexerError>)
        requires
            old(self).wf(),
            1 <= start_col <= old(self).pos,
            old(self).pos >= 1,
            old(self).chars@[old(self).pos - 1] == '"',
        ensures
            final(self).wf(),
            final(self).source == old(self).source,
            final(self).chars == old(self).chars,
            old(self).pos <= final(self).pos,
            r is Ok ==> lexeme_of(
                r->Ok_0,
                final(self).chars@.subrange(old(self).pos - 1, final(self).pos as int),
            ),
            r is Err <==> !final(self).chars@.subrange(old(self).pos as int, final(self).chars@.len() as int).contains('"'),
            r is Ok ==> final(self).pos == find_quote(old(self).chars@, old(self).pos as int) + 1,
            r matches Err(e) ==> e.message@ == "Unterminated string literal"@ && e.span == (Span {
                line,
                start: start_col,
                end: (start_col + (old(self).chars@.len() - old(self).pos + 1)) as usize,
            }),
    {
        let a = self.pos - 1;
        loop
            invariant_except_break
                forall|j: int| a + 1 <= j < self.pos ==> #[trigger] self.chars@[j] != '"',
            invariant
                start_col <= a + 1,
                self.wf(),
                self.source == old(self).source,
                self.chars == old(self).chars,
                a + 1 <= self.pos,
                a + 1 == old(self).pos,
            ensures
                self.wf(),
                self.source == old(self).source,
                self.chars == old(self).chars,
                a + 2 <= self.pos,
                self.chars@[self.pos - 1] == '"',
                forall|j: int| a + 1 <= j < self.pos - 1 ==> #[trigger] self.chars@[j] != '"',
            decreases self.chars.len() - self.pos,
        {
            match self.next_char() {
                Some(c) => {
                    if c == '"' {
                        break;
                    }
                },
                None => {
                    proof {
                        let rest = self.chars@.subrange(a + 1, self.chars@.len() as int);
                        assert forall|j: int| 0 <= j < rest.len() implies rest[j] != '"' by {
                            assert(rest[j] == self.chars@[a + 1 + j]);
                        }
                    }
                    let message = String::from_str("Unterminated string literal");
                    return Err(LexerError { message, span: Span::new(line, start_col, start_col + (self.pos - a)) });
                },
            }
        }
        let s = self.slice(a + 1, self.pos - 1);
        proof {
            lemma_quote_skip(self.chars@, a + 1, self.pos - 1);
            let rest = self.chars@.subrange(a + 1, self.chars@.len() as int);
            assert(rest[self.pos - 1 - (a + 1)] == '"');
            let t = self.chars@.subrange(a as int, self.pos as int);
            assert(s@ =~= t.subrange(1, t.len() - 1));
            assert forall|j: int| 0 <= j < s@.len() implies s@[j] != '"' by {
                assert(s@[j] == self.chars@[a + 1 + j]);
            }
        }
        Ok(TokenKind::String(s))
    }

    /// Reads a directive whose leading `.` was just read and whose next
    /// character is alphabetic.
    fn read_directive(&mut self, line: usize, start_col: usize) -> (r: Result<TokenKind, LexerError>)
        requires
            old(self).wf(),
            1 <= start_col <= old(self).pos,
            old(self).pos >= 1,
            old(self).pos < old(self).chars.len(),
            old(self).chars@[old(self).pos - 1] == '.',
            alphabetic(old(self).chars@[old(self).pos as int]),
        ensures
            final(self).wf(),
            final(self).source == old(self).source,
            final(self).chars == old(self).chars,
            old(self).pos < final(self).pos,
            r is Ok ==> lexeme_of(
                r->Ok_0,
                final(self).chars@.subrange(old(self).pos - 1, final(self).pos as int),
            ),
            final(self).pos == word_end(old(self).chars@, old(self).pos + 1),
            r is Err <==> directive(
                old(self).chars@.subrange(old(self).pos as int, word_end(old(self).chars@, old(self).pos + 1)),
            ) is None,
            r matches Err(e) ==> e.message@ == "Unknown directive '"@ + old(self).chars@.subrange(
                old(self).pos - 1,
                word_end(old(self).chars@, old(self).pos + 1),
            ) + "'"@ && e.span == (Span {
                line,
                start: start_col,
                end: (start_col + (word_end(old(self).chars@, old(self).pos + 1) - old(self).pos)) as usize,
            }),
    {
        let a = self.pos - 1;
        self.next_char();
        self.read_word_rest();
        let b = self.pos;
        proof {
            let t = self.chars@.subrange(a as int, b as int);
            assert(t.drop_first() =~= self.chars@.subrange(a + 1, b as int));
            let w = t.drop_first();
            assert forall|i: int| 1 <= i < w.len() implies ident_char(#[trigger] w[i]) by {
                assert(w[i] == self.chars@[a + 1 + i]);
            }
        }
        if range_spells(&self.chars, a + 1, b, "read") {
            Ok(TokenKind::Read)
        } else if range_spells(&self.chars, a + 1, b, "write") {
            Ok(TokenKind::Write)
        } else if range_spells(&self.chars, a + 1, b, "iterate") {
            Ok(TokenKind::Iterate)
        } else {
            let mut message = String::from_str("Unknown directive '");
            message.append(self.source.substring_char(a, b));
            message.append("'");
            Err(LexerError { message, span: Span::new(line, start_col, start_col + (self.pos - a) - 1) })
        }
    }
}

impl<'a> Lexer<'a> {
    /// Reads the next token, or the end-of-input sentinel when only
    /// whitespace and comments are left.
    pub fn next_token(&mut self) -> (r: Result<Token, LexerError>)
        requires
            old(self).wf(),
        ensures
            final(self).wf(),
            final(self).text() == old(self).text(),
            old(self).position() <= final(self).position(),
            r is Ok ==> token_read(*old(self), *final(self), r->Ok_0),
            r is Err <==> lex_error_at(old(self).text(), skip_end(old(self).text(), old(self).position() as int, false)),
            r matches Err(e) ==> {
                let text = old(self).text();
                let b = skip_end(text, old(self).position() as int, false);
                &&& e.message@ == lex_error_message(text, b)
                &&& e.span.line == line_of_pos(text, b)
                &&& e.span.start == column_of_pos(text, b)
                &&& e.span.end == lex_error_end(text, b, column_of_pos(text, b))
            },
            r matches Ok(t) ==> (t.kind is Eof <==> skip_end(old(self).text(), old(self).position() as int, false)
                == old(self).text().len()),
            r matches Ok(t) ==> !(t.kind is Eof) ==> final(self).position() - (t.span.end - t.span.start + 1)
                == skip_end(old(self).text(), old(self).position() as int, false),
            r matches Ok(t) ==> !(t.kind is Eof) ==> final(self).position() == lexeme_end(
                old(self).text(),
                skip_end(old(self).text(), old(self).position() as int, false),
            ),
    {
        self.skip_whitespace_and_comments();
        let start_col = self.column();
        let line = self.line;
        let a = self.pos;
        let ch = match self.next_char() {
            Some(c) => c,
            None => {
                return Ok(Token::new(TokenKind::Eof, Span::new(line, start_col, start_col)));
            },
        };
        let kind = if ch == '(' {
            TokenKind::LParen
        } else if ch == ')' {
            TokenKind::RParen
        } else if ch == '{' {
            TokenKind::LBrace
        } else if ch == '}' {
            TokenKind::RBrace
        } else if ch == ',' {
            TokenKind::Comma
        } else if ch == '_' {
            TokenKind::Wildcard
        } else if ch == '+' {
            TokenKind::Plus
        } else if ch == '-' {
            TokenKind::Minus
        } else if ch == '*' {
            TokenKind::Star
        } else if ch == '/' {
            TokenKind::Slash
        } else if ch == '%' {
            TokenKind::Percent
        } else if ch == ':' {
            if self.peek() == Some('-') {
                self.next_char();
                TokenKind::ColonDash
            } else {
                TokenKind::Illegal
            }
        } else if ch == '!' {
            if self.peek() == Some('=') {
                self.next_char();
                TokenKind::NotEq
            } else {
                TokenKind::Bang
            }
        } else if ch == '=' {
            if self.peek() == Some('=') {
                self.next_char();
                TokenKind::Eq
            } else {
                TokenKind::Illegal
            }
        } else if ch == '<' {
            if self.peek() == Some('=') {
                self.next_char();
                TokenKind::LtEq
            } else {
                TokenKind::Lt
            }
        } else if ch == '>' {
            if self.peek() == Some('=') {
                self.next_char();
                TokenKind::GtEq
            } else {
                TokenKind::Gt
            }
        } else if ch == '.' {
            let followed_by_letter = match self.peek() {
                Some(c) => c.is_alphabetic(),
                None => false,
            };
            if followed_by_letter {
                match self.read_directive(line, start_col) {
                    Ok(k) => k,
                    Err(e) => {
                        return Err(e);
                    },
                }
            } else {
                TokenKind::Dot
            }
        } else if ch == '"' {
            match self.read_string(line, start_col) {
                Ok(k) => k,
                Err(e) => {
                    return Err(e);
                },
            }
        } else if '0' <= ch && ch <= '9' {
            match self.read_number(line, start_col) {
                Ok(k) => k,
                Err(e) => {
                    proof {
                        lemma_ends_bounded(self.chars@, a + 1);
                        lemma_ends_grow(self.chars@, a + 1);
                    }
                    return Err(e);
                },
            }
        } else if ch.is_alphabetic() {
            self.read_word_rest();
            proof {
                let t = self.chars@.subrange(a as int, self.pos as int);
                assert forall|i: int| 1 <= i < t.len() implies ident_char(#[trigger] t[i]) by {
                    assert(t[i] == self.chars@[a + i]);
                }
            }
            self.word_kind(a, self.pos)
        } else {
            TokenKind::Illegal
        };
        let span = Span::new(line, start_col, start_col + (self.pos - a) - 1);
        if let TokenKind::Illegal = kind {
            let mut message = String::from_str("Unrecognized character '");
            message.append(self.source.substring_char(a, self.pos));
            message.append("'");
            Err(LexerError { message, span })
        } else {
            proof {
                let t = self.chars@.subrange(a as int, self.pos as int);
                assert(t =~= self.chars@.subrange(
                    self.pos - (span.end - span.start + 1),
                    self.pos as int,
                ));
            }
            Ok(Token::new(kind, span))
        }
    }

    /// Reads every token that is left, or the first lexing error. It
    /// succeeds exactly when no token that it reaches fails to read.
    pub fn tokenize(&mut self) -> (r: Result<Vec<Token>, LexerError>)
        requires
            old(self).wf(),
        ensures
            final(self).wf(),
            r is Ok ==> {
                let ts = r->Ok_0@;
                &&& spans_monotone(ts)
                &&& forall|i: int| 0 <= i < ts.len() ==> !(#[trigger] ts[i].kind is Eof)
                &&& final(self).position() == final(self).text().len()
            },
            r is Err ==> exists|b: int| lex_error_at(old(self).text(), b),
            r is Ok <==> lexes_from(
                old(self).text(),
                old(self).position() as int,
                (old(self).text().len() - old(self).position() + 1) as nat,
            ),
            old(self).position() == 0 ==> (r is Ok <==> lexes_cleanly(old(self).text())),
            r is Ok ==> tokens_match(old(self).text(), r->Ok_0@, starts_from(old(self).text(), old(self).position() as int)),
    {
        let mut tokens: Vec<Token> = Vec::new();
        let ghost mut starts: Seq<int> = Seq::empty();
        let ghost all = starts_from(self.chars@, self.pos as int);
        proof {
            assert(all =~= starts + starts_from(self.chars@, self.pos as int));
        }
        loop
            invariant
                self.wf(),
                all == starts_from(old(self).chars@, old(self).pos as int),
                all == starts + starts_from(self.chars@, self.pos as int),
                tokens_match(self.chars@, tokens@, starts),
                spans_monotone(tokens@),
                forall|i: int| 0 <= i < tokens@.len() ==> !(#[trigger] tokens@[i].kind is Eof),
                self.chars@ == old(self).chars@,
                lexes_from(self.chars@, self.pos as int, (self.chars.len() - self.pos + 1) as nat) == lexes_from(
                    old(self).chars@,
                    old(self).pos as int,
                    (old(self).chars.len() - old(self).pos + 1) as nat,
                ),
                tokens@.len() > 0 ==> at_or_before(
                    tokens@.last().span.line as int,
                    tokens@.last().span.end as int,
                    line_of_pos(self.chars@, self.pos as int),
                    column_of_pos(self.chars@, self.pos as int) - 1,
                ),
            decreases self.chars.len() - self.pos,
        {
            let ghost before = *self;
            match self.next_token() {
                Ok(t) => {
                    if let TokenKind::Eof = t.kind {
                        proof {
                            assert(starts_from(self.chars@, before.pos as int) =~= Seq::<int>::empty());
                            assert(all =~= starts);
                        }
                        return Ok(tokens);
                    }
                    proof {
                        let text = self.chars@;
                        let b = skip_end(text, before.pos as int, false);
                        lemma_skip_grows(text, before.pos as int, false);
                        lemma_lexeme_grows(text, b);
                        lemma_fuel(
                            text,
                            self.pos as int,
                            (before.chars.len() - before.pos) as nat,
                            (self.chars.len() - self.pos + 1) as nat,
                        );
                        lemma_starts_fuel(
                            text,
                            self.pos as int,
                            (before.chars.len() - before.pos) as nat,
                            (self.chars.len() - self.pos + 1) as nat,
                        );
                        assert(starts_from(text, before.pos as int) == seq![b] + starts_from(text, self.pos as int));
                    }
                    let ghost prev = tokens@;
                    let ghost old_starts = starts;
                    tokens.push(t);
                    proof {
                        let text = self.chars@;
                        let b = skip_end(text, before.pos as int, false);
                        starts = old_starts.push(b);
                        lemma_pos_order(text, before.pos as int, b);
                        lemma_pos_order(text, b, self.pos as int);
                        assert(all =~= starts + starts_from(text, self.pos as int));
                        assert forall|i: int| 0 <= i < tokens@.len() implies {
                            &&& lexeme_of(#[trigger] tokens@[i].kind, text.subrange(starts[i], lexeme_end(text, starts[i])))
                            &&& tokens@[i].span.end - tokens@[i].span.start + 1 == lexeme_end(text, starts[i]) - starts[i]
                            &&& tokens@[i].span.line == line_of_pos(text, starts[i])
                            &&& tokens@[i].span.start == column_of_pos(text, starts[i])
                        } by {
                            if i < tokens@.len() - 1 {
                                assert(tokens@[i] == prev[i]);
                                assert(starts[i] == old_starts[i]);
                            }
                        }
                    }
                    proof {
                        assert forall|i: int| 0 < i < tokens@.len() implies at_or_before(
                            tokens@[i - 1].span.line as int,
                            tokens@[i - 1].span.end as int,
                            #[trigger] tokens@[i].span.line as int,
                            tokens@[i].span.start as int,
                        ) by {
                            if i < tokens@.len() - 1 {
                                assert(tokens@[i] == prev[i]);
                                assert(tokens@[i - 1] == prev[i - 1]);
                            }
                        }
                    }
                },
                Err(e) => {
                    proof {
                        let b = skip_end(before.text(), before.position() as int, false);
                        assert(lex_error_at(old(self).text(), b));
                    }
                    return Err(e);
                },
            }
        }
    }
}
} // verus!
