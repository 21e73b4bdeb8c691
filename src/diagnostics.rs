use vstd::prelude::*;

use crate::ast::RuleSpan;
use crate::lexer::chars_of;
use crate::source::{line_at, line_of, newlines};
use crate::token::{decimal, digit_char};
use crate::validator::{errors_model, ValidationError};

verus! {

/// How many lines `t` has, counted as `str::lines` counts them.
pub open spec fn line_count(t: Seq<char>) -> nat {
    newlines(t) + if t.len() > 0 && t.last() != '\n' {
        1nat
    } else {
        0nat
    }
}

pub open spec fn spaces(n: nat) -> Seq<char> {
    Seq::new(n, |i: int| ' ')
}

/// `s` centred in a field of `width` characters, the odd space going right.
pub open spec fn centered(s: Seq<char>, width: nat) -> Seq<char> {
    if s.len() >= width {
        s
    } else {
        let pad = (width - s.len()) as nat;
        spaces(pad / 2) + s + spaces((pad - pad / 2) as nat)
    }
}

/// `msg` in red on an ANSI terminal.
pub open spec fn red(msg: Seq<char>) -> Seq<char> {
    "\x1b[31m"@ + msg + "\x1b[0m"@
}

/// Line `n` of the source after its number in the gutter.
pub open spec fn gutter_line(src: Seq<char>, n: int, width: nat) -> Seq<char> {
    centered(decimal(n as nat), width) + "┃ "@ + line_of(src, n)
}

/// The lines `first..=last` of the source, the message after the last one,
/// and a gutter line with a vertical ellipsis.
pub open spec fn error_block(src: Seq<char>, msg: Seq<char>, first: int, last: int, width: nat) -> Seq<char>
    decreases last - first + 1,
{
    if first > last {
        Seq::empty()
    } else if first == last {
        gutter_line(src, first, width) + " "@ + red(msg) + "\n"@ + centered("⋮"@, width) + "┃\n"@
    } else {
        gutter_line(src, first, width) + "\n"@ + error_block(src, msg, first + 1, last, width)
    }
}

/// The blocks of all errors, in order.
pub open spec fn error_blocks(src: Seq<char>, errors: Seq<(Seq<char>, RuleSpan)>, width: nat) -> Seq<char>
    decreases errors.len(),
{
    if errors.len() == 0 {
        Seq::empty()
    } else {
        let e = errors.last();
        error_blocks(src, errors.drop_last(), width) + error_block(
            src,
            e.0,
            e.1.line_start as int,
            e.1.line_end as int,
            width,
        )
    }
}

/// The whole report: a red title, then each error in place in the source,
/// with a gutter as wide as the largest line number.
pub open spec fn report(src: Seq<char>, errors: Seq<(Seq<char>, RuleSpan)>) -> Seq<char> {
    "\n"@ + red("Validation ERROR(s):"@) + "\n"@ + error_blocks(src, errors, decimal(line_count(src)).len())
}

fn digit_text(d: usize) -> (r: &'static str)
    requires
        d < 10,
    ensures
        r@ == seq![digit_char(d as int)],
{
    proof {
        reveal_strlit("0");
        reveal_strlit("1");
        reveal_strlit("2");
        reveal_strlit("3");
        reveal_strlit("4");
        reveal_strlit("5");
        reveal_strlit("6");
        reveal_strlit("7");
        reveal_strlit("8");
        reveal_strlit("9");
    }
    if d == 0 {
        "0"
    } else if d == 1 {
        "1"
    } else if d == 2 {
        "2"
    } else if d == 3 {
        "3"
    } else if d == 4 {
        "4"
    } else if d == 5 {
        "5"
    } else if d == 6 {
        "6"
    } else if d == 7 {
        "7"
    } else if d == 8 {
        "8"
    } else {
        "9"
    }
}

/// Appends the decimal digits of `n`.
fn push_decimal(out: &mut String, n: usize)
    ensures
        final(out)@ == old(out)@ + decimal(n as nat),
    decreases n,
{
    if n >= 10 {
        push_decimal(out, n / 10);
        out.append(digit_text(n % 10));
        proof {
            assert(decimal(n as nat) == decimal((n / 10) as nat).push(digit_char((n % 10) as int)));
        }
    } else {
        out.append(digit_text(n));
    }
    assert(final(out)@ =~= old(out)@ + decimal(n as nat));
}

fn push_spaces(out: &mut String, n: usize)
    ensures
        final(out)@ == old(out)@ + spaces(n as nat),
{
    proof {
        reveal_strlit(" ");
    }
    let mut i: usize = 0;
    while i < n
        invariant
            i <= n,
            out@ == old(out)@ + spaces(i as nat),
        decreases n - i,
    {
        out.append(" ");
        proof {
            reveal_strlit(" ");
        }
        assert(" "@ =~= seq![' ']);
        assert(out@ =~= old(out)@ + spaces((i + 1) as nat));
        i = i + 1;
    }
}

fn push_centered(out: &mut String, s: &str, width: usize)
    ensures
        final(out)@ == old(out)@ + centered(s@, width as nat),
{
    let len = s.unicode_len();
    if len >= width {
        out.append(s);
    } else {
        let pad = width - len;
        push_spaces(out, pad / 2);
        out.append(s);
        push_spaces(out, pad - pad / 2);
        assert(out@ =~= old(out)@ + centered(s@, width as nat));
    }
}

/// Appends the block of one error.
fn push_error_block(out: &mut String, source: &str, chars: &Vec<char>, e: &ValidationError, width: usize)
    requires
        chars@ == source@,
    ensures
        final(out)@ == old(out)@ + error_block(
            source@,
            e.error_message@,
            e.span.line_start as int,
            e.span.line_end as int,
            width as nat,
        ),
{
    let ghost before = out@;
    let first = e.span.line_start;
    let last = e.span.line_end;
    let ghost msg = e.error_message@;
    if first <= last {
        let mut n = first;
        while n < last
            invariant
                first <= n <= last,
                chars@ == source@,
                out@ + error_block(source@, msg, n as int, last as int, width as nat) == before
                    + error_block(source@, msg, first as int, last as int, width as nat),
            decreases last - n,
        {
            let ghost at = out@;
            let mut num = String::new();
            push_decimal(&mut num, n);
            push_centered(out, num.as_str(), width);
            out.append("┃ ");
            let text = line_at(source, chars, n);
            out.append(text.as_str());
            out.append("\n");
            proof {
                assert(out@ =~= at + gutter_line(source@, n as int, width as nat) + "\n"@);
                assert(out@ + error_block(source@, msg, n + 1, last as int, width as nat) =~= at
                    + error_block(source@, msg, n as int, last as int, width as nat));
            }
            n = n + 1;
        }
        let ghost at = out@;
        let mut num = String::new();
        push_decimal(&mut num, last);
        push_centered(out, num.as_str(), width);
        out.append("┃ ");
        let text = line_at(source, chars, last);
        out.append(text.as_str());
        out.append(" ");
        out.append("\x1b[31m");
        out.append(e.error_message.as_str());
        out.append("\x1b[0m");
        out.append("\n");
        push_centered(out, "⋮", width);
        out.append("┃\n");
        proof {
            assert(out@ =~= at + error_block(source@, msg, last as int, last as int, width as nat));
        }
    }
    if first > last {
        assert(out@ =~= before);
    }
}

/// Renders validation errors in place in the source: each offending line
/// after its number, the message in red after the last line of the rule,
/// and a vertical ellipsis between errors.
pub fn render_validation_errors(source: &str, errors: &Vec<ValidationError>) -> (r: String)
    ensures
        r@ == report(source@, errors_model(errors@)),
{
    let chars = chars_of(source);
    let mut lines: usize = 0;
    let mut i: usize = 0;
    while i < chars.len()
        invariant
            i <= chars.len(),
            chars@ == source@,
            lines == newlines(chars@.subrange(0, i as int)),
            lines + (if i > 0 && chars@[i - 1] != '\n' {
                1nat
            } else {
                0nat
            }) <= i,
        decreases chars.len() - i,
    {
        proof {
            assert(chars@.subrange(0, i + 1).drop_last() =~= chars@.subrange(0, i as int));
        }
        if chars[i] == '\n' {
            lines = lines + 1;
        }
        i = i + 1;
    }
    proof {
        assert(chars@.subrange(0, chars.len() as int) =~= chars@);
    }
    if chars.len() > 0 && chars[chars.len() - 1] != '\n' {
        lines = lines + 1;
    }
    let mut digits = String::new();
    push_decimal(&mut digits, lines);
    let width = digits.as_str().unicode_len();
    let mut out = String::new();
    out.append("\n");
    out.append("\x1b[31m");
    out.append("Validation ERROR(s):");
    out.append("\x1b[0m");
    out.append("\n");
    let ghost header = out@;
    proof {
        assert(header =~= "\n"@ + red("Validation ERROR(s):"@) + "\n"@);
    }
    let mut k: usize = 0;
    while k < errors.len()
        invariant
            k <= errors.len(),
            chars@ == source@,
            width == decimal(line_count(source@)).len(),
            out@ == header + error_blocks(source@, errors_model(errors@).take(k as int), width as nat),
        decreases errors.len() - k,
    {
        let e = &errors[k];
        let ghost msg = e.error_message@;
        push_error_block(&mut out, source, &chars, e, width);
        proof {
            let em = errors_model(errors@);
            assert(em[k as int] == (msg, e.span));
            assert(em.take(k + 1).drop_last() =~= em.take(k as int));
            assert(out@ =~= header + error_blocks(source@, em.take(k + 1), width as nat));
        }
        k = k + 1;
    }
    proof {
        assert(errors_model(errors@).take(errors.len() as int) =~= errors_model(errors@));
    }
    out
}

} // verus!
