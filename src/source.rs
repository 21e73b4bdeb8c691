use vstd::prelude::*;

verus! {

/// How many line breaks `t` holds.
pub open spec fn newlines(t: Seq<char>) -> nat
    decreases t.len(),
{
    if t.len() == 0 {
        0
    } else {
        newlines(t.drop_last()) + if t.last() == '\n' {
            1nat
        } else {
            0nat
        }
    }
}

/// `r` is line `n` (1-based) of `text`, without its line break.
pub open spec fn is_line(text: Seq<char>, n: int, r: Seq<char>) -> bool {
    exists|a: int| #[trigger] line_starts_at(text, n, a, r)
}

/// Line `n` of `text` starts at `a` and reads `r`.
pub open spec fn line_starts_at(text: Seq<char>, n: int, a: int, r: Seq<char>) -> bool {
    &&& 0 <= a
    &&& a + r.len() <= text.len()
    &&& r == text.subrange(a, a + r.len())
    &&& newlines(text.subrange(0, a)) == n - 1
    &&& (a == 0 || text[a - 1] == '\n')
    &&& !r.contains('\n')
    &&& (a + r.len() == text.len() || text[a + r.len()] == '\n')
}

/// `text` has a line `n`: it is at least 1 and the text holds at least
/// `n - 1` line breaks.
pub open spec fn has_line(text: Seq<char>, n: int) -> bool {
    n >= 1 && newlines(text) >= n - 1
}

/// Line `n` (1-based) of `text` without its line break, or nothing when
/// there is no such line.
pub open spec fn line_of(text: Seq<char>, n: int) -> Seq<char> {
    if has_line(text, n) {
        choose|r: Seq<char>| is_line(text, n, r)
    } else {
        Seq::empty()
    }
}

proof fn lemma_newlines_step(t: Seq<char>, i: int)
    requires
        0 <= i < t.len(),
    ensures
        newlines(t.subrange(0, i + 1)) == newlines(t.subrange(0, i)) + if t[i] == '\n' {
            1nat
        } else {
            0nat
        },
{
    assert(t.subrange(0, i + 1).drop_last() =~= t.subrange(0, i));
}

proof fn lemma_newlines_grow(t: Seq<char>, i: int, j: int)
    requires
        0 <= i <= j <= t.len(),
    ensures
        newlines(t.subrange(0, i)) <= newlines(t.subrange(0, j)),
        i < j && t[j - 1] == '\n' ==> newlines(t.subrange(0, i)) < newlines(t.subrange(0, j)),
    decreases j - i,
{
    if i < j {
        lemma_newlines_grow(t, i, j - 1);
        lemma_newlines_step(t, j - 1);
    }
}

/// A line's start and text are fixed by its number.
proof fn lemma_line_unique(text: Seq<char>, n: int, a1: int, r1: Seq<char>, a2: int, r2: Seq<char>)
    requires
        line_starts_at(text, n, a1, r1),
        line_starts_at(text, n, a2, r2),
    ensures
        r1 == r2,
{
    if a1 < a2 {
        lemma_newlines_grow(text, a1, a2);
    } else if a2 < a1 {
        lemma_newlines_grow(text, a2, a1);
    } else {
        if r1.len() < r2.len() {
            assert(r2[r1.len() as int] == text[a1 + r1.len()]);
            assert(r2.contains('\n'));
        } else if r2.len() < r1.len() {
            assert(r1[r2.len() as int] == text[a2 + r2.len()]);
            assert(r1.contains('\n'));
        }
    }
}

/// Line `n` (1-based) of `source`, whose characters are `chars`, without its
/// line break; empty when there is no such line.
pub fn line_at(source: &str, chars: &Vec<char>, n: usize) -> (r: String)
    requires
        chars@ == source@,
    ensures
        r@ == line_of(source@, n as int),
{
    if n == 0 {
        return String::new();
    }
    let len = chars.len();
    let mut i: usize = 0;
    let mut seen: usize = 0;
    while i < len && seen < n - 1
        invariant
            i <= len,
            len == chars@.len(),
            seen < n,
            seen == newlines(chars@.subrange(0, i as int)),
            i == 0 || chars@[i - 1] == '\n' || seen < n - 1,
        decreases len - i,
    {
        proof {
            lemma_newlines_step(chars@, i as int);
        }
        if chars[i] == '\n' {
            seen = seen + 1;
        }
        i = i + 1;
    }
    if seen < n - 1 {
        proof {
            assert(chars@.subrange(0, len as int) =~= chars@);
        }
        return String::new();
    }
    let a = i;
    while i < len && chars[i] != '\n'
        invariant
            a <= i <= len,
            len == chars@.len(),
            forall|j: int| a <= j < i ==> chars@[j] != '\n',
        decreases len - i,
    {
        i = i + 1;
    }
    let r = String::from_str(source.substring_char(a, i));
    proof {
        assert(r@ == chars@.subrange(a as int, a + r@.len()));
        assert forall|j: int| 0 <= j < r@.len() implies r@[j] != '\n' by {
            assert(r@[j] == chars@[a + j]);
        }
        assert(line_starts_at(chars@, n as int, a as int, r@));
        lemma_newlines_grow(chars@, a as int, len as int);
        assert(chars@.subrange(0, len as int) =~= chars@);
        assert(has_line(chars@, n as int));
        assert(is_line(chars@, n as int, r@));
        let c = choose|c: Seq<char>| is_line(chars@, n as int, c);
        let ac = choose|ac: int| line_starts_at(chars@, n as int, ac, c);
        lemma_line_unique(chars@, n as int, a as int, r@, ac, c);
    }
    r
}

/// Whether two strings hold the same characters.
pub fn same_text(a: &str, b: &str) -> (r: bool)
    ensures
        r == (a@ == b@),
{
    let n = a.unicode_len();
    if n != b.unicode_len() {
        return false;
    }
    let mut i: usize = 0;
    while i < n
        invariant
            i <= n,
            n == a@.len(),
            n == b@.len(),
            forall|j: int| 0 <= j < i ==> a@[j] == b@[j],
        decreases n - i,
    {
        if a.get_char(i) != b.get_char(i) {
            return false;
        }
        i = i + 1;
    }
    assert(a@ =~= b@);
    true
}

} // verus!
