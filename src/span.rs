use vstd::prelude::*;

verus! {

/// A contiguous region of one source line: `line` is 1-based, `start` and
/// `end` are 1-based columns, both inclusive.
#[derive(Debug, Clone, Copy, PartialEq, Eq)]
pub struct Span {
    pub line: usize,
    pub start: usize,
    pub end: usize,
}

impl Span {
    pub fn new(line: usize, start: usize, end: usize) -> (r: Span)
        ensures
            r.line == line,
            r.start == start,
            r.end == end,
    {
        Span { line, start, end }
    }
}

} // verus!
