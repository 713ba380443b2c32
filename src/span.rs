use vstd::prelude::*;

verus! {

/// A position in a document: a character offset and a zero-based line and column.
#[derive(Debug, Clone, Copy, PartialEq, Eq, Structural)]
pub struct Pos {
    pub offset: u32,
    pub line: u32,
    pub column: u32,
}

/// A range of text in a document, from `low` up to `high`.
#[derive(Debug, Clone, Copy, PartialEq, Eq, Structural)]
pub struct Span {
    pub low: Pos,
    pub high: Pos,
}

/// The number of characters a span covers; a span whose end precedes its
/// start covers none.
pub open spec fn span_len(s: Span) -> nat {
    if s.high.offset >= s.low.offset {
        (s.high.offset - s.low.offset) as nat
    } else {
        0
    }
}

impl Span {
    pub fn new(low: Pos, high: Pos) -> (r: Span)
        ensures
            r.low == low,
            r.high == high,
    {
        Span { low, high }
    }

    pub fn low(&self) -> (r: Pos)
        ensures
            r == self.low,
    {
        self.low
    }

    pub fn high(&self) -> (r: Pos)
        ensures
            r == self.high,
    {
        self.high
    }

    pub fn len(&self) -> (r: usize)
        ensures
            r == span_len(*self),
    {
        if self.high.offset >= self.low.offset {
            (self.high.offset - self.low.offset) as usize
        } else {
            0
        }
    }

    pub fn is_empty(&self) -> (r: bool)
        ensures
            r == (span_len(*self) == 0),
    {
        self.len() == 0
    }
}

} // verus!
