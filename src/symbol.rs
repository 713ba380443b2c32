use vstd::prelude::*;

use crate::span::{span_len, Span};

verus! {

/// A symbol in the source code: where it starts and how many characters it
/// covers. Positions are zero-based.
///
/// Symbols are ordered by line, then column, then length.
#[derive(Debug, Clone, Copy, PartialEq, Eq, Structural, PartialOrd, Ord, Hash)]
pub struct Symbol {
    pub line: u32,
    pub col: u32,
    pub length: usize,
}

/// The symbol that stands for a span.
pub open spec fn symbol_of(s: Span) -> Symbol {
    Symbol { line: s.low.line, col: s.low.column, length: span_len(s) as usize }
}

/// Strict order of symbols: by line, then column, then length.
pub open spec fn symbol_lt(a: Symbol, b: Symbol) -> bool {
    ||| a.line < b.line
    ||| a.line == b.line && a.col < b.col
    ||| a.line == b.line && a.col == b.col && a.length < b.length
}

/// Whether the position `(line, col)` lies on the symbol, both ends included.
pub open spec fn covers(s: Symbol, line: u32, col: u32) -> bool {
    s.line == line && s.col <= col && col <= s.col + s.length
}

/// Whether the symbol starts strictly before the position `(line, col)`.
pub open spec fn starts_before(s: Symbol, line: u32, col: u32) -> bool {
    s.line < line || (s.line == line && s.col < col)
}

/// Every symbol strictly precedes the ones after it.
pub open spec fn strictly_sorted(s: Seq<Symbol>) -> bool {
    forall|i: int, j: int| 0 <= i < j < s.len() ==> symbol_lt(#[trigger] s[i], #[trigger] s[j])
}

/// No two symbols on one line share a column, ends included.
pub open spec fn disjoint(s: Seq<Symbol>) -> bool {
    forall|i: int, j: int|
        0 <= i < j < s.len() && (#[trigger] s[i]).line == (#[trigger] s[j]).line ==> s[i].col
            + s[i].length < s[j].col
}

impl Symbol {
    pub fn new(span: Span) -> (r: Symbol)
        ensures
            r == symbol_of(span),
    {
        Symbol { line: span.low().line, col: span.low().column, length: span.len() }
    }

    pub fn is_inside(&self, line: u32, col: u32) -> (r: bool)
        ensures
            r == covers(*self, line, col),
    {
        self.line == line && self.col <= col && ((col - self.col) as usize) <= self.length
    }

    /// Whether `self` comes strictly before `other` in the symbol order.
    pub fn precedes(&self, other: &Symbol) -> (r: bool)
        ensures
            r == symbol_lt(*self, *other),
    {
        self.line < other.line || (self.line == other.line && (self.col < other.col || (
        self.col == other.col && self.length < other.length)))
    }
}

} // verus!
