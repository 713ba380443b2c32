use vstd::prelude::*;

use crate::span::{span_len, Span};
use vstd::seq_lib::{to_multiset_build, to_multiset_contains, to_multiset_insert};

verus! {

pub const RULE_LEGEND_TYPE: u32 = 0;
pub const MEMBRANE_LEGEND_TYPE: u32 = 1;
pub const ATOM_LEGEND_TYPE: u32 = 2;
pub const LINK_LEGEND_TYPE: u32 = 3;
pub const HYPERLINK_LEGEND_TYPE: u32 = 4;
pub const CONTEXT_LEGEND_TYPE: u32 = 5;
pub const KEYWORD_ATOM_LEGEND_TYPE: u32 = 6;
pub const OPERATOR_ATOM_LEGEND_TYPE: u32 = 7;
pub const STRING_ATOM_LEGEND_TYPE: u32 = 8;
pub const NUMBER_ATOM_LEGEND_TYPE: u32 = 9;

/// A classified stretch of a line: where it starts, how long it is, and its
/// category, one of the legend types above.
#[derive(Debug, Clone, Copy, PartialEq, Eq, Structural)]
pub struct Token {
    pub token_type: u32,
    pub line: u32,
    pub col: u32,
    pub length: usize,
}

/// The token of category `ty` that covers `span`.
pub open spec fn token_of(span: Span, ty: u32) -> Token {
    Token { token_type: ty, line: span.low.line, col: span.low.column, length: span_len(span) as usize }
}

impl Token {
    pub fn covering(span: Span, token_type: u32) -> (r: Token)
        ensures
            r == token_of(span, token_type),
    {
        Token { token_type, line: span.low().line, col: span.low().column, length: span.len() }
    }
}

} // verus!

verus! {

/// A token as the highlighting feed carries it: its line and start relative
/// to the token before.
#[derive(Debug, Clone, Copy, PartialEq, Eq, Structural)]
pub struct SemanticToken {
    pub delta_line: u32,
    pub delta_start: u32,
    pub length: u32,
    pub token_type: u32,
    pub token_modifiers_bitset: u32,
}

/// Whether `a` starts no later than `b`.
pub open spec fn starts_no_later(a: Token, b: Token) -> bool {
    a.line < b.line || (a.line == b.line && a.col <= b.col)
}

/// Tokens in ascending order of line, then column.
pub open spec fn sorted_by_start(s: Seq<Token>) -> bool {
    forall|i: int, j: int| 0 <= i < j < s.len() ==> starts_no_later(#[trigger] s[i], #[trigger] s[j])
}

/// The tokens that start at `(line, col)`.
pub open spec fn starting_at(line: u32, col: u32) -> spec_fn(Token) -> bool {
    |t: Token| t.line == line && t.col == col
}

/// `r` is `s` sorted stably by start: sorted, and the tokens that start at
/// any one place come in the order they had.
pub open spec fn stably_sorted(s: Seq<Token>, r: Seq<Token>) -> bool {
    &&& sorted_by_start(r)
    &&& forall|line: u32, col: u32| #[trigger]
        r.filter(starting_at(line, col)) == s.filter(starting_at(line, col))
}

/// The relative form of sorted tokens: the first keeps its line and column;
/// each later one gives the lines it moved down and, on the same line, the
/// columns it moved right, or else its own column.
pub open spec fn delta_encode(s: Seq<Token>) -> Seq<SemanticToken> {
    Seq::new(
        s.len(),
        |i: int|
            SemanticToken {
                delta_line: if i == 0 {
                    s[i].line
                } else {
                    (s[i].line - s[i - 1].line) as u32
                },
                delta_start: if i == 0 || s[i].line != s[i - 1].line {
                    s[i].col
                } else {
                    (s[i].col - s[i - 1].col) as u32
                },
                length: s[i].length as u32,
                token_type: s[i].token_type,
                token_modifiers_bitset: 0,
            },
    )
}

/// The absolute line and column of each token, rebuilt from the first `n`
/// relative ones by adding up the deltas.
pub open spec fn delta_decode(d: Seq<SemanticToken>, n: int) -> Seq<(int, int)>
    decreases n,
{
    if n <= 0 {
        Seq::empty()
    } else if n == 1 {
        seq![(d[0].delta_line as int, d[0].delta_start as int)]
    } else {
        let prev = delta_decode(d, n - 1);
        let (line, col) = prev[n - 2];
        let t = d[n - 1];
        prev.push(
            (
                line + t.delta_line,
                if t.delta_line == 0 {
                    col + t.delta_start
                } else {
                    t.delta_start as int
                },
            ),
        )
    }
}

/// The line and column of each token.
pub open spec fn starts(s: Seq<Token>) -> Seq<(int, int)> {
    s.map_values(|t: Token| (t.line as int, t.col as int))
}

/// Decoding the relative form of sorted tokens gives back their line and
/// column, in order.
pub proof fn lemma_delta_round_trip(s: Seq<Token>)
    requires
        sorted_by_start(s),
    ensures
        delta_decode(delta_encode(s), s.len() as int) == starts(s),
{
    lemma_delta_round_trip_prefix(s, s.len() as int);
    assert(s.subrange(0, s.len() as int) =~= s);
}

proof fn lemma_delta_round_trip_prefix(s: Seq<Token>, n: int)
    requires
        sorted_by_start(s),
        0 <= n <= s.len(),
    ensures
        delta_decode(delta_encode(s), n) == starts(s.subrange(0, n)),
    decreases n,
{
    let d = delta_encode(s);
    if n == 1 {
        assert(starts(s.subrange(0, 1)) =~= seq![(s[0].line as int, s[0].col as int)]);
    } else if n > 1 {
        lemma_delta_round_trip_prefix(s, n - 1);
        assert(starts_no_later(s[n - 2], s[n - 1]));
        assert(starts(s.subrange(0, n)) =~= starts(s.subrange(0, n - 1)).push(
            (s[n - 1].line as int, s[n - 1].col as int),
        ));
    } else {
        assert(starts(s.subrange(0, n)) =~= Seq::empty());
    }
}

/// Sorts the tokens stably by start, then gives them in relative form.
pub fn to_semantic_tokens(tokens: &mut Vec<Token>) -> (r: Vec<SemanticToken>)
    requires
        forall|i: int| 0 <= i < old(tokens)@.len() ==> #[trigger] old(tokens)@[i].length <= u32::MAX,
    ensures
        stably_sorted(old(tokens)@, final(tokens)@),
        final(tokens)@.to_multiset() == old(tokens)@.to_multiset(),
        r@ == delta_encode(final(tokens)@),
{
    let sorted = sort_by_start(tokens);
    assert forall|k: int| 0 <= k < sorted@.len() implies #[trigger] sorted@[k].length <= u32::MAX by {
        to_multiset_contains(sorted@, sorted@[k]);
        to_multiset_contains(old(tokens)@, sorted@[k]);
        let j = choose|j: int| 0 <= j < old(tokens)@.len() && old(tokens)@[j] == sorted@[k];
        assert(old(tokens)@[j].length <= u32::MAX);
    }
    *tokens = sorted;
    let mut r: Vec<SemanticToken> = Vec::new();
    let mut last_line: u32 = 0;
    let mut last_start: u32 = 0;
    let mut i: usize = 0;
    while i < tokens.len()
        invariant
            i <= tokens@.len(),
            sorted_by_start(tokens@),
            forall|k: int| 0 <= k < tokens@.len() ==> #[trigger] tokens@[k].length <= u32::MAX,
            i > 0 ==> last_line == tokens@[i - 1].line && last_start == tokens@[i - 1].col,
            i == 0 ==> last_line == 0 && last_start == 0,
            r@ == delta_encode(tokens@).subrange(0, i as int),
        decreases tokens@.len() - i,
    {
        let token = tokens[i];
        if i > 0 {
            assert(starts_no_later(tokens@[i - 1], tokens@[i as int]));
        }
        let delta_line = token.line - last_line;
        let delta_start = if delta_line == 0 {
            token.col - last_start
        } else {
            token.col
        };
        last_line = token.line;
        last_start = token.col;
        r.push(
            SemanticToken {
                delta_line,
                delta_start,
                length: token.length as u32,
                token_type: token.token_type,
                token_modifiers_bitset: 0,
            },
        );
        i = i + 1;
        assert(r@ =~= delta_encode(tokens@).subrange(0, i as int));
    }
    assert(r@ =~= delta_encode(tokens@));
    r
}

/// A stable insertion sort by start.
fn sort_by_start(tokens: &Vec<Token>) -> (r: Vec<Token>)
    ensures
        stably_sorted(tokens@, r@),
        r@.to_multiset() == tokens@.to_multiset(),
{
    let mut out: Vec<Token> = Vec::new();
    let mut i: usize = 0;
    assert(tokens@.subrange(0, 0) =~= out@);
    while i < tokens.len()
        invariant
            i <= tokens@.len(),
            stably_sorted(tokens@.subrange(0, i as int), out@),
            out@.to_multiset() == tokens@.subrange(0, i as int).to_multiset(),
        decreases tokens@.len() - i,
    {
        let x = tokens[i];
        let mut p: usize = out.len();
        while p > 0 && (x.line < out[p - 1].line || (x.line == out[p - 1].line && x.col < out[p - 1].col))
            invariant
                p <= out@.len(),
                forall|k: int| p <= k < out@.len() ==> !starts_no_later(#[trigger] out@[k], x),
            decreases p,
        {
            p = p - 1;
        }
        let ghost before = out@;
        let ghost prefix = tokens@.subrange(0, i as int);
        proof {
            assert forall|k: int| 0 <= k < p implies starts_no_later(#[trigger] before[k], x) by {
                assert(starts_no_later(before[k], before[p - 1]) || k == p - 1);
            }
        }
        out.insert(p, x);
        proof {
            assert(out@ =~= before.subrange(0, p as int) + seq![x] + before.subrange(p as int, before.len() as int));
            assert(before =~= before.subrange(0, p as int) + before.subrange(p as int, before.len() as int));
            assert(tokens@.subrange(0, i + 1) =~= prefix.push(x));
            assert forall|line: u32, col: u32| #[trigger]
                out@.filter(starting_at(line, col)) == tokens@.subrange(0, i + 1).filter(starting_at(line, col)) by {
                let f = starting_at(line, col);
                let lo = before.subrange(0, p as int);
                let hi = before.subrange(p as int, before.len() as int);
                Seq::filter_distributes_over_add(lo + seq![x], hi, f);
                Seq::filter_distributes_over_add(lo, seq![x], f);
                Seq::filter_distributes_over_add(lo, hi, f);
                prefix.lemma_filter_push(x, f);
                if f(x) {
                    assert forall|k: int| 0 <= k < hi.len() implies !f(#[trigger] hi[k]) by {
                        assert(!starts_no_later(before[p + k], x));
                    }
                    hi.lemma_all_neg_filter_empty(f);
                }
                assert(seq![x].filter(f) =~= if f(x) { seq![x] } else { Seq::empty() }) by {
                    reveal_with_fuel(Seq::filter, 2);
                }
            }
            to_multiset_insert(before, p as int, x);
            to_multiset_build(prefix, x);
        }
        i = i + 1;
    }
    assert(tokens@.subrange(0, i as int) =~= tokens@);
    out
}

} // verus!
