use vstd::prelude::*;

use std::collections::HashMap;

use crate::span::Span;
use crate::symbol::{covers, disjoint, starts_before, strictly_sorted, symbol_lt, symbol_of, Symbol};

verus! {

/// The spans of each group, as sequences.
pub open spec fn groups_view(refs: Seq<Vec<Span>>) -> Seq<Seq<Span>> {
    refs.map_values(|g: Vec<Span>| g@)
}

/// The symbols that stand for a sequence of spans.
pub open spec fn symbols_of(spans: Seq<Span>) -> Seq<Symbol> {
    spans.map_values(|x: Span| symbol_of(x))
}

/// The symbols of `syms` at the indices `idx`.
pub open spec fn symbols_at(syms: Seq<Symbol>, idx: Seq<usize>) -> Seq<Symbol> {
    idx.map_values(|x: usize| syms[x as int])
}

/// Whether some span among the first `n` groups stands for `s`.
pub open spec fn in_groups(refs: Seq<Seq<Span>>, n: int, s: Symbol) -> bool {
    exists|g: int, i: int|
        0 <= g < n && 0 <= i < refs[g].len() && #[trigger] symbol_of(refs[g][i]) == s
}

/// Whether some span of `spans` stands for `s`.
pub open spec fn in_spans(spans: Seq<Span>, s: Symbol) -> bool {
    exists|i: int| 0 <= i < spans.len() && #[trigger] symbol_of(spans[i]) == s
}

/// For each of the first `n` members of `g` that stands for `s`, the symbols
/// of all the other members, in order.
pub open spec fn group_partners(g: Seq<Span>, n: int, s: Symbol) -> Seq<Symbol>
    decreases n,
{
    if n <= 0 {
        Seq::empty()
    } else {
        group_partners(g, n - 1, s) + if symbol_of(g[n - 1]) == s {
            symbols_of(g.remove(n - 1))
        } else {
            Seq::empty()
        }
    }
}

/// The partners of `s` over the first `n` groups, group by group.
pub open spec fn partners(refs: Seq<Seq<Span>>, n: int, s: Symbol) -> Seq<Symbol>
    decreases n,
{
    if n <= 0 {
        Seq::empty()
    } else {
        partners(refs, n - 1, s) + group_partners(refs[n - 1], refs[n - 1].len() as int, s)
    }
}

/// The index of the symbol covering `(line, col)`, where there is one.
pub open spec fn covering(syms: Seq<Symbol>, line: u32, col: u32) -> Option<int> {
    if exists|k: int| 0 <= k < syms.len() && covers(#[trigger] syms[k], line, col) {
        Some(choose|k: int| 0 <= k < syms.len() && covers(#[trigger] syms[k], line, col))
    } else {
        None
    }
}

/// A sorted table of the symbols of a document, without duplicates, and for
/// each symbol that belongs to a group of mutually referring spans, the
/// indices of its partners.
#[derive(Debug)]
pub struct RefereceMap {
    symbol_seq: Vec<Symbol>,
    references: HashMap<usize, Vec<usize>>,
}

impl RefereceMap {
    /// The symbol table, in ascending order.
    pub closed spec fn symbols(&self) -> Seq<Symbol> {
        self.symbol_seq@
    }

    /// The partners recorded for the symbol at index `k`, if any are.
    pub closed spec fn entry(&self, k: int) -> Option<Seq<Symbol>> {
        if self.references@.contains_key(k as usize) {
            Some(symbols_at(self.symbol_seq@, self.references@[k as usize]@))
        } else {
            None
        }
    }

    #[verifier::type_invariant]
    closed spec fn wf(&self) -> bool {
        &&& strictly_sorted(self.symbol_seq@)
        &&& forall|k: usize| #[trigger]
            self.references@.contains_key(k) ==> k < self.symbol_seq@.len() && forall|t: int|
                0 <= t < self.references@[k]@.len() ==> #[trigger] self.references@[k]@[t]
                    < self.symbol_seq@.len()
    }

    /// Builds the table from the groups of mutually referring spans and the
    /// other spans that stand for symbols.
    ///
    /// The table holds, once each and in ascending order, the symbol of every
    /// span given. A symbol has an entry exactly when some group holds a span
    /// for it; the entry lists, group by group, the other members of each
    /// group in which it occurs.
    pub fn new(refs: Vec<Vec<Span>>, normal_symbol: Vec<Span>) -> (r: RefereceMap)
        ensures
            strictly_sorted(r.symbols()),
            forall|s: Symbol| #[trigger]
                r.symbols().contains(s) <==> in_groups(
                    groups_view(refs@),
                    refs@.len() as int,
                    s,
                ) || in_spans(normal_symbol@, s),
            forall|k: int|
                0 <= k < r.symbols().len() ==> #[trigger] r.entry(k) == if in_groups(
                    groups_view(refs@),
                    refs@.len() as int,
                    r.symbols()[k],
                ) {
                    Some(partners(groups_view(refs@), refs@.len() as int, r.symbols()[k]))
                } else {
                    None
                },
    {
        let ghost gv = groups_view(refs@);
        let mut symbol_seq: Vec<Symbol> = Vec::new();
        let mut gi: usize = 0;
        while gi < refs.len()
            invariant
                gi <= refs@.len(),
                gv == groups_view(refs@),
                strictly_sorted(symbol_seq@),
                forall|s: Symbol| #[trigger]
                    symbol_seq@.contains(s) <==> in_groups(gv, gi as int, s),
            decreases refs@.len() - gi,
        {
            let group = &refs[gi];
            let mut t: usize = 0;
            while t < group.len()
                invariant
                    gi < refs@.len(),
                    t <= group@.len(),
                    group@ == gv[gi as int],
                    gv == groups_view(refs@),
                    strictly_sorted(symbol_seq@),
                    forall|s: Symbol| #[trigger]
                        symbol_seq@.contains(s) <==> in_groups(gv, gi as int, s) || exists|i: int|
                            0 <= i < t && #[trigger] symbol_of(group@[i]) == s,
                decreases group@.len() - t,
            {
                let sym = Symbol::new(group[t]);
                insert_unique(&mut symbol_seq, sym);
                t = t + 1;
            }
            proof {
                assert forall|s: Symbol| in_groups(gv, gi + 1, s) implies #[trigger]
                    symbol_seq@.contains(s) by {
                    {
                        let (g, i) = choose|g: int, i: int|
                            0 <= g < gi + 1 && 0 <= i < gv[g].len() && #[trigger] symbol_of(
                                gv[g][i],
                            ) == s;
                        if g < gi {
                            assert(in_groups(gv, gi as int, s));
                        } else {
                            assert(symbol_of(group@[i]) == s);
                        }
                    }
                }
                assert forall|s: Symbol| #[trigger]
                    symbol_seq@.contains(s) implies in_groups(gv, gi + 1, s) by {
                    if !in_groups(gv, gi as int, s) {
                        let i = choose|i: int|
                            0 <= i < group@.len() && #[trigger] symbol_of(group@[i]) == s;
                        assert(symbol_of(gv[gi as int][i]) == s);
                    }
                }
            }
            gi = gi + 1;
        }
        let mut t: usize = 0;
        while t < normal_symbol.len()
            invariant
                t <= normal_symbol@.len(),
                strictly_sorted(symbol_seq@),
                forall|s: Symbol| #[trigger]
                    symbol_seq@.contains(s) <==> in_groups(gv, refs@.len() as int, s) || exists|
                        i: int,
                    | 0 <= i < t && #[trigger] symbol_of(normal_symbol@[i]) == s,
            decreases normal_symbol@.len() - t,
        {
            let sym = Symbol::new(normal_symbol[t]);
            insert_unique(&mut symbol_seq, sym);
            t = t + 1;
        }
        let references = Self::link_groups(&refs, &symbol_seq);
        let n: usize = symbol_seq.len();
        let r = RefereceMap { symbol_seq, references };
        assert forall|k: int| 0 <= k < r.symbols().len() implies #[trigger] r.entry(k) == if in_groups(
            gv,
            refs@.len() as int,
            r.symbols()[k],
        ) {
            Some(partners(gv, refs@.len() as int, r.symbols()[k]))
        } else {
            None
        } by {
            assert(k < n);
            assert((k as usize) as int == k);
        }
        r
    }

    /// The symbol at `(line, col)`.
    ///
    /// Any symbol returned is in the table and covers the position; where the
    /// table's symbols do not overlap, it is the one that does, if any.
    pub fn query(&self, line: u32, col: u32) -> (r: Option<Symbol>)
        ensures
            r matches Some(s) ==> self.symbols().contains(s) && covers(s, line, col),
            disjoint(self.symbols()) ==> match covering(self.symbols(), line, col) {
                None => r is None,
                Some(k) => r == Some(self.symbols()[k]),
            },
    {
        proof {
            use_type_invariant(self);
        }
        match find(line, col, &self.symbol_seq) {
            Some(i) => {
                proof {
                    lemma_covering_unique(self.symbol_seq@, line, col, i as int);
                }
                Some(self.symbol_seq[i])
            },
            None => None,
        }
    }

    /// The partners of the symbol at `(line, col)`, without the symbol itself.
    ///
    /// `None` where no symbol is found there or the one found has no entry.
    pub fn query_references(&self, line: u32, col: u32) -> (r: Option<Vec<Symbol>>)
        ensures
            r matches Some(v) ==> exists|k: int|
                0 <= k < self.symbols().len() && covers(self.symbols()[k], line, col)
                    && #[trigger] self.entry(k) == Some(v@),
            disjoint(self.symbols()) ==> match covering(self.symbols(), line, col) {
                None => r is None,
                Some(k) => (r is None <==> self.entry(k) is None) && (r matches Some(v)
                    ==> self.entry(k) == Some(v@)),
            },
    {
        proof {
            use_type_invariant(self);
        }
        let index = match find(line, col, &self.symbol_seq) {
            Some(i) => i,
            None => {
                return None;
            },
        };
        proof {
            lemma_covering_unique(self.symbol_seq@, line, col, index as int);
        }
        match self.references.get(&index) {
            Some(refs) => {
                let v = self.symbols_at_indices(refs);
                assert(self.entry(index as int) == Some(v@));
                Some(v)
            },
            None => None,
        }
    }

    /// The symbol at `(line, col)` together with its partners: the partners
    /// first, then the symbol. `None` only where no symbol is found there.
    pub fn query_references_with_self(&self, line: u32, col: u32) -> (r: Option<Vec<Symbol>>)
        ensures
            r matches Some(v) ==> exists|k: int|
                0 <= k < self.symbols().len() && covers(self.symbols()[k], line, col) && v@
                    == with_self(#[trigger] self.entry(k), self.symbols()[k]),
            disjoint(self.symbols()) ==> match covering(self.symbols(), line, col) {
                None => r is None,
                Some(k) => r matches Some(v) && v@ == with_self(
                    self.entry(k),
                    self.symbols()[k],
                ),
            },
    {
        proof {
            use_type_invariant(self);
        }
        let index = match find(line, col, &self.symbol_seq) {
            Some(i) => i,
            None => {
                return None;
            },
        };
        proof {
            lemma_covering_unique(self.symbol_seq@, line, col, index as int);
        }
        match self.references.get(&index) {
            Some(refs) => {
                let mut result = self.symbols_at_indices(refs);
                result.push(self.symbol_seq[index]);
                assert(self.entry(index as int) matches Some(p) && result@ == p.push(
                    self.symbol_seq@[index as int],
                ));
                Some(result)
            },
            None => {
                let result = vec![self.symbol_seq[index]];
                assert(result@ =~= seq![self.symbol_seq@[index as int]]);
                Some(result)
            },
        }
    }

    /// The symbols at the indices `idx`, which lie in the table.
    fn symbols_at_indices(&self, idx: &Vec<usize>) -> (r: Vec<Symbol>)
        requires
            forall|t: int| 0 <= t < idx@.len() ==> #[trigger] idx@[t] < self.symbol_seq@.len(),
        ensures
            r@ == symbols_at(self.symbol_seq@, idx@),
    {
        let mut r: Vec<Symbol> = Vec::new();
        let mut t: usize = 0;
        while t < idx.len()
            invariant
                t <= idx@.len(),
                forall|u: int| 0 <= u < idx@.len() ==> #[trigger] idx@[u] < self.symbol_seq@.len(),
                r@ == symbols_at(self.symbol_seq@, idx@.subrange(0, t as int)),
            decreases idx@.len() - t,
        {
            r.push(self.symbol_seq[idx[t]]);
            t = t + 1;
            assert(symbols_at(self.symbol_seq@, idx@.subrange(0, t as int)) =~= symbols_at(
                self.symbol_seq@,
                idx@.subrange(0, t - 1),
            ).push(self.symbol_seq@[idx@[t - 1] as int]));
        }
        assert(idx@.subrange(0, t as int) =~= idx@);
        r
    }

    /// For each symbol of `syms` that some group holds, the indices of its
    /// partners.
    fn link_groups(refs: &Vec<Vec<Span>>, syms: &Vec<Symbol>) -> (m: HashMap<usize, Vec<usize>>)
        requires
            strictly_sorted(syms@),
            forall|s: Symbol|
                in_groups(groups_view(refs@), refs@.len() as int, s) ==> #[trigger] syms@.contains(
                    s,
                ),
        ensures
            forall|k: usize| #[trigger]
                m@.contains_key(k) ==> k < syms@.len() && forall|t: int|
                    0 <= t < m@[k]@.len() ==> #[trigger] m@[k]@[t] < syms@.len(),
            forall|k: usize|
                k < syms@.len() ==> (#[trigger] m@.contains_key(k) <==> in_groups(
                    groups_view(refs@),
                    refs@.len() as int,
                    syms@[k as int],
                )),
            forall|k: usize| #[trigger]
                m@.contains_key(k) ==> symbols_at(syms@, m@[k]@) == partners(
                    groups_view(refs@),
                    refs@.len() as int,
                    syms@[k as int],
                ),
    {
        let ghost gv = groups_view(refs@);
        let mut references: HashMap<usize, Vec<usize>> = HashMap::new();
        let mut gi: usize = 0;
        while gi < refs.len()
            invariant
                gi <= refs@.len(),
                gv == groups_view(refs@),
                strictly_sorted(syms@),
                forall|s: Symbol|
                    in_groups(gv, refs@.len() as int, s) ==> #[trigger] syms@.contains(s),
                forall|k: usize| #[trigger]
                    references@.contains_key(k) ==> k < syms@.len() && forall|t: int|
                        0 <= t < references@[k]@.len() ==> #[trigger] references@[k]@[t]
                            < syms@.len(),
                forall|k: usize|
                    k < syms@.len() ==> (#[trigger] references@.contains_key(k) <==> in_groups(
                        gv,
                        gi as int,
                        syms@[k as int],
                    )),
                forall|k: usize| #[trigger]
                    references@.contains_key(k) ==> symbols_at(syms@, references@[k]@)
                        == partners(gv, gi as int, syms@[k as int]),
            decreases refs@.len() - gi,
        {
            let group = &refs[gi];
            assert(group@ == gv[gi as int]);
            let idxs = indices_of(group, syms, Ghost(gv), Ghost(gi as int));
            let mut i: usize = 0;
            while i < group.len()
                invariant
                    gi < refs@.len(),
                    i <= group@.len(),
                    group@ == gv[gi as int],
                    gv == groups_view(refs@),
                    idxs@.len() == group@.len(),
                    forall|t: int|
                        0 <= t < idxs@.len() ==> #[trigger] idxs@[t] < syms@.len()
                            && syms@[idxs@[t] as int] == symbol_of(group@[t]),
                    strictly_sorted(syms@),
                    forall|k: usize| #[trigger]
                        references@.contains_key(k) ==> k < syms@.len() && forall|t: int|
                            0 <= t < references@[k]@.len() ==> #[trigger] references@[k]@[t]
                                < syms@.len(),
                    forall|k: usize|
                        k < syms@.len() ==> (#[trigger] references@.contains_key(k) <==> (
                        in_groups(gv, gi as int, syms@[k as int]) || exists|t: int|
                            0 <= t < i && #[trigger] symbol_of(group@[t]) == syms@[k as int])),
                    forall|k: usize| #[trigger]
                        references@.contains_key(k) ==> symbols_at(syms@, references@[k]@)
                            == partners(gv, gi as int, syms@[k as int]) + group_partners(
                            group@,
                            i as int,
                            syms@[k as int],
                        ),
                decreases group@.len() - i,
            {
                let k = idxs[i];
                let mut others = all_but(&idxs, i);
                let ghost others_v = others@;
                let ghost before = references@;
                let mut list = match references.remove(&k) {
                    Some(v) => v,
                    None => Vec::new(),
                };
                let ghost prior = list@;
                list.append(&mut others);
                references.insert(k, list);
                proof {
                    let s = syms@[k as int];
                    assert(s == symbol_of(group@[i as int]));
                    assert(symbols_at(syms@, others_v) =~= symbols_of(group@.remove(i as int)));
                    assert(symbols_at(syms@, prior + others_v) =~= symbols_at(syms@, prior)
                        + symbols_at(syms@, others_v));
                    if !before.contains_key(k) {
                        assert(prior =~= Seq::<usize>::empty());
                        assert(!in_groups(gv, gi as int, s));
                        lemma_no_partners(gv, gi as int, s);
                        assert forall|t: int| 0 <= t < i implies symbol_of(
                            #[trigger] group@[t],
                        ) != s by {
                            if symbol_of(group@[t]) == s {
                                assert(before.contains_key(k));
                            }
                        }
                        lemma_no_group_partners(group@, i as int, s);
                    }
                    assert forall|k2: usize| k2 < syms@.len() && k2 != k implies symbol_of(
                        group@[i as int],
                    ) != #[trigger] syms@[k2 as int] by {
                        if k2 < k {
                            assert(symbol_lt(syms@[k2 as int], syms@[k as int]));
                        } else {
                            assert(symbol_lt(syms@[k as int], syms@[k2 as int]));
                        }
                    }
                    assert forall|k2: usize| k2 < syms@.len() implies (
                    #[trigger] references@.contains_key(k2) <==> (in_groups(
                        gv,
                        gi as int,
                        syms@[k2 as int],
                    ) || exists|t: int|
                        0 <= t < i + 1 && #[trigger] symbol_of(group@[t]) == syms@[k2 as int])) by {
                        if k2 != k {
                            if exists|t: int|
                                0 <= t < i + 1 && #[trigger] symbol_of(group@[t])
                                    == syms@[k2 as int] {
                                let t = choose|t: int|
                                    0 <= t < i + 1 && #[trigger] symbol_of(group@[t])
                                        == syms@[k2 as int];
                                assert(t < i);
                            }
                        } else {
                            assert(symbol_of(group@[i as int]) == syms@[k2 as int]);
                        }
                    }
                }
                i = i + 1;
            }
            proof {
                assert forall|k2: usize| k2 < syms@.len() implies (
                #[trigger] references@.contains_key(k2) <==> in_groups(
                    gv,
                    gi + 1,
                    syms@[k2 as int],
                )) by {
                    let s = syms@[k2 as int];
                    if in_groups(gv, gi + 1, s) {
                        let (g, t) = choose|g: int, t: int|
                            0 <= g < gi + 1 && 0 <= t < gv[g].len() && #[trigger] symbol_of(
                                gv[g][t],
                            ) == s;
                        if g < gi {
                            assert(in_groups(gv, gi as int, s));
                        } else {
                            assert(symbol_of(group@[t]) == s);
                        }
                    }
                    if references@.contains_key(k2) && !in_groups(gv, gi as int, s) {
                        let t = choose|t: int|
                            0 <= t < group@.len() && #[trigger] symbol_of(group@[t]) == s;
                        assert(symbol_of(gv[gi as int][t]) == s);
                    }
                }
            }
            gi = gi + 1;
        }
        references
    }
}

/// The index in `syms` of each span of `group`, the group at `gi` of `gv`.
fn indices_of(
    group: &Vec<Span>,
    syms: &Vec<Symbol>,
    Ghost(gv): Ghost<Seq<Seq<Span>>>,
    Ghost(gi): Ghost<int>,
) -> (r: Vec<usize>)
    requires
        strictly_sorted(syms@),
        0 <= gi < gv.len(),
        gv[gi] == group@,
        forall|s: Symbol| in_groups(gv, gv.len() as int, s) ==> #[trigger] syms@.contains(s),
    ensures
        r@.len() == group@.len(),
        forall|t: int|
            0 <= t < r@.len() ==> #[trigger] r@[t] < syms@.len() && syms@[r@[t] as int]
                == symbol_of(group@[t]),
{
    let mut r: Vec<usize> = Vec::new();
    let mut t: usize = 0;
    while t < group.len()
        invariant
            t <= group@.len(),
            r@.len() == t,
            strictly_sorted(syms@),
            0 <= gi < gv.len(),
            gv[gi] == group@,
            forall|s: Symbol| in_groups(gv, gv.len() as int, s) ==> #[trigger] syms@.contains(s),
            forall|u: int|
                0 <= u < r@.len() ==> #[trigger] r@[u] < syms@.len() && syms@[r@[u] as int]
                    == symbol_of(group@[u]),
        decreases group@.len() - t,
    {
        let sym = Symbol::new(group[t]);
        assert(symbol_of(gv[gi][t as int]) == sym);
        assert(in_groups(gv, gv.len() as int, sym));
        let k = index_of(syms, sym);
        r.push(k);
        t = t + 1;
    }
    r
}

/// The entries of `v` but the one at `i`.
fn all_but(v: &Vec<usize>, i: usize) -> (r: Vec<usize>)
    requires
        i < v@.len(),
    ensures
        r@ == v@.remove(i as int),
{
    let mut r: Vec<usize> = Vec::new();
    let mut j: usize = 0;
    while j < v.len()
        invariant
            i < v@.len(),
            j <= v@.len(),
            r@ == if j <= i {
                v@.subrange(0, j as int)
            } else {
                v@.subrange(0, i as int) + v@.subrange(i + 1, j as int)
            },
        decreases v@.len() - j,
    {
        if j != i {
            r.push(v[j]);
        }
        j = j + 1;
    }
    assert(r@ =~= v@.remove(i as int));
    r
}

/// What a query for a symbol and its partners yields for a symbol `s` with
/// entry `e`.
pub open spec fn with_self(e: Option<Seq<Symbol>>, s: Symbol) -> Seq<Symbol> {
    match e {
        Some(p) => p.push(s),
        None => seq![s],
    }
}

/// In a strictly sorted table without overlaps, a symbol covering a position
/// is the one `covering` names.
proof fn lemma_covering_unique(syms: Seq<Symbol>, line: u32, col: u32, i: int)
    requires
        0 <= i < syms.len(),
        covers(syms[i], line, col),
        strictly_sorted(syms),
    ensures
        covering(syms, line, col) is Some,
        disjoint(syms) ==> covering(syms, line, col) == Some(i),
{
    let k = choose|k: int| 0 <= k < syms.len() && covers(#[trigger] syms[k], line, col);
    if disjoint(syms) && k != i {
        if k < i {
            assert(syms[k].col + syms[k].length < syms[i].col);
        } else {
            assert(syms[i].col + syms[i].length < syms[k].col);
        }
    }
}

proof fn lemma_no_group_partners(g: Seq<Span>, n: int, s: Symbol)
    requires
        forall|t: int| 0 <= t < n ==> symbol_of(#[trigger] g[t]) != s,
    ensures
        group_partners(g, n, s) == Seq::<Symbol>::empty(),
    decreases n,
{
    if n > 0 {
        lemma_no_group_partners(g, n - 1, s);
    }
}

proof fn lemma_no_partners(refs: Seq<Seq<Span>>, n: int, s: Symbol)
    requires
        !in_groups(refs, n, s),
    ensures
        partners(refs, n, s) == Seq::<Symbol>::empty(),
    decreases n,
{
    if n > 0 {
        assert(!in_groups(refs, n - 1, s)) by {
            if in_groups(refs, n - 1, s) {
                let (g, i) = choose|g: int, i: int|
                    0 <= g < n - 1 && 0 <= i < refs[g].len() && #[trigger] symbol_of(refs[g][i])
                        == s;
                assert(symbol_of(refs[g][i]) == s);
            }
        }
        lemma_no_partners(refs, n - 1, s);
        assert forall|t: int| 0 <= t < refs[n - 1].len() implies symbol_of(
            #[trigger] refs[n - 1][t],
        ) != s by {
            if symbol_of(refs[n - 1][t]) == s {
                assert(in_groups(refs, n, s));
            }
        }
        lemma_no_group_partners(refs[n - 1], refs[n - 1].len() as int, s);
    }
}

/// Finds a symbol of `refs` that covers the position `(line, col)` by binary
/// search, and returns its index.
///
/// Any index returned is of a covering symbol. When `refs` is strictly sorted
/// and its symbols do not overlap, `None` comes exactly when no symbol covers
/// the position.
pub fn find(line: u32, col: u32, refs: &Vec<Symbol>) -> (r: Option<usize>)
    ensures
        r matches Some(i) ==> i < refs@.len() && covers(refs@[i as int], line, col),
        strictly_sorted(refs@) && disjoint(refs@) ==> (r is None <==> !exists|k: int|
            0 <= k < refs@.len() && covers(#[trigger] refs@[k], line, col)),
{
    let ghost tidy = strictly_sorted(refs@) && disjoint(refs@);
    let mut low: usize = 0;
    let mut high: usize = refs.len();
    while low < high
        invariant
            low <= high <= refs@.len(),
            tidy == (strictly_sorted(refs@) && disjoint(refs@)),
            tidy ==> forall|k: int|
                0 <= k < refs@.len() && covers(#[trigger] refs@[k], line, col) ==> low <= k
                    < high,
        decreases high - low,
    {
        let mid = low + (high - low) / 2;
        let mid_val = refs[mid];
        if mid_val.is_inside(line, col) {
            return Some(mid);
        }
        if mid_val.line < line || (mid_val.line == line && mid_val.col < col) {
            assert(starts_before(mid_val, line, col));
            low = mid + 1;
        } else {
            high = mid;
        }
    }
    None
}

/// The index of `s` in a strictly sorted table that holds it.
fn index_of(syms: &Vec<Symbol>, s: Symbol) -> (r: usize)
    requires
        strictly_sorted(syms@),
        syms@.contains(s),
    ensures
        r < syms@.len(),
        syms@[r as int] == s,
{
    let mut low: usize = 0;
    let mut high: usize = syms.len();
    while low + 1 < high
        invariant
            low < high <= syms@.len(),
            strictly_sorted(syms@),
            forall|k: int| 0 <= k < syms@.len() && syms@[k] == s ==> low <= k < high,
        decreases high - low,
    {
        let mid = low + (high - low) / 2;
        if s.precedes(&syms[mid]) {
            high = mid;
        } else {
            low = mid;
        }
    }
    low
}

/// Adds `s` to a strictly sorted table unless it is there already.
fn insert_unique(syms: &mut Vec<Symbol>, s: Symbol)
    requires
        strictly_sorted(old(syms)@),
    ensures
        strictly_sorted(final(syms)@),
        forall|x: Symbol| #[trigger]
            final(syms)@.contains(x) <==> old(syms)@.contains(x) || x == s,
{
    let mut p: usize = 0;
    while p < syms.len() && syms[p].precedes(&s)
        invariant
            p <= syms@.len(),
            syms@ == old(syms)@,
            strictly_sorted(syms@),
            forall|k: int| 0 <= k < p ==> symbol_lt(#[trigger] syms@[k], s),
        decreases syms@.len() - p,
    {
        p = p + 1;
    }
    if p < syms.len() && syms[p] == s {
        assert(syms@[p as int] == s);
        return;
    }
    let ghost before = syms@;
    syms.insert(p, s);
    assert forall|x: Symbol| #[trigger]
        syms@.contains(x) implies before.contains(x) || x == s by {
        let k = choose|k: int| 0 <= k < syms@.len() && syms@[k] == x;
        if k > p {
            assert(before[k - 1] == x);
        } else if k < p {
            assert(before[k] == x);
        }
    }
    assert forall|x: Symbol| before.contains(x) implies #[trigger] syms@.contains(x) by {
        let k = choose|k: int| 0 <= k < before.len() && before[k] == x;
        if k >= p {
            assert(syms@[k + 1] == x);
        } else {
            assert(syms@[k] == x);
        }
    }
    assert(syms@[p as int] == s);
}

/// In a strictly sorted table without overlaps, no symbol covers a column
/// strictly between two neighbouring symbols on the same line, and each
/// symbol covers every column from its start to its end, both included.
pub proof fn lemma_query_positions(syms: Seq<Symbol>, k: int, col: u32)
    requires
        strictly_sorted(syms),
        disjoint(syms),
        0 <= k < syms.len(),
    ensures
        syms[k].col <= col <= syms[k].col + syms[k].length ==> covering(syms, syms[k].line, col)
            == Some(k),
        k + 1 < syms.len() && syms[k + 1].line == syms[k].line && syms[k].col + syms[k].length
            < col < syms[k + 1].col ==> covering(syms, syms[k].line, col) is None,
{
    let line = syms[k].line;
    if syms[k].col <= col <= syms[k].col + syms[k].length {
        lemma_covering_unique(syms, line, col, k);
    }
    if k + 1 < syms.len() && syms[k + 1].line == line && syms[k].col + syms[k].length < col
        < syms[k + 1].col {
        assert forall|j: int| 0 <= j < syms.len() implies !covers(#[trigger] syms[j], line, col) by {
            if covers(syms[j], line, col) {
                if j < k {
                    assert(symbol_lt(syms[j], syms[k]));
                    assert(syms[j].col + syms[j].length < syms[k].col);
                } else if j > k + 1 {
                    assert(symbol_lt(syms[k + 1], syms[j]));
                }
            }
        }
    }
}

/// A query for a symbol and its partners yields the symbol alone where it
/// has no partner, and two entries, the partner and the symbol, where it has
/// one.
pub proof fn lemma_with_self_shapes(s: Symbol, p: Symbol)
    ensures
        with_self(None, s) == seq![s],
        with_self(Some(seq![p]), s) == seq![p, s],
        with_self(Some(seq![p]), s).len() == 2,
        with_self(Some(seq![p]), s).contains(s),
{
    assert(with_self(Some(seq![p]), s) =~= seq![p, s]);
    assert(with_self(Some(seq![p]), s)[1] == s);
}

/// A pair of spans of distinct symbols makes each the one partner of the
/// other.
pub proof fn lemma_pair_partners(a: Span, b: Span)
    requires
        symbol_of(a) != symbol_of(b),
    ensures
        partners(seq![seq![a, b]], 1, symbol_of(a)) == seq![symbol_of(b)],
        partners(seq![seq![a, b]], 1, symbol_of(b)) == seq![symbol_of(a)],
        in_groups(seq![seq![a, b]], 1, symbol_of(a)),
        in_groups(seq![seq![a, b]], 1, symbol_of(b)),
{
    let g = seq![a, b];
    let refs = seq![g];
    assert(refs[0] == g);
    assert(symbols_of(g.remove(0)) =~= seq![symbol_of(b)]);
    assert(symbols_of(g.remove(1)) =~= seq![symbol_of(a)]);
    assert(g[0] == a && g[1] == b);
    assert(group_partners(g, 0, symbol_of(a)) =~= Seq::<Symbol>::empty());
    assert(group_partners(g, 0, symbol_of(b)) =~= Seq::<Symbol>::empty());
    assert(group_partners(g, 1, symbol_of(a)) =~= seq![symbol_of(b)]);
    assert(group_partners(g, 1, symbol_of(b)) =~= Seq::<Symbol>::empty());
    assert(group_partners(g, 2, symbol_of(a)) =~= seq![symbol_of(b)]);
    assert(group_partners(g, 2, symbol_of(b)) =~= seq![symbol_of(a)]);
    assert(refs[0].len() == 2);
    assert(partners(refs, 0, symbol_of(a)) =~= Seq::<Symbol>::empty());
    assert(partners(refs, 0, symbol_of(b)) =~= Seq::<Symbol>::empty());
    assert(partners(refs, 1, symbol_of(a)) =~= seq![symbol_of(b)]);
    assert(partners(refs, 1, symbol_of(b)) =~= seq![symbol_of(a)]);
    assert(symbol_of(refs[0][0]) == symbol_of(a));
    assert(symbol_of(refs[0][1]) == symbol_of(b));
}

} // verus!
