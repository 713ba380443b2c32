use vstd::prelude::*;

use crate::diagnostic::{LinkDiagnostic, LinkDiagnosticKind};
use crate::reference::groups_view;
use crate::span::Span;

verus! {

/// One occurrence of a link name.
pub struct Occurrence {
    pub name: String,
    pub span: Span,
}

impl View for Occurrence {
    type V = (Seq<char>, Span);

    open spec fn view(&self) -> (Seq<char>, Span) {
        (self.name@, self.span)
    }
}

impl Occurrence {
    pub fn duplicate(&self) -> (r: Occurrence)
        ensures
            r@ == self@,
    {
        Occurrence { name: self.name.clone(), span: self.span }
    }
}

/// Occurrences as name and span pairs.
pub open spec fn occs_view(v: Seq<Occurrence>) -> Seq<(Seq<char>, Span)> {
    v.map_values(|o: Occurrence| o@)
}

/// The spans, in order, of the occurrences of `n` among the first `k`.
pub open spec fn spans_named(occ: Seq<(Seq<char>, Span)>, n: Seq<char>, k: int) -> Seq<Span>
    decreases k,
{
    if k <= 0 {
        Seq::empty()
    } else {
        spans_named(occ, n, k - 1) + if occ[k - 1].0 == n {
            seq![occ[k - 1].1]
        } else {
            Seq::empty()
        }
    }
}

/// The spans, in order, of all occurrences of `n`.
pub open spec fn spans_of_name(occ: Seq<(Seq<char>, Span)>, n: Seq<char>) -> Seq<Span> {
    spans_named(occ, n, occ.len() as int)
}

/// Whether the occurrence at `i` is the first of its name.
pub open spec fn first_of_name(occ: Seq<(Seq<char>, Span)>, i: int) -> bool {
    forall|j: int| 0 <= j < i ==> occ[j].0 != #[trigger] occ[i].0
}

/// One diagnostic for each occurrence from the third on, citing the first two.
pub open spec fn multi_diags(s: Seq<Span>) -> Seq<LinkDiagnostic> {
    Seq::new(
        (s.len() - 2) as nat,
        |k: int|
            LinkDiagnostic {
                kind: LinkDiagnosticKind::MultiOccurrence { first: s[0], second: s[1] },
                span: s[k + 2],
            },
    )
}

/// How the occurrences `s` of one name settle at a scope boundary: the groups
/// formed and the diagnostics raised. At a terminal boundary a single
/// occurrence is a free link; at an inner one it stays open, as does a name
/// that does not occur.
pub open spec fn verdict(s: Seq<Span>, terminal: bool) -> (Seq<Seq<Span>>, Seq<LinkDiagnostic>) {
    if s.len() == 2 {
        (seq![s], Seq::empty())
    } else if s.len() >= 3 {
        (Seq::empty(), multi_diags(s))
    } else if s.len() == 1 && terminal {
        (Seq::empty(), seq![LinkDiagnostic { kind: LinkDiagnosticKind::FreeLink, span: s[0] }])
    } else {
        (Seq::empty(), Seq::empty())
    }
}

/// The verdicts of the names first met among the first `k` occurrences, in
/// the order of those first occurrences.
pub open spec fn resolve(occ: Seq<(Seq<char>, Span)>, k: int, terminal: bool) -> (
    Seq<Seq<Span>>,
    Seq<LinkDiagnostic>,
)
    decreases k,
{
    if k <= 0 {
        (Seq::empty(), Seq::empty())
    } else {
        let prev = resolve(occ, k - 1, terminal);
        if first_of_name(occ, k - 1) {
            let v = verdict(spans_of_name(occ, occ[k - 1].0), terminal);
            (prev.0 + v.0, prev.1 + v.1)
        } else {
            prev
        }
    }
}

/// The verdicts of all names of `occ`.
pub open spec fn resolution(occ: Seq<(Seq<char>, Span)>, terminal: bool) -> (
    Seq<Seq<Span>>,
    Seq<LinkDiagnostic>,
) {
    resolve(occ, occ.len() as int, terminal)
}

/// Among the first `k` occurrences, those whose name occurs only once: they
/// stay open past an inner boundary.
pub open spec fn unsettled(occ: Seq<(Seq<char>, Span)>, k: int) -> Seq<(Seq<char>, Span)>
    decreases k,
{
    if k <= 0 {
        Seq::empty()
    } else {
        unsettled(occ, k - 1) + if spans_of_name(occ, occ[k - 1].0).len() <= 1 {
            seq![occ[k - 1]]
        } else {
            Seq::empty()
        }
    }
}

/// The spans of the occurrences named `name`, in order.
fn spans_with_name(occ: &Vec<Occurrence>, name: &String) -> (r: Vec<Span>)
    ensures
        r@ == spans_of_name(occs_view(occ@), name@),
{
    let ghost ov = occs_view(occ@);
    let mut r: Vec<Span> = Vec::new();
    let mut i: usize = 0;
    while i < occ.len()
        invariant
            i <= occ@.len(),
            ov == occs_view(occ@),
            r@ == spans_named(ov, name@, i as int),
        decreases occ@.len() - i,
    {
        if occ[i].name == *name {
            r.push(occ[i].span);
        }
        i = i + 1;
    }
    r
}

/// Whether the occurrence at `i` is the first of its name.
fn is_first_of_name(occ: &Vec<Occurrence>, i: usize) -> (r: bool)
    requires
        i < occ@.len(),
    ensures
        r == first_of_name(occs_view(occ@), i as int),
{
    let ghost ov = occs_view(occ@);
    let mut j: usize = 0;
    while j < i
        invariant
            i < occ@.len(),
            j <= i,
            ov == occs_view(occ@),
            forall|t: int| 0 <= t < j ==> ov[t].0 != ov[i as int].0,
        decreases i - j,
    {
        if occ[j].name == occ[i].name {
            assert(ov[j as int].0 == ov[i as int].0);
            return false;
        }
        j = j + 1;
    }
    true
}

/// Adds the verdict on the occurrences `s` of one name.
fn report(
    s: &Vec<Span>,
    terminal: bool,
    refs: &mut Vec<Vec<Span>>,
    diags: &mut Vec<LinkDiagnostic>,
)
    ensures
        groups_view(final(refs)@) == groups_view(old(refs)@) + verdict(s@, terminal).0,
        final(diags)@ == old(diags)@ + verdict(s@, terminal).1,
{
    let ghost old_refs = groups_view(refs@);
    if s.len() == 2 {
        refs.push(s.clone());
        assert(groups_view(refs@) =~= old_refs + seq![s@]);
        assert(diags@ =~= old(diags)@ + Seq::<LinkDiagnostic>::empty());
    } else if s.len() >= 3 {
        let first = s[0];
        let second = s[1];
        let mut k: usize = 2;
        while k < s.len()
            invariant
                2 <= k <= s@.len(),
                first == s@[0],
                second == s@[1],
                refs@ == old(refs)@,
                diags@ == old(diags)@ + multi_diags(s@).subrange(0, k - 2),
            decreases s@.len() - k,
        {
            diags.push(
                LinkDiagnostic {
                    kind: LinkDiagnosticKind::MultiOccurrence { first, second },
                    span: s[k],
                },
            );
            k = k + 1;
            assert(multi_diags(s@).subrange(0, k - 2) =~= multi_diags(s@).subrange(0, k - 3).push(
                multi_diags(s@)[k - 3],
            ));
        }
        assert(multi_diags(s@).subrange(0, k - 2) =~= multi_diags(s@));
        assert(groups_view(refs@) =~= old_refs + Seq::<Seq<Span>>::empty());
    } else if s.len() == 1 && terminal {
        diags.push(LinkDiagnostic { kind: LinkDiagnosticKind::FreeLink, span: s[0] });
        assert(groups_view(refs@) =~= old_refs + Seq::<Seq<Span>>::empty());
    } else {
        assert(groups_view(refs@) =~= old_refs + Seq::<Seq<Span>>::empty());
        assert(diags@ =~= old(diags)@ + Seq::<LinkDiagnostic>::empty());
    }
}

/// Settles the occurrences `occ` at a scope boundary, adding the groups formed
/// and the diagnostics raised, name by name in the order of first occurrence.
pub fn settle(
    occ: &Vec<Occurrence>,
    terminal: bool,
    refs: &mut Vec<Vec<Span>>,
    diags: &mut Vec<LinkDiagnostic>,
)
    ensures
        groups_view(final(refs)@) == groups_view(old(refs)@) + resolution(
            occs_view(occ@),
            terminal,
        ).0,
        final(diags)@ == old(diags)@ + resolution(occs_view(occ@), terminal).1,
{
    let ghost ov = occs_view(occ@);
    let mut i: usize = 0;
    while i < occ.len()
        invariant
            i <= occ@.len(),
            ov == occs_view(occ@),
            groups_view(refs@) == groups_view(old(refs)@) + resolve(ov, i as int, terminal).0,
            diags@ == old(diags)@ + resolve(ov, i as int, terminal).1,
        decreases occ@.len() - i,
    {
        if is_first_of_name(occ, i) {
            let s = spans_with_name(occ, &occ[i].name);
            report(&s, terminal, refs, diags);
            let ghost v = verdict(s@, terminal);
            assert(groups_view(refs@) =~= groups_view(old(refs)@) + (resolve(
                ov,
                i as int,
                terminal,
            ).0 + v.0));
            assert(diags@ =~= old(diags)@ + (resolve(ov, i as int, terminal).1 + v.1));
        }
        i = i + 1;
    }
}

/// The occurrences whose name occurs only once, in order.
pub fn unsettled_of(occ: &Vec<Occurrence>) -> (r: Vec<Occurrence>)
    ensures
        occs_view(r@) == unsettled(occs_view(occ@), occ@.len() as int),
{
    let ghost ov = occs_view(occ@);
    let mut r: Vec<Occurrence> = Vec::new();
    let mut i: usize = 0;
    while i < occ.len()
        invariant
            i <= occ@.len(),
            ov == occs_view(occ@),
            occs_view(r@) == unsettled(ov, i as int),
        decreases occ@.len() - i,
    {
        let s = spans_with_name(occ, &occ[i].name);
        if s.len() <= 1 {
            let ghost before = r@;
            r.push(occ[i].duplicate());
            assert(occs_view(r@) =~= occs_view(before) + seq![ov[i as int]]);
        }
        i = i + 1;
    }
    r
}

} // verus!

verus! {

proof fn lemma_resolve_grows(occ: Seq<(Seq<char>, Span)>, k: int, m: int, terminal: bool)
    requires
        0 <= k <= m,
    ensures
        resolve(occ, k, terminal).0.len() <= resolve(occ, m, terminal).0.len(),
        resolve(occ, k, terminal).1.len() <= resolve(occ, m, terminal).1.len(),
        resolve(occ, k, terminal).0 == resolve(occ, m, terminal).0.subrange(
            0,
            resolve(occ, k, terminal).0.len() as int,
        ),
        resolve(occ, k, terminal).1 == resolve(occ, m, terminal).1.subrange(
            0,
            resolve(occ, k, terminal).1.len() as int,
        ),
    decreases m,
{
    if k < m {
        lemma_resolve_grows(occ, k, m - 1, terminal);
        let a = resolve(occ, k, terminal);
        let b = resolve(occ, m - 1, terminal);
        let c = resolve(occ, m, terminal);
        assert(b.0 == c.0.subrange(0, b.0.len() as int));
        assert(b.1 == c.1.subrange(0, b.1.len() as int));
        assert(a.0 =~= c.0.subrange(0, a.0.len() as int));
        assert(a.1 =~= c.1.subrange(0, a.1.len() as int));
    } else {
        assert(resolve(occ, k, terminal).0 =~= resolve(occ, m, terminal).0.subrange(
            0,
            resolve(occ, k, terminal).0.len() as int,
        ));
        assert(resolve(occ, k, terminal).1 =~= resolve(occ, m, terminal).1.subrange(
            0,
            resolve(occ, k, terminal).1.len() as int,
        ));
    }
}

proof fn lemma_none_named(occ: Seq<(Seq<char>, Span)>, n: Seq<char>, m: int)
    requires
        0 <= m <= occ.len(),
        spans_named(occ, n, m).len() == 0,
    ensures
        forall|j: int| 0 <= j < m ==> (#[trigger] occ[j]).0 != n,
    decreases m,
{
    if m > 0 {
        lemma_none_named(occ, n, m - 1);
    }
}

proof fn lemma_first_index(occ: Seq<(Seq<char>, Span)>, n: Seq<char>, k: int) -> (i: int)
    requires
        0 <= k <= occ.len(),
        spans_named(occ, n, k).len() > 0,
    ensures
        0 <= i < k,
        occ[i].0 == n,
        first_of_name(occ, i),
    decreases k,
{
    if spans_named(occ, n, k - 1).len() > 0 {
        lemma_first_index(occ, n, k - 1)
    } else {
        lemma_none_named(occ, n, k - 1);
        k - 1
    }
}

/// Every group and diagnostic of the verdict on a name that occurs in `occ`
/// is among those of the resolution of `occ`.
pub proof fn lemma_verdict_in_resolution(
    occ: Seq<(Seq<char>, Span)>,
    n: Seq<char>,
    terminal: bool,
)
    requires
        spans_of_name(occ, n).len() > 0,
    ensures
        forall|k: int|
            0 <= k < verdict(spans_of_name(occ, n), terminal).0.len() ==> resolution(
                occ,
                terminal,
            ).0.contains(#[trigger] verdict(spans_of_name(occ, n), terminal).0[k]),
        forall|k: int|
            0 <= k < verdict(spans_of_name(occ, n), terminal).1.len() ==> resolution(
                occ,
                terminal,
            ).1.contains(#[trigger] verdict(spans_of_name(occ, n), terminal).1[k]),
{
    let i = lemma_first_index(occ, n, occ.len() as int);
    let v = verdict(spans_of_name(occ, n), terminal);
    let before = resolve(occ, i, terminal);
    let after = resolve(occ, i + 1, terminal);
    let all = resolution(occ, terminal);
    lemma_resolve_grows(occ, i + 1, occ.len() as int, terminal);
    assert forall|k: int| 0 <= k < v.0.len() implies all.0.contains(#[trigger] v.0[k]) by {
        assert(after.0[before.0.len() + k] == v.0[k]);
        assert(all.0[before.0.len() + k] == v.0[k]);
    }
    assert forall|k: int| 0 <= k < v.1.len() implies all.1.contains(#[trigger] v.1[k]) by {
        assert(after.1[before.1.len() + k] == v.1[k]);
        assert(all.1[before.1.len() + k] == v.1[k]);
    }
}

/// Occurrences stand at distinct places of the document.
pub open spec fn distinct_places(occ: Seq<(Seq<char>, Span)>) -> bool {
    forall|i: int, j: int| 0 <= i < j < occ.len() ==> (#[trigger] occ[i]).1 != (#[trigger] occ[j]).1
}

/// Diagnostics raised at one of the places `s`.
pub open spec fn diag_on(s: Seq<Span>) -> spec_fn(LinkDiagnostic) -> bool {
    |d: LinkDiagnostic| s.contains(d.span)
}

/// Groups that start at one of the places `s`.
pub open spec fn group_on(s: Seq<Span>) -> spec_fn(Seq<Span>) -> bool {
    |g: Seq<Span>| g.len() > 0 && s.contains(g[0])
}

proof fn lemma_filter_keeps_all<A>(s: Seq<A>, p: spec_fn(A) -> bool)
    requires
        forall|i: int| 0 <= i < s.len() ==> p(#[trigger] s[i]),
    ensures
        s.filter(p) == s,
    decreases s.len(),
{
    if s.len() > 0 {
        let r = s.drop_last();
        lemma_filter_keeps_all(r, p);
        r.lemma_filter_push(s.last(), p);
        assert(r.push(s.last()) =~= s);
    } else {
        s.lemma_all_neg_filter_empty(p);
        assert(s.filter(p) =~= s);
    }
}

proof fn lemma_filter_drops_all<A>(s: Seq<A>, p: spec_fn(A) -> bool)
    requires
        forall|i: int| 0 <= i < s.len() ==> !p(#[trigger] s[i]),
    ensures
        s.filter(p) == Seq::<A>::empty(),
{
    assert(s.all(|x: A| !p(x)));
    s.lemma_all_neg_filter_empty(p);
    assert(s.filter(p) =~= Seq::<A>::empty());
}

proof fn lemma_named_member(occ: Seq<(Seq<char>, Span)>, n: Seq<char>, k: int, x: Span)
    requires
        0 <= k <= occ.len(),
        spans_named(occ, n, k).contains(x),
    ensures
        exists|j: int| 0 <= j < k && (#[trigger] occ[j]).0 == n && occ[j].1 == x,
    decreases k,
{
    let prev = spans_named(occ, n, k - 1);
    if prev.contains(x) {
        lemma_named_member(occ, n, k - 1, x);
        let j = choose|j: int| 0 <= j < k - 1 && (#[trigger] occ[j]).0 == n && occ[j].1 == x;
        assert(occ[j].0 == n && occ[j].1 == x);
    } else {
        let i = choose|i: int| 0 <= i < spans_named(occ, n, k).len() && spans_named(occ, n, k)[i] == x;
        assert(i >= prev.len());
        assert(occ[k - 1].0 == n && occ[k - 1].1 == x);
    }
}

proof fn lemma_named_empty(occ: Seq<(Seq<char>, Span)>, n: Seq<char>, k: int)
    requires
        0 <= k <= occ.len(),
        forall|j: int| 0 <= j < k ==> (#[trigger] occ[j]).0 != n,
    ensures
        spans_named(occ, n, k).len() == 0,
    decreases k,
{
    if k > 0 {
        lemma_named_empty(occ, n, k - 1);
    }
}

/// Two names with an occurrence at one place are one name.
proof fn lemma_place_owner(occ: Seq<(Seq<char>, Span)>, n: Seq<char>, m: Seq<char>, x: Span)
    requires
        distinct_places(occ),
        spans_of_name(occ, n).contains(x),
        spans_of_name(occ, m).contains(x),
    ensures
        n == m,
{
    lemma_named_member(occ, n, occ.len() as int, x);
    lemma_named_member(occ, m, occ.len() as int, x);
    let i = choose|j: int| 0 <= j < occ.len() && (#[trigger] occ[j]).0 == n && occ[j].1 == x;
    let j = choose|j: int| 0 <= j < occ.len() && (#[trigger] occ[j]).0 == m && occ[j].1 == x;
    if i < j {
        assert(occ[i].1 != occ[j].1);
    } else if j < i {
        assert(occ[j].1 != occ[i].1);
    }
}

/// The groups of a verdict are the occurrences themselves; its diagnostics
/// stand at the occurrences.
proof fn lemma_verdict_places(s: Seq<Span>, terminal: bool)
    ensures
        forall|i: int|
            0 <= i < verdict(s, terminal).0.len() ==> #[trigger] verdict(s, terminal).0[i] == s,
        forall|i: int|
            0 <= i < verdict(s, terminal).1.len() ==> s.contains(
                (#[trigger] verdict(s, terminal).1[i]).span,
            ),
{
    if s.len() >= 3 {
        assert forall|i: int| 0 <= i < verdict(s, terminal).1.len() implies s.contains(
            (#[trigger] verdict(s, terminal).1[i]).span,
        ) by {
            assert(verdict(s, terminal).1[i].span == s[i + 2]);
        }
    } else if s.len() == 1 && terminal {
        assert(verdict(s, terminal).1[0].span == s[0]);
    }
}

/// Among the verdicts on the first `k` occurrences, those that fall on the
/// places of `n` are `n`'s own verdict once `n` has occurred, and none before.
proof fn lemma_resolve_on_name(
    occ: Seq<(Seq<char>, Span)>,
    n: Seq<char>,
    k: int,
    terminal: bool,
)
    requires
        distinct_places(occ),
        0 <= k <= occ.len(),
    ensures
        ({
            let s = spans_of_name(occ, n);
            let r = resolve(occ, k, terminal);
            &&& r.0.filter(group_on(s)) == if spans_named(occ, n, k).len() > 0 {
                verdict(s, terminal).0
            } else {
                Seq::empty()
            }
            &&& r.1.filter(diag_on(s)) == if spans_named(occ, n, k).len() > 0 {
                verdict(s, terminal).1
            } else {
                Seq::empty()
            }
        }),
    decreases k,
{
    let s = spans_of_name(occ, n);
    let r = resolve(occ, k, terminal);
    if k == 0 {
        lemma_filter_drops_all(r.0, group_on(s));
        lemma_filter_drops_all(r.1, diag_on(s));
    } else {
        lemma_resolve_on_name(occ, n, k - 1, terminal);
        let prev = resolve(occ, k - 1, terminal);
        let m = occ[k - 1].0;
        if !first_of_name(occ, k - 1) {
            if occ[k - 1].0 == n && spans_named(occ, n, k - 1).len() == 0 {
                lemma_none_named(occ, n, k - 1);
                assert(first_of_name(occ, k - 1));
            }
        } else {
            let sm = spans_of_name(occ, m);
            let v = verdict(sm, terminal);
            lemma_verdict_places(sm, terminal);
            Seq::filter_distributes_over_add(prev.0, v.0, group_on(s));
            Seq::filter_distributes_over_add(prev.1, v.1, diag_on(s));
            if m == n {
                lemma_named_empty(occ, n, k - 1);
                assert forall|i: int| 0 <= i < v.0.len() implies (group_on(s))(#[trigger] v.0[i]) by {
                    assert(v.0[i] == s);
                    assert(s.len() == 2);
                    assert(s.contains(s[0]));
                }
                lemma_filter_keeps_all(v.0, group_on(s));
                lemma_filter_keeps_all(v.1, diag_on(s));
                assert(prev.0.filter(group_on(s)) + v.0 =~= v.0);
                assert(prev.1.filter(diag_on(s)) + v.1 =~= v.1);
                assert(spans_named(occ, n, k).len() > 0);
            } else {
                assert forall|i: int| 0 <= i < v.0.len() implies !(group_on(s))(#[trigger] v.0[i]) by {
                    if (group_on(s))(v.0[i]) {
                        assert(v.0[i] == sm);
                        lemma_place_owner(occ, n, m, sm[0]);
                    }
                }
                assert forall|i: int| 0 <= i < v.1.len() implies !(diag_on(s))(#[trigger] v.1[i]) by {
                    if (diag_on(s))(v.1[i]) {
                        lemma_place_owner(occ, n, m, v.1[i].span);
                    }
                }
                lemma_filter_drops_all(v.0, group_on(s));
                lemma_filter_drops_all(v.1, diag_on(s));
                assert(prev.0.filter(group_on(s)) + Seq::<Seq<Span>>::empty() =~= prev.0.filter(group_on(s)));
                assert(prev.1.filter(diag_on(s)) + Seq::<LinkDiagnostic>::empty() =~= prev.1.filter(diag_on(s)));
            }
        }
    }
}

/// A link name that occurs exactly twice in a terminal scope yields one
/// group, of its two spans, and no diagnostic; that group is among the
/// scope's groups. Where the occurrences stand at distinct places, it is the
/// one group of the scope that starts at them, and no diagnostic of the
/// scope stands at them.
pub proof fn lemma_pair_forms_group(occ: Seq<(Seq<char>, Span)>, n: Seq<char>)
    requires
        spans_of_name(occ, n).len() == 2,
    ensures
        distinct_places(occ) ==> resolution(occ, true).0.filter(group_on(spans_of_name(occ, n)))
            == seq![spans_of_name(occ, n)],
        distinct_places(occ) ==> resolution(occ, true).1.filter(diag_on(spans_of_name(occ, n)))
            == Seq::<LinkDiagnostic>::empty(),
        verdict(spans_of_name(occ, n), true) == (
            seq![spans_of_name(occ, n)],
            Seq::<LinkDiagnostic>::empty(),
        ),
        resolution(occ, true).0.contains(spans_of_name(occ, n)),
{
    lemma_verdict_in_resolution(occ, n, true);
    assert(verdict(spans_of_name(occ, n), true).0[0] == spans_of_name(occ, n));
    if distinct_places(occ) {
        lemma_resolve_on_name(occ, n, occ.len() as int, true);
    }
}

/// A link name that occurs once in a terminal scope yields one free-link
/// diagnostic at that occurrence and no group; the diagnostic is among the
/// scope's diagnostics. Where the occurrences stand at distinct places, it
/// is the one diagnostic of the scope at that place, and no group starts
/// there.
pub proof fn lemma_single_is_free(occ: Seq<(Seq<char>, Span)>, n: Seq<char>)
    requires
        spans_of_name(occ, n).len() == 1,
    ensures
        distinct_places(occ) ==> resolution(occ, true).1.filter(diag_on(spans_of_name(occ, n)))
            == seq![
            LinkDiagnostic {
                kind: LinkDiagnosticKind::FreeLink,
                span: spans_of_name(occ, n)[0],
            },
        ],
        distinct_places(occ) ==> resolution(occ, true).0.filter(group_on(spans_of_name(occ, n)))
            == Seq::<Seq<Span>>::empty(),
        verdict(spans_of_name(occ, n), true) == (
            Seq::<Seq<Span>>::empty(),
            seq![
                LinkDiagnostic {
                    kind: LinkDiagnosticKind::FreeLink,
                    span: spans_of_name(occ, n)[0],
                },
            ],
        ),
        resolution(occ, true).1.contains(
            LinkDiagnostic { kind: LinkDiagnosticKind::FreeLink, span: spans_of_name(occ, n)[0] },
        ),
{
    lemma_verdict_in_resolution(occ, n, true);
    assert(verdict(spans_of_name(occ, n), true).1[0] == LinkDiagnostic {
        kind: LinkDiagnosticKind::FreeLink,
        span: spans_of_name(occ, n)[0],
    });
    if distinct_places(occ) {
        lemma_resolve_on_name(occ, n, occ.len() as int, true);
    }
}

/// A link name that occurs `N >= 3` times in a scope, terminal or inner,
/// yields no group and `N - 2` diagnostics, one at each occurrence from the
/// third on, each citing the first two; they are among the scope's
/// diagnostics. Where the occurrences stand at distinct places, they are
/// all the diagnostics of the scope at those places, and no group starts
/// there.
pub proof fn lemma_repeats_are_reported(
    occ: Seq<(Seq<char>, Span)>,
    n: Seq<char>,
    terminal: bool,
)
    requires
        spans_of_name(occ, n).len() >= 3,
    ensures
        ({
            let s = spans_of_name(occ, n);
            let v = verdict(s, terminal);
            &&& v.0.len() == 0
            &&& v.1.len() == s.len() - 2
            &&& forall|k: int|
                0 <= k < v.1.len() ==> #[trigger] v.1[k] == LinkDiagnostic {
                    kind: LinkDiagnosticKind::MultiOccurrence { first: s[0], second: s[1] },
                    span: s[k + 2],
                } && resolution(occ, terminal).1.contains(v.1[k])
            &&& distinct_places(occ) ==> resolution(occ, terminal).1.filter(diag_on(s)) == v.1
            &&& distinct_places(occ) ==> resolution(occ, terminal).0.filter(group_on(s))
                == Seq::<Seq<Span>>::empty()
        }),
{
    lemma_verdict_in_resolution(occ, n, terminal);
    if distinct_places(occ) {
        lemma_resolve_on_name(occ, n, occ.len() as int, terminal);
    }
}

} // verus!
