use vstd::prelude::*;

pub mod linearity;
pub mod rule;
pub mod semantic_token;

use crate::diagnostic::{LinkDiagnostic, LinkDiagnosticKind};
use crate::reference::groups_view;
use crate::span::{span_len, Span};
use crate::syntax::{AtomKind, Link, Membrane, Process, ProcessList, Rule};
use self::linearity::{
    lemma_pair_forms_group, occs_view, resolution, settle, spans_of_name, unsettled, unsettled_of,
    Occurrence,
};
use self::rule::analyze_rule;

use self::semantic_token::{
    token_of, Token, ATOM_LEGEND_TYPE, CONTEXT_LEGEND_TYPE, HYPERLINK_LEGEND_TYPE,
    KEYWORD_ATOM_LEGEND_TYPE, LINK_LEGEND_TYPE, MEMBRANE_LEGEND_TYPE, NUMBER_ATOM_LEGEND_TYPE,
    OPERATOR_ATOM_LEGEND_TYPE, RULE_LEGEND_TYPE,
};

verus! {

/// Whether an outline entry stands for a membrane or a rule.
#[derive(Debug, Clone, Copy, PartialEq, Eq, Structural)]
pub enum OutlineKind {
    Membrane,
    Rule,
}

/// An entry of the document outline. Only membranes have children.
pub struct OutlineSymbol {
    pub name: String,
    pub kind: OutlineKind,
    pub range: Span,
    pub selection_range: Span,
    pub children: Vec<OutlineSymbol>,
}

/// An outline entry as a value.
pub struct OutlineView {
    pub name: Seq<char>,
    pub kind: OutlineKind,
    pub range: Span,
    pub selection_range: Span,
    pub children: Seq<OutlineView>,
}

pub open spec fn outline_view(o: OutlineSymbol) -> OutlineView
    decreases o,
{
    OutlineView {
        name: o.name@,
        kind: o.kind,
        range: o.range,
        selection_range: o.selection_range,
        children: Seq::new(
            o.children@.len(),
            |i: int|
                if 0 <= i < o.children@.len() {
                    outline_view(o.children@[i])
                } else {
                    OutlineView {
                        name: Seq::empty(),
                        kind: OutlineKind::Rule,
                        range: o.range,
                        selection_range: o.range,
                        children: Seq::empty(),
                    }
                },
        ),
    }
}

pub open spec fn outlines_view(v: Seq<OutlineSymbol>) -> Seq<OutlineView> {
    v.map_values(|o: OutlineSymbol| outline_view(o))
}

/// What the analysis of a part of the tree yields: tokens, symbol spans,
/// diagnostics and groups of linked spans already settled, the link and
/// hyperlink occurrences still open, and outline entries.
pub struct ScopeView {
    pub tokens: Seq<Token>,
    pub symbols: Seq<Span>,
    pub diagnostics: Seq<LinkDiagnostic>,
    pub refs: Seq<Seq<Span>>,
    pub links: Seq<(Seq<char>, Span)>,
    pub hyperlinks: Seq<(Seq<char>, Span)>,
    pub outline: Seq<OutlineView>,
}

pub open spec fn empty_scope() -> ScopeView {
    ScopeView {
        tokens: Seq::empty(),
        symbols: Seq::empty(),
        diagnostics: Seq::empty(),
        refs: Seq::empty(),
        links: Seq::empty(),
        hyperlinks: Seq::empty(),
        outline: Seq::empty(),
    }
}

/// Two results side by side: each part of `a` followed by that of `b`.
pub open spec fn merge(a: ScopeView, b: ScopeView) -> ScopeView {
    ScopeView {
        tokens: a.tokens + b.tokens,
        symbols: a.symbols + b.symbols,
        diagnostics: a.diagnostics + b.diagnostics,
        refs: a.refs + b.refs,
        links: a.links + b.links,
        hyperlinks: a.hyperlinks + b.hyperlinks,
        outline: a.outline + b.outline,
    }
}

/// A token of category `ty` over `span`, which is also a symbol.
pub open spec fn marked(span: Span, ty: u32) -> ScopeView {
    ScopeView { tokens: seq![token_of(span, ty)], symbols: seq![span], ..empty_scope() }
}

/// The result `s` at an inner boundary: names that occur twice or more
/// settle, the others stay open; hyperlinks are left alone.
pub open spec fn settle_inner(s: ScopeView) -> ScopeView {
    let v = resolution(s.links, false);
    ScopeView {
        refs: s.refs + v.0,
        diagnostics: s.diagnostics + v.1,
        links: unsettled(s.links, s.links.len() as int),
        ..s
    }
}

/// The result `s` at a terminal boundary: every link name, then every
/// hyperlink name, settles and nothing stays open.
pub open spec fn settle_terminal(s: ScopeView) -> ScopeView {
    let v = resolution(s.links, true);
    let h = resolution(s.hyperlinks, true);
    ScopeView {
        refs: s.refs + v.0 + h.0,
        diagnostics: s.diagnostics + v.1 + h.1,
        links: Seq::empty(),
        hyperlinks: Seq::empty(),
        ..s
    }
}

/// The token category of an atom.
pub open spec fn atom_token_type(k: AtomKind) -> u32 {
    match k {
        AtomKind::Keyword => KEYWORD_ATOM_LEGEND_TYPE,
        AtomKind::Operator => OPERATOR_ATOM_LEGEND_TYPE,
        AtomKind::Int | AtomKind::Float => NUMBER_ATOM_LEGEND_TYPE,
        AtomKind::Plain => ATOM_LEGEND_TYPE,
    }
}

/// The analysis of a process; `top` when it stands directly in the
/// program's outermost process list.
pub open spec fn walk_process(p: Process, top: bool) -> ScopeView
    decreases p,
{
    match p {
        Process::Membrane(m) => walk_membrane(m),
        Process::Atom(a) => merge(
            walk_seq(a.args@, a.args@.len() as int, false),
            marked(a.name_span, atom_token_type(a.kind)),
        ),
        Process::Link(l) => {
            let base = marked(
                l.span,
                if l.hyperlink {
                    HYPERLINK_LEGEND_TYPE
                } else {
                    LINK_LEGEND_TYPE
                },
            );
            if top {
                ScopeView {
                    diagnostics: seq![
                        LinkDiagnostic { kind: LinkDiagnosticKind::LinkAtTopLevel, span: l.span },
                    ],
                    ..base
                }
            } else if l.hyperlink {
                ScopeView { hyperlinks: seq![(l.name@, l.span)], ..base }
            } else {
                ScopeView { links: seq![(l.name@, l.span)], ..base }
            }
        },
        Process::Context(span) => marked(span, CONTEXT_LEGEND_TYPE),
    }
}

/// The first `n` processes of `s`, analysed in order and merged.
pub open spec fn walk_seq(s: Seq<Process>, n: int, top: bool) -> ScopeView
    decreases s, n,
{
    if n <= 0 || n > s.len() {
        empty_scope()
    } else {
        merge(walk_seq(s, n - 1, top), walk_process(s[n - 1], top))
    }
}

pub open spec fn walk_list(pl: ProcessList, top: bool) -> ScopeView
    decreases pl,
{
    walk_seq(pl.processes@, pl.processes@.len() as int, top)
}

/// The first `n` process lists of `s`, analysed in order and merged.
pub open spec fn walk_lists(s: Seq<ProcessList>, n: int, top: bool) -> ScopeView
    decreases s, n,
{
    if n <= 0 || n > s.len() {
        empty_scope()
    } else {
        merge(walk_lists(s, n - 1, top), walk_list(s[n - 1], top))
    }
}

/// A process list that may be missing.
pub open spec fn walk_opt(o: Option<ProcessList>) -> ScopeView
    decreases o,
{
    match o {
        Some(pl) => walk_list(pl, false),
        None => empty_scope(),
    }
}

/// The first `n` rules of `s`, analysed in order and merged.
pub open spec fn walk_rules(s: Seq<Rule>, n: int) -> ScopeView
    decreases s, n,
{
    if n <= 0 || n > s.len() {
        empty_scope()
    } else {
        merge(walk_rules(s, n - 1), walk_rule(s[n - 1]))
    }
}

/// Whether a rule has a name.
pub open spec fn is_named(r: Rule) -> bool {
    span_len(r.name_span) > 0
}

/// The outline entry of a rule: from its name, or the whole rule if it has
/// none, to its end.
pub open spec fn rule_outline(r: Rule) -> OutlineView {
    OutlineView {
        name: r.name@,
        kind: OutlineKind::Rule,
        range: if is_named(r) {
            Span { low: r.name_span.low, high: r.span.high }
        } else {
            r.span
        },
        selection_range: if is_named(r) {
            r.name_span
        } else {
            r.span
        },
        children: Seq::empty(),
    }
}

/// The analysis of a rule. Head and propagation settle as an inner scope,
/// then the body joins them and the whole settles as a terminal scope. The
/// guard takes no part. Only the rule's own outline entry comes out.
pub open spec fn walk_rule(r: Rule) -> ScopeView
    decreases r,
{
    let start = if is_named(r) {
        ScopeView { tokens: seq![token_of(r.name_span, RULE_LEGEND_TYPE)], ..empty_scope() }
    } else {
        empty_scope()
    };
    let hp = settle_inner(merge(walk_list(r.head, false), walk_opt(r.propagation)));
    let all = settle_terminal(merge(hp, walk_opt(r.body)));
    ScopeView { outline: seq![rule_outline(r)], ..merge(start, all) }
}

/// The label of a membrane in the outline.
pub open spec fn membrane_label(name: Seq<char>) -> Seq<char> {
    if name.len() == 0 {
        "Anonymous membrane"@
    } else {
        name
    }
}

/// The analysis of a nested membrane. Its process lists settle as an inner
/// scope before its rules join; everything found inside becomes the children
/// of its one outline entry.
pub open spec fn walk_membrane(m: Membrane) -> ScopeView
    decreases m,
{
    let lists = settle_inner(walk_lists(m.process_lists@, m.process_lists@.len() as int, false));
    let all = merge(
        merge(lists, walk_rules(m.rules@, m.rules@.len() as int)),
        marked(m.name_span, MEMBRANE_LEGEND_TYPE),
    );
    ScopeView {
        outline: seq![
            OutlineView {
                name: membrane_label(m.name@),
                kind: OutlineKind::Membrane,
                range: m.span,
                selection_range: m.name_span,
                children: all.outline,
            },
        ],
        ..all
    }
}

/// The analysis of a whole program, its outermost membrane: process lists
/// at top level, then rules, settled as a terminal scope.
pub open spec fn walk_program(root: Membrane) -> ScopeView {
    settle_terminal(
        merge(
            walk_lists(root.process_lists@, root.process_lists@.len() as int, true),
            walk_rules(root.rules@, root.rules@.len() as int),
        ),
    )
}

/// What the analysis of a program yields: tokens for highlighting, the
/// outline, diagnostics on links, the groups of spans that refer to each
/// other, and the spans that stand for symbols.
pub struct ProgramInfo {
    pub semantic_tokens: Vec<Token>,
    pub doc_symbol: Vec<OutlineSymbol>,
    pub diagnostics: Vec<LinkDiagnostic>,
    pub refs: Vec<Vec<Span>>,
    pub symbols: Vec<Span>,
}

/// Analyses one program, given as its outermost membrane.
pub struct Analyzer<'ast> {
    ast: &'ast Membrane,
}

impl<'ast> Analyzer<'ast> {
    /// The program this analyzer works on.
    pub closed spec fn program(&self) -> Membrane {
        *self.ast
    }

    pub fn new(ast: &'ast Membrane) -> (r: Self)
        ensures
            r.program() == *ast,
    {
        Analyzer { ast }
    }

    /// Analyses the program: see `walk_program`.
    pub fn analyze(self) -> (info: ProgramInfo)
        ensures
            info.semantic_tokens@ == walk_program(self.program()).tokens,
            outlines_view(info.doc_symbol@) == walk_program(self.program()).outline,
            info.diagnostics@ == walk_program(self.program()).diagnostics,
            groups_view(info.refs@) == walk_program(self.program()).refs,
            info.symbols@ == walk_program(self.program()).symbols,
    {
        let mut result = analyze_process_lists(&self.ast.process_lists, true);
        result.extend(analyze_rules(&self.ast.rules));
        result.filter_links_top();
        ProgramInfo {
            semantic_tokens: result.tokens,
            doc_symbol: result.outline,
            diagnostics: result.diagnostics,
            refs: result.refs,
            symbols: result.symbols,
        }
    }
}

/// The result of analysing a part of the tree, to be merged into the
/// enclosing scope.
pub struct AnalysisResult {
    tokens: Vec<Token>,
    symbols: Vec<Span>,
    diagnostics: Vec<LinkDiagnostic>,
    refs: Vec<Vec<Span>>,
    link_occurrences: Vec<Occurrence>,
    hyperlink_occurrences: Vec<Occurrence>,
    outline: Vec<OutlineSymbol>,
}

impl AnalysisResult {
    pub closed spec fn view(&self) -> ScopeView {
        ScopeView {
            tokens: self.tokens@,
            symbols: self.symbols@,
            diagnostics: self.diagnostics@,
            refs: groups_view(self.refs@),
            links: occs_view(self.link_occurrences@),
            hyperlinks: occs_view(self.hyperlink_occurrences@),
            outline: outlines_view(self.outline@),
        }
    }

    pub fn new() -> (r: AnalysisResult)
        ensures
            r@ == empty_scope(),
    {
        let r = AnalysisResult {
            tokens: Vec::new(),
            symbols: Vec::new(),
            diagnostics: Vec::new(),
            refs: Vec::new(),
            link_occurrences: Vec::new(),
            hyperlink_occurrences: Vec::new(),
            outline: Vec::new(),
        };
        assert(r@.refs =~= Seq::<Seq<Span>>::empty());
        assert(r@.links =~= Seq::<(Seq<char>, Span)>::empty());
        assert(r@.hyperlinks =~= Seq::<(Seq<char>, Span)>::empty());
        assert(r@.outline =~= Seq::<OutlineView>::empty());
        r
    }

    /// Appends `other` to this result.
    pub fn extend(&mut self, other: AnalysisResult)
        ensures
            final(self)@ == merge(old(self)@, other@),
    {
        let mut other = other;
        let ghost (r0, r1) = (self.refs@, other.refs@);
        let ghost (l0, l1) = (self.link_occurrences@, other.link_occurrences@);
        let ghost (h0, h1) = (self.hyperlink_occurrences@, other.hyperlink_occurrences@);
        let ghost (o0, o1) = (self.outline@, other.outline@);
        self.tokens.append(&mut other.tokens);
        self.symbols.append(&mut other.symbols);
        self.diagnostics.append(&mut other.diagnostics);
        self.refs.append(&mut other.refs);
        self.link_occurrences.append(&mut other.link_occurrences);
        self.hyperlink_occurrences.append(&mut other.hyperlink_occurrences);
        self.outline.append(&mut other.outline);
        assert(groups_view(r0 + r1) =~= groups_view(r0) + groups_view(r1));
        assert(occs_view(l0 + l1) =~= occs_view(l0) + occs_view(l1));
        assert(occs_view(h0 + h1) =~= occs_view(h0) + occs_view(h1));
        assert(outlines_view(o0 + o1) =~= outlines_view(o0) + outlines_view(o1));
    }

    /// Adds a token of category `token_type` over `span`, and the span as a
    /// symbol.
    pub fn add_symbol(&mut self, span: Span, token_type: u32)
        ensures
            final(self)@ == merge(old(self)@, marked(span, token_type)),
    {
        let ghost a = self@;
        self.tokens.push(Token::covering(span, token_type));
        self.symbols.push(span);
        assert(self@.tokens =~= a.tokens + seq![token_of(span, token_type)]);
        assert(self@.symbols =~= a.symbols + seq![span]);
        assert(self@.diagnostics =~= a.diagnostics + Seq::<LinkDiagnostic>::empty());
        assert(self@.refs =~= a.refs + Seq::<Seq<Span>>::empty());
        assert(self@.links =~= a.links + Seq::<(Seq<char>, Span)>::empty());
        assert(self@.hyperlinks =~= a.hyperlinks + Seq::<(Seq<char>, Span)>::empty());
        assert(self@.outline =~= a.outline + Seq::<OutlineView>::empty());
    }

    /// Settles the open links at an inner boundary.
    pub fn filter_links_inner(&mut self)
        ensures
            final(self)@ == settle_inner(old(self)@),
    {
        settle(&self.link_occurrences, false, &mut self.refs, &mut self.diagnostics);
        self.link_occurrences = unsettled_of(&self.link_occurrences);
    }

    /// Settles the open links and hyperlinks at a terminal boundary.
    pub fn filter_links_top(&mut self)
        ensures
            final(self)@ == settle_terminal(old(self)@),
    {
        settle(&self.link_occurrences, true, &mut self.refs, &mut self.diagnostics);
        settle(&self.hyperlink_occurrences, true, &mut self.refs, &mut self.diagnostics);
        self.link_occurrences = Vec::new();
        self.hyperlink_occurrences = Vec::new();
        assert(self@.links =~= Seq::<(Seq<char>, Span)>::empty());
        assert(self@.hyperlinks =~= Seq::<(Seq<char>, Span)>::empty());
    }
    /// The result of one token of category `token_type` over `span`, which
    /// is also a symbol.
    pub fn marked(span: Span, token_type: u32) -> (r: AnalysisResult)
        ensures
            r@ == marked(span, token_type),
    {
        let mut r = AnalysisResult::new();
        r.add_symbol(span, token_type);
        proof {
            lemma_merge_empty_left(marked(span, token_type));
        }
        r
    }
}

pub proof fn lemma_merge_empty_left(s: ScopeView)
    ensures
        merge(empty_scope(), s) == s,
{
    assert(merge(empty_scope(), s).tokens =~= s.tokens);
    assert(merge(empty_scope(), s).symbols =~= s.symbols);
    assert(merge(empty_scope(), s).diagnostics =~= s.diagnostics);
    assert(merge(empty_scope(), s).refs =~= s.refs);
    assert(merge(empty_scope(), s).links =~= s.links);
    assert(merge(empty_scope(), s).hyperlinks =~= s.hyperlinks);
    assert(merge(empty_scope(), s).outline =~= s.outline);
}

pub proof fn lemma_merge_empty_right(s: ScopeView)
    ensures
        merge(s, empty_scope()) == s,
{
    assert(merge(s, empty_scope()).tokens =~= s.tokens);
    assert(merge(s, empty_scope()).symbols =~= s.symbols);
    assert(merge(s, empty_scope()).diagnostics =~= s.diagnostics);
    assert(merge(s, empty_scope()).refs =~= s.refs);
    assert(merge(s, empty_scope()).links =~= s.links);
    assert(merge(s, empty_scope()).hyperlinks =~= s.hyperlinks);
    assert(merge(s, empty_scope()).outline =~= s.outline);
}

fn atom_token_type_of(kind: AtomKind) -> (r: u32)
    ensures
        r == atom_token_type(kind),
{
    match kind {
        AtomKind::Keyword => KEYWORD_ATOM_LEGEND_TYPE,
        AtomKind::Operator => OPERATOR_ATOM_LEGEND_TYPE,
        AtomKind::Int | AtomKind::Float => NUMBER_ATOM_LEGEND_TYPE,
        AtomKind::Plain => ATOM_LEGEND_TYPE,
    }
}

fn analyze_link(link: &Link, top_level: bool) -> (r: AnalysisResult)
    ensures
        r@ == walk_process(Process::Link(*link), top_level),
{
    let mut result = AnalysisResult::marked(
        link.span,
        if link.hyperlink {
            HYPERLINK_LEGEND_TYPE
        } else {
            LINK_LEGEND_TYPE
        },
    );
    if top_level {
        result.diagnostics.push(
            LinkDiagnostic { kind: LinkDiagnosticKind::LinkAtTopLevel, span: link.span },
        );
        assert(result@.diagnostics =~= seq![
            LinkDiagnostic { kind: LinkDiagnosticKind::LinkAtTopLevel, span: link.span },
        ]);
    } else if link.hyperlink {
        result.hyperlink_occurrences.push(Occurrence { name: link.name.clone(), span: link.span });
        assert(result@.hyperlinks =~= seq![(link.name@, link.span)]);
    } else {
        result.link_occurrences.push(Occurrence { name: link.name.clone(), span: link.span });
        assert(result@.links =~= seq![(link.name@, link.span)]);
    }
    result
}

/// Analyses a process; `top_level` when it stands directly in the program's
/// outermost process list.
fn analyze_process(process: &Process, top_level: bool) -> (r: AnalysisResult)
    ensures
        r@ == walk_process(*process, top_level),
    decreases process,
{
    match process {
        Process::Membrane(m) => {
            proof {
                assert(decreases_to!(*process => (*process)->Membrane_0));
            }
            analyze_membrane(m)
        },
        Process::Atom(a) => {
            proof {
                assert(decreases_to!(*process => (*process)->Atom_0));
                assert(decreases_to!((*process)->Atom_0 => a.args));
            }
            let mut result = analyze_processes(&a.args, false);
            result.add_symbol(a.name_span, atom_token_type_of(a.kind));
            result
        },
        Process::Link(l) => analyze_link(l, top_level),
        Process::Context(span) => AnalysisResult::marked(*span, CONTEXT_LEGEND_TYPE),
    }
}

/// Analyses processes in order and merges the results.
fn analyze_processes(processes: &Vec<Process>, top_level: bool) -> (r: AnalysisResult)
    ensures
        r@ == walk_seq(processes@, processes@.len() as int, top_level),
    decreases processes,
{
    let mut result = AnalysisResult::new();
    let mut i: usize = 0;
    while i < processes.len()
        invariant
            i <= processes@.len(),
            result@ == walk_seq(processes@, i as int, top_level),
        decreases processes@.len() - i,
    {
        proof {
            assert(decreases_to!(*processes => processes@));
            assert(decreases_to!(processes@ => processes@[i as int]));
        }
        result.extend(analyze_process(&processes[i], top_level));
        i = i + 1;
    }
    result
}

fn analyze_process_list(list: &ProcessList, top_level: bool) -> (r: AnalysisResult)
    ensures
        r@ == walk_list(*list, top_level),
    decreases list,
{
    proof {
        assert(decreases_to!(*list => list.processes));
    }
    analyze_processes(&list.processes, top_level)
}

/// Analyses process lists in order and merges the results.
fn analyze_process_lists(lists: &Vec<ProcessList>, top_level: bool) -> (r: AnalysisResult)
    ensures
        r@ == walk_lists(lists@, lists@.len() as int, top_level),
    decreases lists,
{
    let mut result = AnalysisResult::new();
    let mut i: usize = 0;
    while i < lists.len()
        invariant
            i <= lists@.len(),
            result@ == walk_lists(lists@, i as int, top_level),
        decreases lists@.len() - i,
    {
        proof {
            assert(decreases_to!(*lists => lists@));
            assert(decreases_to!(lists@ => lists@[i as int]));
        }
        result.extend(analyze_process_list(&lists[i], top_level));
        i = i + 1;
    }
    result
}

/// Analyses rules in order and merges the results.
fn analyze_rules(rules: &Vec<Rule>) -> (r: AnalysisResult)
    ensures
        r@ == walk_rules(rules@, rules@.len() as int),
    decreases rules,
{
    let mut result = AnalysisResult::new();
    let mut i: usize = 0;
    while i < rules.len()
        invariant
            i <= rules@.len(),
            result@ == walk_rules(rules@, i as int),
        decreases rules@.len() - i,
    {
        proof {
            assert(decreases_to!(*rules => rules@));
            assert(decreases_to!(rules@ => rules@[i as int]));
        }
        result.extend(analyze_rule(&rules[i]));
        i = i + 1;
    }
    result
}

/// Analyses a nested membrane.
fn analyze_membrane(membrane: &Membrane) -> (r: AnalysisResult)
    ensures
        r@ == walk_membrane(*membrane),
    decreases membrane,
{
    proof {
        assert(decreases_to!(*membrane => membrane.process_lists));
        assert(decreases_to!(*membrane => membrane.rules));
    }
    let mut result = analyze_process_lists(&membrane.process_lists, false);
    result.filter_links_inner();
    result.extend(analyze_rules(&membrane.rules));
    result.add_symbol(membrane.name_span, MEMBRANE_LEGEND_TYPE);
    let ghost all = result@;
    let mut children: Vec<OutlineSymbol> = Vec::new();
    std::mem::swap(&mut result.outline, &mut children);
    let name = if membrane.name.as_str().is_empty() {
        "Anonymous membrane".to_owned()
    } else {
        membrane.name.clone()
    };
    let entry = OutlineSymbol {
        name,
        kind: OutlineKind::Membrane,
        range: membrane.span,
        selection_range: membrane.name_span,
        children,
    };
    assert(outline_view(entry).children =~= all.outline);
    result.outline.push(entry);
    assert(result@.outline =~= seq![outline_view(entry)]);
    result
}

/// A link standing directly in the program's outermost process list raises
/// exactly one diagnostic, that it is at top level, and is not counted as an
/// occurrence.
pub proof fn lemma_top_level_link(l: Link)
    ensures
        walk_process(Process::Link(l), true).diagnostics == seq![
            LinkDiagnostic { kind: LinkDiagnosticKind::LinkAtTopLevel, span: l.span },
        ],
        walk_process(Process::Link(l), true).links.len() == 0,
        walk_process(Process::Link(l), true).hyperlinks.len() == 0,
{
}

/// Rules leave no link or hyperlink open: they settle their own.
pub proof fn lemma_rules_close_links(s: Seq<Rule>, n: int)
    ensures
        walk_rules(s, n).links.len() == 0,
        walk_rules(s, n).hyperlinks.len() == 0,
    decreases n,
{
    if 0 < n <= s.len() {
        lemma_rules_close_links(s, n - 1);
        let r = s[n - 1];
        let hp = settle_inner(merge(walk_list(r.head, false), walk_opt(r.propagation)));
        let all = settle_terminal(merge(hp, walk_opt(r.body)));
        assert(all.links.len() == 0 && all.hyperlinks.len() == 0);
        assert(walk_rule(r).links.len() == 0);
        assert(walk_rule(r).hyperlinks.len() == 0);
    }
}

/// A membrane boundary leaves hyperlinks alone: those found in the
/// membrane's process lists pass on unchanged, and the only diagnostics the
/// boundary raises are those of its plain links.
pub proof fn lemma_membrane_passes_hyperlinks(m: Membrane)
    ensures
        ({
            let lists = walk_lists(m.process_lists@, m.process_lists@.len() as int, false);
            let rules = walk_rules(m.rules@, m.rules@.len() as int);
            &&& walk_membrane(m).hyperlinks == lists.hyperlinks
            &&& walk_membrane(m).diagnostics == lists.diagnostics + resolution(
                lists.links,
                false,
            ).1 + rules.diagnostics
        }),
{
    let lists = walk_lists(m.process_lists@, m.process_lists@.len() as int, false);
    lemma_rules_close_links(m.rules@, m.rules@.len() as int);
    let rules = walk_rules(m.rules@, m.rules@.len() as int);
    assert(walk_membrane(m).hyperlinks =~= lists.hyperlinks);
}

/// The hyperlink occurrences a rule gathers from its head, propagation and
/// body, nested membranes included.
pub open spec fn rule_hyperlinks(r: Rule) -> Seq<(Seq<char>, Span)> {
    walk_list(r.head, false).hyperlinks + walk_opt(r.propagation).hyperlinks + walk_opt(
        r.body,
    ).hyperlinks
}

/// A hyperlink name that a rule gathers exactly twice, wherever inside the
/// rule the two occurrences stand, settles into one group at the rule's own
/// boundary.
pub proof fn lemma_rule_settles_hyperlinks(r: Rule, h: Seq<char>)
    requires
        spans_of_name(rule_hyperlinks(r), h).len() == 2,
    ensures
        walk_rule(r).refs.contains(spans_of_name(rule_hyperlinks(r), h)),
{
    let hp = settle_inner(merge(walk_list(r.head, false), walk_opt(r.propagation)));
    let x = merge(hp, walk_opt(r.body));
    assert(x.hyperlinks == rule_hyperlinks(r));
    lemma_pair_forms_group(x.hyperlinks, h);
    let g = spans_of_name(x.hyperlinks, h);
    let h0 = resolution(x.hyperlinks, true).0;
    let k = choose|k: int| 0 <= k < h0.len() && h0[k] == g;
    let all = settle_terminal(x);
    let start = if is_named(r) {
        ScopeView { tokens: seq![token_of(r.name_span, RULE_LEGEND_TYPE)], ..empty_scope() }
    } else {
        empty_scope()
    };
    let pre = x.refs + resolution(x.links, true).0;
    assert(all.refs[pre.len() + k] == g);
    assert(walk_rule(r).refs == start.refs + all.refs);
    assert(walk_rule(r).refs[start.refs.len() + pre.len() + k] == g);
}

} // verus!
