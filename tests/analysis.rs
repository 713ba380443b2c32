use lmntal_language_server::analysis::semantic_token::{
    ATOM_LEGEND_TYPE, CONTEXT_LEGEND_TYPE, HYPERLINK_LEGEND_TYPE, KEYWORD_ATOM_LEGEND_TYPE,
    LINK_LEGEND_TYPE, MEMBRANE_LEGEND_TYPE, NUMBER_ATOM_LEGEND_TYPE, OPERATOR_ATOM_LEGEND_TYPE,
    RULE_LEGEND_TYPE,
};
use lmntal_language_server::analysis::{Analyzer, OutlineKind, ProgramInfo};
use lmntal_language_server::diagnostic::{LinkDiagnostic, LinkDiagnosticKind};
use lmntal_language_server::reference::RefereceMap;
use lmntal_language_server::span::{Pos, Span};
use lmntal_language_server::symbol::Symbol;
use lmntal_language_server::syntax::{
    Atom, AtomKind, Link, Membrane, Process, ProcessList, Rule,
};

fn sp(line: u32, col: u32, len: u32) -> Span {
    Span::new(
        Pos { offset: line * 100 + col, line, column: col },
        Pos { offset: line * 100 + col + len, line, column: col + len },
    )
}

fn empty_span() -> Span {
    sp(0, 0, 0)
}

fn link(name: &str, line: u32, col: u32) -> Process {
    Process::Link(Link { name: name.to_string(), hyperlink: false, span: sp(line, col, 1) })
}

fn hyperlink(name: &str, line: u32, col: u32) -> Process {
    Process::Link(Link { name: name.to_string(), hyperlink: true, span: sp(line, col, 2) })
}

fn atom(name: &str, kind: AtomKind, line: u32, col: u32, args: Vec<Process>) -> Process {
    Process::Atom(Atom {
        name: name.to_string(),
        kind,
        name_span: sp(line, col, name.len() as u32),
        args,
        span: sp(line, col, name.len() as u32),
    })
}

fn list(processes: Vec<Process>) -> ProcessList {
    ProcessList { processes, span: empty_span() }
}

fn membrane(name: &str, name_span: Span, lists: Vec<ProcessList>, rules: Vec<Rule>, span: Span) -> Membrane {
    Membrane { name: name.to_string(), name_span, process_lists: lists, rules, span }
}

fn program(lists: Vec<ProcessList>, rules: Vec<Rule>) -> Membrane {
    membrane("", empty_span(), lists, rules, sp(0, 0, 90))
}

fn anonymous_rule(head: Vec<Process>, body: Vec<Process>) -> Rule {
    Rule {
        name: String::new(),
        name_span: empty_span(),
        head: list(head),
        propagation: None,
        guard: None,
        body: Some(list(body)),
        span: sp(0, 1, 80),
    }
}

fn analyze(p: &Membrane) -> ProgramInfo {
    Analyzer::new(p).analyze()
}

fn free(span: Span) -> LinkDiagnostic {
    LinkDiagnostic { kind: LinkDiagnosticKind::FreeLink, span }
}

#[test]
fn rule_body_pair_forms_one_group() {
    let p = program(vec![], vec![anonymous_rule(vec![], vec![link("A", 0, 10), link("A", 0, 13)])]);
    let info = analyze(&p);
    assert!(info.diagnostics.is_empty());
    assert_eq!(info.refs, vec![vec![sp(0, 10, 1), sp(0, 13, 1)]]);
}

#[test]
fn rule_body_triple_reports_third() {
    let p = program(
        vec![],
        vec![anonymous_rule(vec![], vec![link("A", 0, 10), link("A", 0, 13), link("A", 0, 16)])],
    );
    let info = analyze(&p);
    assert!(info.refs.is_empty());
    assert_eq!(info.diagnostics.len(), 1);
    let d = info.diagnostics[0];
    assert_eq!(d.span, sp(0, 16, 1));
    assert_eq!(
        d.kind,
        LinkDiagnosticKind::MultiOccurrence { first: sp(0, 10, 1), second: sp(0, 13, 1) }
    );
    assert_eq!(d.related(), vec![(sp(0, 10, 1), "First occurrence"), (sp(0, 13, 1), "Second occurrence")]);
}

#[test]
fn lone_link_in_membrane_is_free_at_program_boundary() {
    let inner = membrane("", empty_span(), vec![list(vec![link("A", 0, 2)])], vec![], sp(0, 0, 5));
    let p = program(vec![list(vec![Process::Membrane(inner)])], vec![]);
    let info = analyze(&p);
    assert_eq!(info.diagnostics, vec![free(sp(0, 2, 1))]);
    assert!(info.refs.is_empty());
}

#[test]
fn link_at_top_level_is_reported_and_not_counted() {
    let p = program(vec![list(vec![link("A", 0, 0), atom("p", AtomKind::Plain, 0, 3, vec![link("A", 0, 5)])])], vec![]);
    let info = analyze(&p);
    assert_eq!(
        info.diagnostics,
        vec![
            LinkDiagnostic { kind: LinkDiagnosticKind::LinkAtTopLevel, span: sp(0, 0, 1) },
            free(sp(0, 5, 1)),
        ]
    );
    assert!(info.refs.is_empty());
    assert!(info.semantic_tokens.iter().any(|t| t.line == 0 && t.col == 0 && t.token_type == LINK_LEGEND_TYPE));
}

#[test]
fn pair_in_atom_arguments() {
    let p = program(
        vec![list(vec![
            atom("p", AtomKind::Plain, 0, 0, vec![link("X", 0, 2)]),
            atom("q", AtomKind::Plain, 0, 6, vec![link("X", 0, 8)]),
        ])],
        vec![],
    );
    let info = analyze(&p);
    assert!(info.diagnostics.is_empty());
    assert_eq!(info.refs, vec![vec![sp(0, 2, 1), sp(0, 8, 1)]]);
}

#[test]
fn single_link_is_free() {
    let p = program(vec![list(vec![atom("p", AtomKind::Plain, 0, 0, vec![link("X", 0, 2)])])], vec![]);
    let info = analyze(&p);
    assert_eq!(info.diagnostics, vec![free(sp(0, 2, 1))]);
    assert!(info.refs.is_empty());
}

#[test]
fn four_occurrences_give_two_diagnostics() {
    let occurrences = vec![link("X", 1, 0), link("X", 1, 2), link("X", 1, 4), link("X", 1, 6)];
    let p = program(vec![], vec![anonymous_rule(occurrences, vec![])]);
    let info = analyze(&p);
    let kind = LinkDiagnosticKind::MultiOccurrence { first: sp(1, 0, 1), second: sp(1, 2, 1) };
    assert_eq!(
        info.diagnostics,
        vec![LinkDiagnostic { kind, span: sp(1, 4, 1) }, LinkDiagnostic { kind, span: sp(1, 6, 1) }]
    );
    assert!(info.refs.is_empty());
}

#[test]
fn hyperlink_split_over_membranes_settles_at_rule() {
    let m1 = membrane("", empty_span(), vec![list(vec![hyperlink("h", 2, 1)])], vec![], sp(2, 0, 5));
    let m2 = membrane("", empty_span(), vec![list(vec![hyperlink("h", 2, 8)])], vec![], sp(2, 7, 5));
    let r = anonymous_rule(vec![], vec![Process::Membrane(m1), Process::Membrane(m2)]);
    let p = program(vec![], vec![r]);
    let info = analyze(&p);
    assert!(info.diagnostics.is_empty());
    assert_eq!(info.refs, vec![vec![sp(2, 1, 2), sp(2, 8, 2)]]);
}

#[test]
fn hyperlink_once_at_program_is_free() {
    let p = program(vec![list(vec![atom("p", AtomKind::Plain, 0, 0, vec![hyperlink("h", 0, 2)])])], vec![]);
    let info = analyze(&p);
    assert_eq!(info.diagnostics, vec![free(sp(0, 2, 2))]);
}

#[test]
fn link_pairs_across_head_and_body() {
    let r = anonymous_rule(
        vec![atom("p", AtomKind::Plain, 0, 0, vec![link("X", 0, 2)])],
        vec![atom("q", AtomKind::Plain, 0, 8, vec![link("X", 0, 10)])],
    );
    let info = analyze(&program(vec![], vec![r]));
    assert!(info.diagnostics.is_empty());
    assert_eq!(info.refs, vec![vec![sp(0, 2, 1), sp(0, 10, 1)]]);
}

#[test]
fn link_propagates_out_of_membrane() {
    let inner = membrane("", empty_span(), vec![list(vec![atom("p", AtomKind::Plain, 0, 1, vec![link("X", 0, 3)])])], vec![], sp(0, 0, 6));
    let p = program(vec![list(vec![Process::Membrane(inner), atom("q", AtomKind::Plain, 0, 8, vec![link("X", 0, 10)])])], vec![]);
    let info = analyze(&p);
    assert!(info.diagnostics.is_empty());
    assert_eq!(info.refs, vec![vec![sp(0, 3, 1), sp(0, 10, 1)]]);
}

#[test]
fn three_links_in_membrane_are_reported_at_its_boundary() {
    let inner = membrane(
        "",
        empty_span(),
        vec![list(vec![atom("p", AtomKind::Plain, 0, 1, vec![link("X", 0, 3), link("X", 0, 5), link("X", 0, 7)])])],
        vec![],
        sp(0, 0, 9),
    );
    let p = program(vec![list(vec![Process::Membrane(inner), atom("q", AtomKind::Plain, 0, 12, vec![link("X", 0, 14)])])], vec![]);
    let info = analyze(&p);
    let kind = LinkDiagnosticKind::MultiOccurrence { first: sp(0, 3, 1), second: sp(0, 5, 1) };
    assert_eq!(info.diagnostics, vec![LinkDiagnostic { kind, span: sp(0, 7, 1) }, free(sp(0, 14, 1))]);
}

#[test]
fn rule_scope_does_not_reach_enclosing_membrane() {
    let r = anonymous_rule(vec![atom("p", AtomKind::Plain, 1, 0, vec![link("X", 1, 2)])], vec![]);
    let p = program(vec![list(vec![atom("q", AtomKind::Plain, 0, 0, vec![link("X", 0, 2)])])], vec![r]);
    let info = analyze(&p);
    assert_eq!(info.diagnostics, vec![free(sp(1, 2, 1)), free(sp(0, 2, 1))]);
    assert!(info.refs.is_empty());
}

#[test]
fn guard_takes_no_part() {
    let mut r = anonymous_rule(vec![link("X", 0, 2)], vec![link("X", 0, 9)]);
    r.guard = Some(list(vec![link("X", 0, 5)]));
    let info = analyze(&program(vec![], vec![r]));
    assert!(info.diagnostics.is_empty());
    assert_eq!(info.refs, vec![vec![sp(0, 2, 1), sp(0, 9, 1)]]);
}

#[test]
fn propagation_joins_head() {
    let mut r = anonymous_rule(vec![link("X", 0, 2)], vec![]);
    r.propagation = Some(list(vec![link("X", 0, 5)]));
    let info = analyze(&program(vec![], vec![r]));
    assert!(info.diagnostics.is_empty());
    assert_eq!(info.refs, vec![vec![sp(0, 2, 1), sp(0, 5, 1)]]);
}

#[test]
fn token_categories() {
    let args = vec![
        atom("if", AtomKind::Keyword, 0, 2, vec![]),
        atom("+", AtomKind::Operator, 0, 5, vec![]),
        atom("1", AtomKind::Int, 0, 7, vec![]),
        atom("2.5", AtomKind::Float, 0, 9, vec![]),
        Process::Context(sp(0, 14, 2)),
    ];
    let inner = membrane("m", sp(1, 0, 1), vec![], vec![], sp(1, 0, 4));
    let p = program(vec![list(vec![atom("p", AtomKind::Plain, 0, 0, args), Process::Membrane(inner)])], vec![]);
    let info = analyze(&p);
    let ty = |line: u32, col: u32| {
        info.semantic_tokens.iter().find(|t| t.line == line && t.col == col).map(|t| t.token_type)
    };
    assert_eq!(ty(0, 0), Some(ATOM_LEGEND_TYPE));
    assert_eq!(ty(0, 2), Some(KEYWORD_ATOM_LEGEND_TYPE));
    assert_eq!(ty(0, 5), Some(OPERATOR_ATOM_LEGEND_TYPE));
    assert_eq!(ty(0, 7), Some(NUMBER_ATOM_LEGEND_TYPE));
    assert_eq!(ty(0, 9), Some(NUMBER_ATOM_LEGEND_TYPE));
    assert_eq!(ty(0, 14), Some(CONTEXT_LEGEND_TYPE));
    assert_eq!(ty(1, 0), Some(MEMBRANE_LEGEND_TYPE));
    assert_eq!(info.semantic_tokens.len(), 7);
    assert_eq!(info.symbols.len(), 7);
}

#[test]
fn named_rule_token_and_outline() {
    let r = Rule {
        name: "swap".to_string(),
        name_span: sp(3, 0, 4),
        head: list(vec![hyperlink("h", 3, 8)]),
        propagation: None,
        guard: None,
        body: Some(list(vec![hyperlink("h", 3, 14)])),
        span: sp(3, 6, 12),
    };
    let info = analyze(&program(vec![], vec![r]));
    let rule_tokens: Vec<_> = info.semantic_tokens.iter().filter(|t| t.token_type == RULE_LEGEND_TYPE).collect();
    assert_eq!(rule_tokens.len(), 1);
    assert_eq!((rule_tokens[0].line, rule_tokens[0].col, rule_tokens[0].length), (3, 0, 4));
    assert!(info.semantic_tokens.iter().any(|t| t.token_type == HYPERLINK_LEGEND_TYPE));
    assert!(!info.symbols.contains(&sp(3, 0, 4)));
    assert_eq!(info.doc_symbol.len(), 1);
    let o = &info.doc_symbol[0];
    assert_eq!(o.name, "swap");
    assert_eq!(o.kind, OutlineKind::Rule);
    assert_eq!(o.selection_range, sp(3, 0, 4));
    assert_eq!(o.range, Span::new(sp(3, 0, 4).low(), sp(3, 6, 12).high()));
    assert!(o.children.is_empty());
    assert_eq!(info.refs, vec![vec![sp(3, 8, 2), sp(3, 14, 2)]]);
}

#[test]
fn anonymous_rule_outline_uses_whole_rule() {
    let info = analyze(&program(vec![], vec![anonymous_rule(vec![], vec![])]));
    assert!(info.semantic_tokens.is_empty());
    let o = &info.doc_symbol[0];
    assert_eq!(o.name, "");
    assert_eq!(o.range, sp(0, 1, 80));
    assert_eq!(o.selection_range, sp(0, 1, 80));
}

#[test]
fn membrane_outline_nests_direct_children() {
    let innermost = membrane("", sp(2, 3, 0), vec![], vec![], sp(2, 2, 3));
    let r = anonymous_rule(vec![], vec![]);
    let inner = membrane("cell", sp(1, 0, 4), vec![list(vec![Process::Membrane(innermost)])], vec![r], sp(1, 0, 30));
    let info = analyze(&program(vec![list(vec![Process::Membrane(inner)])], vec![]));
    assert_eq!(info.doc_symbol.len(), 1);
    let cell = &info.doc_symbol[0];
    assert_eq!(cell.name, "cell");
    assert_eq!(cell.kind, OutlineKind::Membrane);
    assert_eq!(cell.range, sp(1, 0, 30));
    assert_eq!(cell.selection_range, sp(1, 0, 4));
    assert_eq!(cell.children.len(), 2);
    assert_eq!(cell.children[0].name, "Anonymous membrane");
    assert_eq!(cell.children[0].kind, OutlineKind::Membrane);
    assert!(cell.children[0].children.is_empty());
    assert_eq!(cell.children[1].kind, OutlineKind::Rule);
}

#[test]
fn highlight_through_reference_map() {
    let p = program(
        vec![list(vec![
            atom("p", AtomKind::Plain, 0, 0, vec![link("X", 0, 2)]),
            atom("q", AtomKind::Plain, 0, 6, vec![link("X", 0, 8)]),
        ])],
        vec![],
    );
    let info = analyze(&p);
    let map = RefereceMap::new(info.refs, info.symbols);
    let x1 = Symbol { line: 0, col: 2, length: 1 };
    let x2 = Symbol { line: 0, col: 8, length: 1 };
    assert_eq!(map.query_references_with_self(0, 8), Some(vec![x1, x2]));
    assert_eq!(map.query_references(0, 2), Some(vec![x2]));
    assert_eq!(
        map.query_references_with_self(0, 6),
        Some(vec![Symbol { line: 0, col: 6, length: 1 }])
    );
    assert_eq!(map.query(0, 4), None);
}
