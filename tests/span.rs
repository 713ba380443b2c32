use lmntal_language_server::config::Config;
use lmntal_language_server::diagnostic::{LinkDiagnostic, LinkDiagnosticKind};
use lmntal_language_server::span::{Pos, Span};

#[test]
fn span_length_and_emptiness() {
    let s = Span::new(Pos { offset: 10, line: 1, column: 2 }, Pos { offset: 14, line: 1, column: 6 });
    assert_eq!(s.len(), 4);
    assert!(!s.is_empty());
    assert_eq!(s.low().column, 2);
    assert_eq!(s.high().column, 6);
    let e = Span::new(Pos { offset: 3, line: 0, column: 3 }, Pos { offset: 3, line: 0, column: 3 });
    assert_eq!(e.len(), 0);
    assert!(e.is_empty());
}

#[test]
fn reversed_span_is_empty() {
    let s = Span::new(Pos { offset: 9, line: 0, column: 9 }, Pos { offset: 5, line: 0, column: 5 });
    assert_eq!(s.len(), 0);
    assert!(s.is_empty());
}

#[test]
fn diagnostic_messages() {
    let s = Span::new(Pos { offset: 0, line: 0, column: 0 }, Pos { offset: 1, line: 0, column: 1 });
    let t = Span::new(Pos { offset: 2, line: 0, column: 2 }, Pos { offset: 3, line: 0, column: 3 });
    let top = LinkDiagnostic { kind: LinkDiagnosticKind::LinkAtTopLevel, span: s };
    let free = LinkDiagnostic { kind: LinkDiagnosticKind::FreeLink, span: s };
    let multi = LinkDiagnostic {
        kind: LinkDiagnosticKind::MultiOccurrence { first: s, second: t },
        span: t,
    };
    assert_eq!(top.message(), "Link at top level");
    assert_eq!(free.message(), "Free link");
    assert_eq!(multi.message(), "Link occurs more than twice");
    assert!(top.related().is_empty());
    assert!(free.related().is_empty());
    assert_eq!(multi.related(), vec![(s, "First occurrence"), (t, "Second occurrence")]);
}

#[test]
fn default_config() {
    let c = Config::default();
    assert!(!c.check_for_updates);
    assert!(c.slim_path.is_empty());
    assert!(c.slim_args.is_empty());
    assert!(c.compiler_path.is_empty());
    assert!(c.compiler_args.is_empty());
}
