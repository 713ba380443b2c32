use lmntal_language_server::reference::{find, RefereceMap};
use lmntal_language_server::span::{Pos, Span};
use lmntal_language_server::symbol::Symbol;

fn sp(line: u32, col: u32, len: u32) -> Span {
    Span::new(
        Pos { offset: line * 100 + col, line, column: col },
        Pos { offset: line * 100 + col + len, line, column: col + len },
    )
}

fn sym(line: u32, col: u32, length: usize) -> Symbol {
    Symbol { line, col, length }
}

#[test]
fn test_find() {
    let refs = vec![
        Symbol {
            line: 0,
            col: 0,
            length: 1,
        },
        Symbol {
            line: 0,
            col: 2,
            length: 1,
        },
        Symbol {
            line: 1,
            col: 1,
            length: 2,
        },
        Symbol {
            line: 1,
            col: 4,
            length: 1,
        },
    ];
    assert_eq!(find(0, 0, &refs), Some(0));
    assert_eq!(find(0, 1, &refs), Some(0));

    assert_eq!(find(0, 2, &refs), Some(1));
    assert_eq!(find(0, 3, &refs), Some(1));

    assert_eq!(find(0, 4, &refs), None);

    assert_eq!(find(1, 0, &refs), None);
    assert_eq!(find(1, 1, &refs), Some(2));
    assert_eq!(find(1, 2, &refs), Some(2));
    assert_eq!(find(1, 3, &refs), Some(2));

    assert_eq!(find(1, 4, &refs), Some(3));
    assert_eq!(find(1, 5, &refs), Some(3));
}

#[test]
fn find_in_empty_table() {
    assert_eq!(find(0, 0, &Vec::new()), None);
}

#[test]
fn find_on_other_line() {
    let refs = vec![sym(2, 0, 3), sym(4, 1, 1)];
    assert_eq!(find(3, 1, &refs), None);
    assert_eq!(find(4, 2, &refs), Some(1));
    assert_eq!(find(5, 0, &refs), None);
}

#[test]
fn symbol_from_span_and_inside() {
    let s = Symbol::new(sp(3, 4, 5));
    assert_eq!(s, sym(3, 4, 5));
    assert!(s.is_inside(3, 4));
    assert!(s.is_inside(3, 9));
    assert!(!s.is_inside(3, 10));
    assert!(!s.is_inside(3, 3));
    assert!(!s.is_inside(2, 5));
}

#[test]
fn symbol_order_is_line_column_length() {
    assert!(sym(0, 5, 9) < sym(1, 0, 1));
    assert!(sym(1, 2, 9) < sym(1, 3, 1));
    assert!(sym(1, 3, 1) < sym(1, 3, 2));
    assert!(sym(1, 3, 1).precedes(&sym(1, 3, 2)));
    assert!(!sym(1, 3, 2).precedes(&sym(1, 3, 2)));
}

#[test]
fn map_sorts_and_dedups_symbols() {
    let a = sp(0, 4, 1);
    let b = sp(0, 0, 1);
    let map = RefereceMap::new(vec![vec![a, b]], vec![b, sp(1, 0, 2), a]);
    assert_eq!(map.query(0, 0), Some(sym(0, 0, 1)));
    assert_eq!(map.query(0, 5), Some(sym(0, 4, 1)));
    assert_eq!(map.query(1, 2), Some(sym(1, 0, 2)));
    assert_eq!(map.query(0, 3), None);
}

#[test]
fn query_between_symbols_is_none() {
    let map = RefereceMap::new(vec![], vec![sp(0, 0, 1), sp(0, 5, 2)]);
    assert_eq!(map.query(0, 2), None);
    assert_eq!(map.query(0, 3), None);
    assert_eq!(map.query(0, 4), None);
    for col in 5..=7 {
        assert_eq!(map.query(0, col), Some(sym(0, 5, 2)));
    }
}

#[test]
fn references_of_a_pair() {
    let a = sp(0, 2, 1);
    let b = sp(2, 6, 1);
    let map = RefereceMap::new(vec![vec![a, b]], vec![a, b, sp(1, 0, 3)]);
    assert_eq!(map.query_references(0, 2), Some(vec![sym(2, 6, 1)]));
    assert_eq!(map.query_references(2, 7), Some(vec![sym(0, 2, 1)]));
    assert_eq!(map.query_references(1, 1), None);
    assert_eq!(map.query_references(5, 0), None);
}

#[test]
fn references_with_self() {
    let a = sp(0, 2, 1);
    let b = sp(2, 6, 1);
    let map = RefereceMap::new(vec![vec![a, b]], vec![a, b, sp(1, 0, 3)]);
    let both = map.query_references_with_self(0, 3).unwrap();
    assert_eq!(both, vec![sym(2, 6, 1), sym(0, 2, 1)]);
    assert_eq!(both.len(), 2);
    assert_eq!(map.query_references_with_self(1, 2), Some(vec![sym(1, 0, 3)]));
    assert_eq!(map.query_references_with_self(1, 4), None);
}

#[test]
fn larger_groups_list_every_other_member() {
    let a = sp(0, 0, 1);
    let b = sp(0, 2, 1);
    let c = sp(0, 4, 1);
    let map = RefereceMap::new(vec![vec![a, b, c]], vec![]);
    assert_eq!(map.query_references(0, 2), Some(vec![sym(0, 0, 1), sym(0, 4, 1)]));
    assert_eq!(map.query_references(0, 4), Some(vec![sym(0, 0, 1), sym(0, 2, 1)]));
}
