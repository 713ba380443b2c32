use lmntal_language_server::analysis::semantic_token::{to_semantic_tokens, SemanticToken, Token};

fn tok(line: u32, col: u32, length: usize, token_type: u32) -> Token {
    Token { token_type, line, col, length }
}

fn st(delta_line: u32, delta_start: u32, length: u32, token_type: u32) -> SemanticToken {
    SemanticToken { delta_line, delta_start, length, token_type, token_modifiers_bitset: 0 }
}

#[test]
fn encodes_relative_positions() {
    let mut tokens = vec![tok(2, 5, 3, 2), tok(0, 4, 1, 3), tok(0, 0, 2, 6), tok(2, 1, 1, 1)];
    let encoded = to_semantic_tokens(&mut tokens);
    assert_eq!(tokens, vec![tok(0, 0, 2, 6), tok(0, 4, 1, 3), tok(2, 1, 1, 1), tok(2, 5, 3, 2)]);
    assert_eq!(encoded, vec![st(0, 0, 2, 6), st(0, 4, 1, 3), st(2, 1, 1, 1), st(0, 4, 3, 2)]);
}

#[test]
fn first_token_keeps_absolute_position() {
    let mut tokens = vec![tok(7, 9, 4, 0)];
    assert_eq!(to_semantic_tokens(&mut tokens), vec![st(7, 9, 4, 0)]);
}

#[test]
fn empty_input_encodes_to_nothing() {
    let mut tokens: Vec<Token> = Vec::new();
    assert!(to_semantic_tokens(&mut tokens).is_empty());
}

#[test]
fn sort_is_stable() {
    let mut tokens = vec![tok(1, 0, 1, 5), tok(0, 3, 2, 4), tok(1, 0, 2, 3), tok(0, 3, 1, 2)];
    to_semantic_tokens(&mut tokens);
    assert_eq!(tokens, vec![tok(0, 3, 2, 4), tok(0, 3, 1, 2), tok(1, 0, 1, 5), tok(1, 0, 2, 3)]);
}

#[test]
fn decoding_restores_sorted_positions() {
    let mut tokens = vec![tok(4, 2, 1, 0), tok(1, 7, 1, 0), tok(1, 3, 1, 0), tok(4, 0, 1, 0), tok(9, 9, 1, 0)];
    let encoded = to_semantic_tokens(&mut tokens);
    let mut decoded = Vec::new();
    let (mut line, mut col) = (0u32, 0u32);
    for (i, t) in encoded.iter().enumerate() {
        if i > 0 && t.delta_line == 0 {
            col += t.delta_start;
        } else {
            col = t.delta_start;
        }
        line += t.delta_line;
        decoded.push((line, col));
    }
    assert_eq!(decoded, vec![(1, 3), (1, 7), (4, 0), (4, 2), (9, 9)]);
    let expected: Vec<(u32, u32)> = tokens.iter().map(|t| (t.line, t.col)).collect();
    assert_eq!(decoded, expected);
}
