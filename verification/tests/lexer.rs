use wand::lexer::{tokenize, TokenKind};

#[test]
fn tokens_cover_the_text_outside_spaces_and_comments() {
    let text: Vec<char> = "let x = -12 // note\nf(\"s\")".chars().collect();
    let toks = tokenize(&text).unwrap();
    let kinds: Vec<TokenKind> = toks.iter().map(|t| t.kind).collect();
    assert_eq!(
        kinds,
        vec![
            TokenKind::Let,
            TokenKind::Lower,
            TokenKind::Equals,
            TokenKind::Number,
            TokenKind::Lower,
            TokenKind::LParen,
            TokenKind::Str,
            TokenKind::RParen
        ]
    );
    let spans: Vec<(usize, usize)> = toks.iter().map(|t| (t.start, t.end)).collect();
    assert_eq!(spans, vec![(0, 3), (4, 5), (6, 7), (8, 11), (20, 21), (21, 22), (22, 25), (25, 26)]);
}

#[test]
fn unknown_character_is_a_lex_error() {
    let text: Vec<char> = "x ? y".chars().collect();
    match tokenize(&text) {
        Err(e) => assert_eq!(e.position, 2),
        Ok(_) => panic!("expected a lex error"),
    }
}
