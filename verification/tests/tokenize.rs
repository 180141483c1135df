use graph_path::lexer::{tokenize, Error, Span, Token};

#[test]
fn test_tokenize_empty_entity() {
    let expected = vec![
        (Token::LParen, Span { offset: 0, len: 1 }),
        (Token::RParen, Span { offset: 1, len: 1 }),
    ];
    let actual = tokenize("()").unwrap();
    assert_eq!(expected, actual);
}

#[test]
fn test_tokenize_named_entity() {
    let expected = vec![
        (Token::LParen, Span { offset: 0, len: 1 }),
        (Token::Ident, Span { offset: 1, len: 1 }),
        (Token::RParen, Span { offset: 2, len: 1 }),
    ];
    let actual = tokenize("(a)").unwrap();
    assert_eq!(expected, actual);
}

#[test]
fn test_tokenize_relation() {
    let expected = vec![
        (Token::Dash, Span { offset: 0, len: 1 }),
        (Token::LBrace, Span { offset: 1, len: 1 }),
        (Token::Ident, Span { offset: 2, len: 1 }),
        (Token::RBrace, Span { offset: 3, len: 1 }),
        (Token::RArrow, Span { offset: 4, len: 2 }),
    ];
    let actual = tokenize("-[a]->").unwrap();
    assert_eq!(expected, actual);
}

#[test]
fn test_tokenize_path() {
    let expected = vec![
        (Token::LParen, Span { offset: 0, len: 1 }),
        (Token::Ident, Span { offset: 1, len: 1 }),
        (Token::RParen, Span { offset: 2, len: 1 }),
        (Token::Dash, Span { offset: 3, len: 1 }),
        (Token::LBrace, Span { offset: 4, len: 1 }),
        (Token::Ident, Span { offset: 5, len: 1 }),
        (Token::RBrace, Span { offset: 6, len: 1 }),
        (Token::RArrow, Span { offset: 7, len: 2 }),
        (Token::LParen, Span { offset: 9, len: 1 }),
        (Token::Ident, Span { offset: 10, len: 1 }),
        (Token::RParen, Span { offset: 11, len: 1 }),
    ];
    let actual = tokenize("(a)-[b]->(c)").unwrap();
    assert_eq!(expected, actual);
}

#[test]
fn test_tokenize_multichar_ident() {
    let expected = vec![
        (Token::LParen, Span { offset: 0, len: 1 }),
        (Token::Ident, Span { offset: 1, len: 5 }),
        (Token::Colon, Span { offset: 6, len: 1 }),
        (Token::Ident, Span { offset: 7, len: 6 }),
        (Token::RParen, Span { offset: 13, len: 1 }),
    ];
    let actual = tokenize("(alice:Person)").unwrap();
    assert_eq!(expected, actual);
}

#[test]
fn test_tokenize_trailing_ident() {
    let expected = vec![(Token::Ident, Span { offset: 0, len: 3 })];
    let actual = tokenize("ab_").unwrap();
    assert_eq!(expected, actual);
}

#[test]
fn test_tokenize_space_fails() {
    assert_eq!(Err(Error::UnrecognizedTokenPrefix(' ')), tokenize(" "));
    assert_eq!(Err(Error::UnrecognizedTokenPrefix(' ')), tokenize("(a) -[b]->(c)"));
}

#[test]
fn test_tokenize_lone_less_than_fails() {
    assert_eq!(Err(Error::EOF), tokenize("<"));
}

#[test]
fn test_tokenize_less_than_bad_successor_fails() {
    assert_eq!(Err(Error::LessThanSuccessor('x')), tokenize("<x"));
}

#[test]
fn test_tokenize_unrecognized_character_fails() {
    assert_eq!(Err(Error::UnrecognizedTokenPrefix('1')), tokenize("(a1)"));
}
