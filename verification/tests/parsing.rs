use graph_path::ast::{Direction, Edge, Entity, Path, Relation};
use graph_path::lexer::{tokenize, Span, Token};
use graph_path::parse::{Error, ParseInput};

#[test]
fn test_assert_next() {
    let v = vec![
        (Token::LParen, Span { offset: 0, len: 1 }),
        (Token::RParen, Span { offset: 1, len: 1 }),
    ];
    let mut input = ParseInput::new("()", v);
    assert_eq!(Ok(Span { offset: 0, len: 1 }), input.assert_next(Token::LParen));
    assert_eq!(Ok(Span { offset: 1, len: 1 }), input.assert_next(Token::RParen));
}

#[test]
fn test_parse_empty_entity() {
    let v = vec![
        (Token::LParen, Span { offset: 0, len: 1 }),
        (Token::RParen, Span { offset: 1, len: 1 }),
    ];
    let mut input = ParseInput::new("()", v);
    let entity = Entity::parse(&mut input).unwrap();
    assert_eq!(entity, Entity { variable: None, labels: vec![] });
}

#[test]
fn test_parse_named_entity() {
    let v = vec![
        (Token::LParen, Span { offset: 0, len: 1 }),
        (Token::Ident, Span { offset: 1, len: 1 }),
        (Token::RParen, Span { offset: 2, len: 1 }),
    ];
    let mut input = ParseInput::new("(a)", v);
    let entity = Entity::parse(&mut input).unwrap();
    assert_eq!(entity, Entity { variable: Some("a"), labels: vec![] });
}

#[test]
fn test_parse_relation() {
    let v = vec![
        (Token::Dash, Span { offset: 0, len: 1 }),
        (Token::LBrace, Span { offset: 1, len: 1 }),
        (Token::Ident, Span { offset: 2, len: 1 }),
        (Token::RBrace, Span { offset: 3, len: 1 }),
        (Token::RArrow, Span { offset: 4, len: 2 }),
    ];
    let mut input = ParseInput::new("-[a]->", v);
    let entity = Relation::parse(&mut input).unwrap();
    assert_eq!(entity, Relation { variable: "a", dir: Direction::Right });
}

#[test]
fn test_parse_path() {
    let v = vec![
        (Token::LParen, Span { offset: 0, len: 1 }),
        (Token::Ident, Span { offset: 1, len: 1 }),
        (Token::RParen, Span { offset: 2, len: 1 }),
        (Token::Dash, Span { offset: 3, len: 1 }),
        (Token::LBrace, Span { offset: 4, len: 1 }),
        (Token::Ident, Span { offset: 5, len: 1 }),
        (Token::RBrace, Span { offset: 6, len: 1 }),
        (Token::RArrow, Span { offset: 7, len: 2 }),
        (Token::LParen, Span { offset: 9, len: 1 }),
        (Token::Ident, Span { offset: 10, len: 1 }),
        (Token::RParen, Span { offset: 11, len: 1 }),
    ];
    let mut input = ParseInput::new("(a)-[b]->(c)", v);
    let entity = Path::parse(&mut input).unwrap();
    assert_eq!(
        entity,
        Path {
            init: Entity { variable: Some("a"), labels: vec![] },
            edges: vec![Edge {
                relation: Relation { variable: "b", dir: Direction::Right },
                entity: Entity { variable: Some("c"), labels: vec![] },
            }],
        }
    );
}

#[test]
fn test_parse_labeled_entity() {
    let source = "(a:Person:Human)";
    let tokens = tokenize(source).unwrap();
    let mut input = ParseInput::new(source, tokens);
    let entity = Entity::parse(&mut input).unwrap();
    assert_eq!(entity, Entity { variable: Some("a"), labels: vec!["Person", "Human"] });
}

#[test]
fn test_parse_relation_left() {
    let source = "<-[a]-";
    let tokens = tokenize(source).unwrap();
    let mut input = ParseInput::new(source, tokens);
    let relation = Relation::parse(&mut input).unwrap();
    assert_eq!(relation, Relation { variable: "a", dir: Direction::Left });
}

#[test]
fn test_parse_relation_undirected() {
    let source = "-[a]-";
    let tokens = tokenize(source).unwrap();
    let mut input = ParseInput::new(source, tokens);
    let relation = Relation::parse(&mut input).unwrap();
    assert_eq!(relation, Relation { variable: "a", dir: Direction::Undirected });
}

#[test]
fn test_parse_relation_contradictory_arrows_fails() {
    let source = "<-[a]->";
    let tokens = tokenize(source).unwrap();
    let mut input = ParseInput::new(source, tokens);
    assert_eq!(Err(Error::ParseRelation), Relation::parse(&mut input));
}

#[test]
fn test_parse_entity_end_of_input_fails() {
    let mut input = ParseInput::new("", vec![]);
    assert_eq!(Err(Error::Next), Entity::parse(&mut input));
}

#[test]
fn test_parse_entity_wrong_token_fails() {
    let source = "a";
    let tokens = tokenize(source).unwrap();
    let mut input = ParseInput::new(source, tokens);
    assert_eq!(Err(Error::AssertNext), Entity::parse(&mut input));
}
