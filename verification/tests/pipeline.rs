use graph_path::ast::Direction;
use graph_path::parse;

#[test]
fn test_parse_chain_in_order() {
    let path = parse("(a:Person)-[r]->(b)<-[s]-(c:City:Capital)").unwrap();
    assert_eq!(path.init.variable, Some("a"));
    assert_eq!(path.init.labels, vec!["Person"]);
    assert_eq!(path.edges.len(), 2);
    assert_eq!(path.edges[0].relation.variable, "r");
    assert_eq!(path.edges[0].relation.dir, Direction::Right);
    assert_eq!(path.edges[0].entity.variable, Some("b"));
    assert_eq!(path.edges[0].entity.labels.len(), 0);
    assert_eq!(path.edges[1].relation.variable, "s");
    assert_eq!(path.edges[1].relation.dir, Direction::Left);
    assert_eq!(path.edges[1].entity.variable, Some("c"));
    assert_eq!(path.edges[1].entity.labels, vec!["City", "Capital"]);
}

#[test]
fn test_parse_single_entity() {
    let path = parse("()").unwrap();
    assert_eq!(path.init.variable, None);
    assert_eq!(path.init.labels.len(), 0);
    assert_eq!(path.edges.len(), 0);
}

#[test]
fn test_parse_undirected_chain() {
    let path = parse("(x)-[e]-(y)").unwrap();
    assert_eq!(path.edges.len(), 1);
    assert_eq!(path.edges[0].relation.dir, Direction::Undirected);
}

#[test]
fn test_parse_collapses_lexical_error() {
    assert_eq!(Err(()), parse("(a b)"));
}

#[test]
fn test_parse_collapses_syntax_error() {
    assert_eq!(Err(()), parse("(a)-[b]"));
    assert_eq!(Err(()), parse("<-[a]->(b)"));
}

#[test]
fn test_independent_parses() {
    let first_text = String::from("(a)-[b]->(c)");
    let second_text = String::from("(x:Label)<-[y]-(z)");
    let first = parse(&first_text).unwrap();
    let second = parse(&second_text).unwrap();
    assert_eq!(first.edges[0].relation.variable, "b");
    drop(first);
    assert_eq!(second.init.variable, Some("x"));
    assert_eq!(second.init.labels, vec!["Label"]);
    assert_eq!(second.edges[0].relation.variable, "y");
    assert_eq!(second.edges[0].relation.dir, Direction::Left);
    assert_eq!(second.edges[0].entity.variable, Some("z"));
}
