//! Recursive-descent parsing: a forward-only cursor over the token stream
//! with one-token lookahead, one routine per grammar rule, and a
//! mathematical model of every rule.
//!
//! The grammar, in EBNF:
//! ```text
//! Path     := Entity Edge*
//! Edge     := Relation Entity
//! Relation := ("-" | "<-") "[" Ident "]" ("-" | "->")
//! Entity   := "(" Ident? (":" Ident)* ")"
//! ```
//! Each `spec_parse_*` function maps the token stream and a start position to
//! the parsed value and the position after it, or to the syntax error the
//! matching routine reports; the routines are proved to return exactly that.
use vstd::prelude::*;

use crate::ast::{
    Direction, Edge, EdgeModel, Entity, EntityModel, Path, PathModel, Relation, RelationModel,
};
use crate::lexer::{spans_in_bounds, Span, Token, TokenData};

verus! {

/// A syntactic failure: the tokens ran out, a token of the wrong kind stood
/// where another was required, or a relation's two ends contradict.
#[derive(Debug, Clone, Copy, PartialEq, Eq, Structural)]
pub enum Error {
    Next,
    AssertNext,
    ParseRelation,
}

/// The text a span selects.
pub open spec fn span_text(src: Seq<char>, sp: Span) -> Seq<char> {
    src.subrange(sp.offset as int, sp.offset + sp.len)
}

/// The model of an optional variable name: the characters it selects.
pub open spec fn opt_view(v: Option<&str>) -> Option<Seq<char>> {
    match v {
        Some(s) => Some(s@),
        None => None,
    }
}

/// The model of a list of label names.
pub open spec fn labels_view(ls: Seq<&str>) -> Seq<Seq<char>> {
    Seq::new(ls.len(), |k: int| ls[k]@)
}

/// The model of a list of parsed edges.
pub open spec fn edges_view(es: Seq<Edge>) -> Seq<EdgeModel> {
    Seq::new(es.len(), |k: int| es[k]@)
}

/// The token stream, the source it was lexed from, and a forward-only
/// cursor. `peek` looks one token ahead; `next` consumes; `get` resolves a
/// span against the source.
pub struct ParseInput<'src> {
    source: &'src str,
    tokens: Vec<TokenData>,
    index: usize,
}

impl<'src> ParseInput<'src> {
    /// The source text the tokens were lexed from.
    pub closed spec fn spec_source(&self) -> Seq<char> {
        self.source@
    }

    /// The token stream under the cursor.
    pub closed spec fn spec_tokens(&self) -> Seq<TokenData> {
        self.tokens@
    }

    /// The cursor: how many tokens have been consumed.
    pub closed spec fn spec_index(&self) -> int {
        self.index as int
    }

    /// Well-formed: the cursor is within the stream and every span stays
    /// within the source, so resolving one can never reach past the text.
    pub open spec fn wf(&self) -> bool {
        &&& self.spec_index() <= self.spec_tokens().len()
        &&& spans_in_bounds(self.spec_tokens(), self.spec_source().len() as int)
    }

    /// A fresh cursor over `tokens`, standing before the first token.
    pub fn new(source: &'src str, tokens: Vec<TokenData>) -> (r: Self)
        ensures
            r.spec_source() == source@,
            r.spec_tokens() == tokens@,
            r.spec_index() == 0,
    {
        Self { source, tokens, index: 0 }
    }

    /// What `peek` returns: the token under the cursor, if any.
    pub open spec fn spec_peek(&self) -> Option<TokenData> {
        if self.spec_index() < self.spec_tokens().len() {
            Some(self.spec_tokens()[self.spec_index()])
        } else {
            None
        }
    }

    /// Returns the current token without advancing, or `None` at the end.
    pub fn peek(&self) -> (r: Option<TokenData>)
        ensures
            r == self.spec_peek(),
    {
        if self.index < self.tokens.len() {
            Some(self.tokens[self.index])
        } else {
            None
        }
    }

    /// Returns the current token and advances past it, or fails at the end
    /// of the stream.
    pub fn next(&mut self) -> (r: Result<TokenData, Error>)
        ensures
            final(self).spec_source() == old(self).spec_source(),
            final(self).spec_tokens() == old(self).spec_tokens(),
            match old(self).spec_peek() {
                Some(t) => r == Ok::<TokenData, Error>(t) && final(self).spec_index() == old(
                    self,
                ).spec_index() + 1,
                None => r == Err::<TokenData, Error>(Error::Next) && final(self).spec_index()
                    == old(self).spec_index(),
            },
    {
        let index = self.index;
        if index < self.tokens.len() {
            self.index = index + 1;
            Ok(self.tokens[index])
        } else {
            Err(Error::Next)
        }
    }

    /// Consumes the current token, which must have the given kind; fails at
    /// the end of the stream or on a kind mismatch (having consumed the
    /// offending token).
    pub fn assert_next(&mut self, token: Token) -> (r: Result<Span, Error>)
        ensures
            final(self).spec_source() == old(self).spec_source(),
            final(self).spec_tokens() == old(self).spec_tokens(),
            match old(self).spec_peek() {
                Some(t) => final(self).spec_index() == old(self).spec_index() + 1 && if t.0
                    == token {
                    r == Ok::<Span, Error>(t.1)
                } else {
                    r == Err::<Span, Error>(Error::AssertNext)
                },
                None => r == Err::<Span, Error>(Error::Next) && final(self).spec_index() == old(
                    self,
                ).spec_index(),
            },
    {
        let (next_token, next_span) = match self.next() {
            Ok(t) => t,
            Err(e) => {
                return Err(e);
            },
        };
        if next_token == token {
            Ok(next_span)
        } else {
            Err(Error::AssertNext)
        }
    }

    /// Consumes the current token only if it has the given kind; otherwise
    /// leaves the cursor where it stands.
    pub fn next_if(&mut self, token: Token) -> (r: Option<Span>)
        ensures
            final(self).spec_source() == old(self).spec_source(),
            final(self).spec_tokens() == old(self).spec_tokens(),
            match old(self).spec_peek() {
                Some(t) => if t.0 == token {
                    r == Some(t.1) && final(self).spec_index() == old(self).spec_index() + 1
                } else {
                    r is None && final(self).spec_index() == old(self).spec_index()
                },
                None => r is None && final(self).spec_index() == old(self).spec_index(),
            },
    {
        match self.peek() {
            Some((next_token, _)) => {
                if next_token != token {
                    return None;
                }
            },
            None => {
                return None;
            },
        }
        match self.next() {
            Ok(t) => Some(t.1),
            Err(_) => None,
        }
    }

    /// Resolves a span to the slice of the source it selects. The span must
    /// stay within the source; every span of a well-formed input does.
    pub fn get(&self, span: Span) -> (r: &'src str)
        requires
            span.offset + span.len <= self.spec_source().len(),
        ensures
            r@ == span_text(self.spec_source(), span),
    {
        // learns that the character count fits in usize, so the sum below
        // cannot overflow
        let _n = self.source.unicode_len();
        self.source.substring_char(span.offset, span.offset + span.len)
    }
}

/// The labels of an entity: as long as a `:` follows, consume it and require
/// an identifier after it. Returns the label texts in source order and the
/// position after the last one.
pub open spec fn spec_parse_labels(src: Seq<char>, toks: Seq<TokenData>, i: int) -> Result<
    (Seq<Seq<char>>, int),
    Error,
>
    decreases toks.len() - i,
{
    if 0 <= i < toks.len() && toks[i].0 == Token::Colon {
        if i + 1 < toks.len() {
            if toks[i + 1].0 == Token::Ident {
                match spec_parse_labels(src, toks, i + 2) {
                    Ok(pair) => Ok((seq![span_text(src, toks[i + 1].1)] + pair.0, pair.1)),
                    Err(e) => Err(e),
                }
            } else {
                Err(Error::AssertNext)
            }
        } else {
            Err(Error::Next)
        }
    } else {
        Ok((Seq::empty(), i))
    }
}

/// What remains of an entity after its labels: the closing `)`.
pub open spec fn spec_entity_tail(
    toks: Seq<TokenData>,
    variable: Option<Seq<char>>,
    labels: Seq<Seq<char>>,
    j: int,
) -> Result<(EntityModel, int), Error> {
    if j >= toks.len() {
        Err(Error::Next)
    } else if toks[j].0 != Token::RParen {
        Err(Error::AssertNext)
    } else {
        Ok((EntityModel { variable, labels }, j + 1))
    }
}

/// An entity: `(` , an optional variable, the labels, `)`.
pub open spec fn spec_parse_entity(src: Seq<char>, toks: Seq<TokenData>, i: int) -> Result<
    (EntityModel, int),
    Error,
> {
    if i >= toks.len() {
        Err(Error::Next)
    } else if toks[i].0 != Token::LParen {
        Err(Error::AssertNext)
    } else {
        let (variable, p) = if i + 1 < toks.len() && toks[i + 1].0 == Token::Ident {
            (Some(span_text(src, toks[i + 1].1)), i + 2)
        } else {
            (None, i + 1)
        };
        match spec_parse_labels(src, toks, p) {
            Ok(pair) => spec_entity_tail(toks, variable, pair.0, pair.1),
            Err(e) => Err(e),
        }
    }
}

/// A relation: `-` or `<-`, then `[` Ident `]`, then `-` or `->`. The
/// direction comes from the two ends; arrows at both ends contradict each
/// other and are an error, never a value.
pub open spec fn spec_parse_relation(src: Seq<char>, toks: Seq<TokenData>, i: int) -> Result<
    (RelationModel, int),
    Error,
> {
    if i >= toks.len() {
        Err(Error::Next)
    } else if toks[i].0 != Token::Dash && toks[i].0 != Token::LArrow {
        Err(Error::ParseRelation)
    } else if i + 1 >= toks.len() {
        Err(Error::Next)
    } else if toks[i + 1].0 != Token::LBrace {
        Err(Error::AssertNext)
    } else if i + 2 >= toks.len() {
        Err(Error::Next)
    } else if toks[i + 2].0 != Token::Ident {
        Err(Error::AssertNext)
    } else if i + 3 >= toks.len() {
        Err(Error::Next)
    } else if toks[i + 3].0 != Token::RBrace {
        Err(Error::AssertNext)
    } else if i + 4 >= toks.len() {
        Err(Error::Next)
    } else {
        let variable = span_text(src, toks[i + 2].1);
        let open = toks[i].0;
        let close = toks[i + 4].0;
        if open == Token::Dash && close == Token::Dash {
            Ok((RelationModel { variable, dir: Direction::Undirected }, i + 5))
        } else if open == Token::Dash && close == Token::RArrow {
            Ok((RelationModel { variable, dir: Direction::Right }, i + 5))
        } else if open == Token::LArrow && close == Token::Dash {
            Ok((RelationModel { variable, dir: Direction::Left }, i + 5))
        } else {
            Err(Error::ParseRelation)
        }
    }
}

/// An edge: a relation and the entity it leads to.
pub open spec fn spec_parse_edge(src: Seq<char>, toks: Seq<TokenData>, i: int) -> Result<
    (EdgeModel, int),
    Error,
> {
    match spec_parse_relation(src, toks, i) {
        Ok(rp) => match spec_parse_entity(src, toks, rp.1) {
            Ok(ep) => Ok((EdgeModel { relation: rp.0, entity: ep.0 }, ep.1)),
            Err(e) => Err(e),
        },
        Err(e) => Err(e),
    }
}

/// The tokens that can open an edge; parsing the edge list stops at any
/// other token, or at the end of the stream.
pub open spec fn is_edge_start(t: Token) -> bool {
    t == Token::Dash || t == Token::LArrow || t == Token::RArrow
}

/// A successfully parsed list of labels begins where parsing began and ends
/// within the stream.
pub proof fn lemma_labels_advance(src: Seq<char>, toks: Seq<TokenData>, i: int)
    requires
        0 <= i <= toks.len(),
        spec_parse_labels(src, toks, i) is Ok,
    ensures
        i <= spec_parse_labels(src, toks, i)->Ok_0.1 <= toks.len(),
    decreases toks.len() - i,
{
    if 0 <= i < toks.len() && toks[i].0 == Token::Colon {
        if i + 1 < toks.len() && toks[i + 1].0 == Token::Ident {
            lemma_labels_advance(src, toks, i + 2);
        }
    }
}

/// A successfully parsed entity consumes at least its two parentheses and
/// ends within the stream.
pub proof fn lemma_entity_advance(src: Seq<char>, toks: Seq<TokenData>, i: int)
    requires
        0 <= i,
        spec_parse_entity(src, toks, i) is Ok,
    ensures
        i + 2 <= spec_parse_entity(src, toks, i)->Ok_0.1 <= toks.len(),
{
    let p = if i + 1 < toks.len() && toks[i + 1].0 == Token::Ident {
        i + 2
    } else {
        i + 1
    };
    lemma_labels_advance(src, toks, p);
}

/// A successfully parsed edge consumes at least one token and ends within
/// the stream.
pub proof fn lemma_edge_advance(src: Seq<char>, toks: Seq<TokenData>, i: int)
    requires
        0 <= i,
        spec_parse_edge(src, toks, i) is Ok,
    ensures
        i < spec_parse_edge(src, toks, i)->Ok_0.1 <= toks.len(),
{
    let rp = spec_parse_relation(src, toks, i)->Ok_0;
    lemma_entity_advance(src, toks, rp.1);
}

/// The edge list: as long as the peeked token can open an edge, parse an
/// edge; stop at the end of the stream or at any other token. Returns the
/// edges in source order.
pub open spec fn spec_parse_edges(src: Seq<char>, toks: Seq<TokenData>, i: int) -> Result<
    (Seq<EdgeModel>, int),
    Error,
>
    decreases toks.len() - i,
    when 0 <= i
    via spec_parse_edges_decreases
{
    if i < toks.len() && is_edge_start(toks[i].0) {
        match spec_parse_edge(src, toks, i) {
            Ok(ep) => match spec_parse_edges(src, toks, ep.1) {
                Ok(rest) => Ok((seq![ep.0] + rest.0, rest.1)),
                Err(e) => Err(e),
            },
            Err(e) => Err(e),
        }
    } else {
        Ok((Seq::empty(), i))
    }
}

#[via_fn]
proof fn spec_parse_edges_decreases(src: Seq<char>, toks: Seq<TokenData>, i: int) {
    if 0 <= i < toks.len() && is_edge_start(toks[i].0) {
        if spec_parse_edge(src, toks, i) is Ok {
            lemma_edge_advance(src, toks, i);
        }
    }
}

/// A path: an initial entity and then the edge list. Tokens after the last
/// edge are left where they stand, exactly as the cursor leaves them.
pub open spec fn spec_parse_path(src: Seq<char>, toks: Seq<TokenData>, i: int) -> Result<
    (PathModel, int),
    Error,
> {
    match spec_parse_entity(src, toks, i) {
        Ok(ep) => match spec_parse_edges(src, toks, ep.1) {
            Ok(rest) => Ok((PathModel { init: ep.0, edges: rest.0 }, rest.1)),
            Err(e) => Err(e),
        },
        Err(e) => Err(e),
    }
}

impl<'src> Entity<'src> {
    /// Parses one entity at the cursor: exactly the value and cursor motion
    /// that [`spec_parse_entity`] assigns to the stream.
    pub fn parse(input: &mut ParseInput<'src>) -> (r: Result<Entity<'src>, Error>)
        requires
            old(input).wf(),
        ensures
            final(input).wf(),
            final(input).spec_source() == old(input).spec_source(),
            final(input).spec_tokens() == old(input).spec_tokens(),
            match spec_parse_entity(
                old(input).spec_source(),
                old(input).spec_tokens(),
                old(input).spec_index(),
            ) {
                Ok(pair) => r is Ok && r->Ok_0@ == pair.0 && final(input).spec_index() == pair.1,
                Err(e) => r is Err && r->Err_0 == e,
            },
    {
        let ghost src = old(input).spec_source();
        let ghost toks = old(input).spec_tokens();
        let ghost i0 = old(input).spec_index();
        match input.assert_next(Token::LParen) {
            Ok(_) => (),
            Err(e) => {
                return Err(e);
            },
        }
        let variable = match input.next_if(Token::Ident) {
            Some(span) => {
                proof {
                    assert(toks[i0 + 1].1.offset + toks[i0 + 1].1.len <= src.len());
                }
                Some(input.get(span))
            },
            None => None,
        };
        let mut labels: Vec<&'src str> = Vec::new();
        let ghost lstart = input.spec_index();
        proof {
            match spec_parse_labels(src, toks, lstart) {
                Ok(pair) => {
                    assert(labels_view(labels@) + pair.0 =~= pair.0);
                },
                Err(_) => {},
            }
        }
        let mut cont = match input.peek() {
            Some((t, _)) => t == Token::Colon,
            None => false,
        };
        while cont
            invariant
                input.wf(),
                src == old(input).spec_source(),
                toks == old(input).spec_tokens(),
                i0 == old(input).spec_index(),
                input.spec_source() == src,
                input.spec_tokens() == toks,
                cont == (input.spec_index() < toks.len() && toks[input.spec_index()].0
                    == Token::Colon),
                match spec_parse_labels(src, toks, input.spec_index()) {
                    Ok(pair) => spec_parse_entity(src, toks, i0) == spec_entity_tail(
                        toks,
                        opt_view(variable),
                        labels_view(labels@) + pair.0,
                        pair.1,
                    ),
                    Err(e) => spec_parse_entity(src, toks, i0) == Err::<
                        (EntityModel, int),
                        Error,
                    >(e),
                },
            decreases toks.len() - input.spec_index(),
        {
            let ghost cur = input.spec_index();
            match input.next() {
                Ok(_) => (),
                Err(e) => {
                    return Err(e);
                },
            }
            let label_span = match input.assert_next(Token::Ident) {
                Ok(sp) => sp,
                Err(e) => {
                    return Err(e);
                },
            };
            proof {
                assert(toks[cur + 1].1.offset + toks[cur + 1].1.len <= src.len());
            }
            let label = input.get(label_span);
            proof {
                match spec_parse_labels(src, toks, cur + 2) {
                    Ok(pair) => {
                        assert(labels_view(labels@.push(label)) =~= labels_view(labels@)
                            + seq![label@]);
                        assert((labels_view(labels@) + seq![label@]) + pair.0 =~= labels_view(
                            labels@,
                        ) + (seq![label@] + pair.0));
                    },
                    Err(_) => {},
                }
            }
            labels.push(label);
            cont = match input.peek() {
                Some((t, _)) => t == Token::Colon,
                None => false,
            };
        }
        let ghost jend = input.spec_index();
        proof {
            assert(spec_parse_labels(src, toks, jend) == Ok::<(Seq<Seq<char>>, int), Error>(
                (Seq::empty(), jend),
            ));
            assert(labels_view(labels@) + Seq::<Seq<char>>::empty() =~= labels_view(labels@));
        }
        match input.assert_next(Token::RParen) {
            Ok(_) => (),
            Err(e) => {
                return Err(e);
            },
        }
        let entity = Entity { variable, labels };
        proof {
            assert(entity@ =~= EntityModel {
                variable: opt_view(entity.variable),
                labels: labels_view(entity.labels@),
            });
        }
        Ok(entity)
    }
}

impl<'src> Relation<'src> {
    /// Parses one relation at the cursor: exactly the value and cursor
    /// motion that [`spec_parse_relation`] assigns to the stream.
    pub fn parse(input: &mut ParseInput<'src>) -> (r: Result<Relation<'src>, Error>)
        requires
            old(input).wf(),
        ensures
            final(input).wf(),
            final(input).spec_source() == old(input).spec_source(),
            final(input).spec_tokens() == old(input).spec_tokens(),
            match spec_parse_relation(
                old(input).spec_source(),
                old(input).spec_tokens(),
                old(input).spec_index(),
            ) {
                Ok(pair) => r is Ok && r->Ok_0@ == pair.0 && final(input).spec_index() == pair.1,
                Err(e) => r is Err && r->Err_0 == e,
            },
    {
        let ghost src = old(input).spec_source();
        let ghost toks = old(input).spec_tokens();
        let ghost i0 = old(input).spec_index();
        let open = match input.next() {
            Ok(t) => t,
            Err(e) => {
                return Err(e);
            },
        };
        match open.0 {
            Token::Dash => (),
            Token::LArrow => (),
            _ => {
                return Err(Error::ParseRelation);
            },
        }
        match input.assert_next(Token::LBrace) {
            Ok(_) => (),
            Err(e) => {
                return Err(e);
            },
        }
        let rel = match input.assert_next(Token::Ident) {
            Ok(sp) => sp,
            Err(e) => {
                return Err(e);
            },
        };
        proof {
            assert(toks[i0 + 2].1.offset + toks[i0 + 2].1.len <= src.len());
        }
        let variable = input.get(rel);
        match input.assert_next(Token::RBrace) {
            Ok(_) => (),
            Err(e) => {
                return Err(e);
            },
        }
        let close = match input.next() {
            Ok(t) => t,
            Err(e) => {
                return Err(e);
            },
        };
        let dir = match (open.0, close.0) {
            (Token::Dash, Token::Dash) => Direction::Undirected,
            (Token::Dash, Token::RArrow) => Direction::Right,
            (Token::LArrow, Token::Dash) => Direction::Left,
            _ => {
                return Err(Error::ParseRelation);
            },
        };
        Ok(Relation { variable, dir })
    }
}

impl<'src> Edge<'src> {
    /// Parses one edge at the cursor: exactly the value and cursor motion
    /// that [`spec_parse_edge`] assigns to the stream.
    pub fn parse(input: &mut ParseInput<'src>) -> (r: Result<Edge<'src>, Error>)
        requires
            old(input).wf(),
        ensures
            final(input).wf(),
            final(input).spec_source() == old(input).spec_source(),
            final(input).spec_tokens() == old(input).spec_tokens(),
            match spec_parse_edge(
                old(input).spec_source(),
                old(input).spec_tokens(),
                old(input).spec_index(),
            ) {
                Ok(pair) => r is Ok && r->Ok_0@ == pair.0 && final(input).spec_index() == pair.1,
                Err(e) => r is Err && r->Err_0 == e,
            },
    {
        let relation = match Relation::parse(input) {
            Ok(r) => r,
            Err(e) => {
                return Err(e);
            },
        };
        let entity = match Entity::parse(input) {
            Ok(en) => en,
            Err(e) => {
                return Err(e);
            },
        };
        let edge = Edge { relation, entity };
        proof {
            assert(edge@ =~= EdgeModel { relation: edge.relation@, entity: edge.entity@ });
        }
        Ok(edge)
    }
}

/// Parses the edge list at the cursor, iteratively and in source order:
/// exactly the value and cursor motion that [`spec_parse_edges`] assigns to
/// the stream.
fn parse_edges<'src>(input: &mut ParseInput<'src>) -> (r: Result<Vec<Edge<'src>>, Error>)
    requires
        old(input).wf(),
    ensures
        final(input).wf(),
        final(input).spec_source() == old(input).spec_source(),
        final(input).spec_tokens() == old(input).spec_tokens(),
        match spec_parse_edges(
            old(input).spec_source(),
            old(input).spec_tokens(),
            old(input).spec_index(),
        ) {
            Ok(pair) => r is Ok && edges_view(r->Ok_0@) == pair.0 && final(input).spec_index()
                == pair.1,
            Err(e) => r is Err && r->Err_0 == e,
        },
{
    let ghost src = old(input).spec_source();
    let ghost toks = old(input).spec_tokens();
    let ghost i0 = old(input).spec_index();
    let mut edges: Vec<Edge<'src>> = Vec::new();
    proof {
        match spec_parse_edges(src, toks, i0) {
            Ok(pair) => {
                assert(edges_view(edges@) + pair.0 =~= pair.0);
            },
            Err(_) => {},
        }
    }
    let mut cont = match input.peek() {
        Some((t, _)) => t == Token::Dash || t == Token::LArrow || t == Token::RArrow,
        None => false,
    };
    while cont
        invariant
            input.wf(),
            src == old(input).spec_source(),
            toks == old(input).spec_tokens(),
            i0 == old(input).spec_index(),
            input.spec_source() == src,
            input.spec_tokens() == toks,
            cont == (input.spec_index() < toks.len() && is_edge_start(
                toks[input.spec_index()].0,
            )),
            match spec_parse_edges(src, toks, input.spec_index()) {
                Ok(pair) => spec_parse_edges(src, toks, i0) == Ok::<(Seq<EdgeModel>, int), Error>(
                    (edges_view(edges@) + pair.0, pair.1),
                ),
                Err(e) => spec_parse_edges(src, toks, i0) == Err::<(Seq<EdgeModel>, int), Error>(
                    e,
                ),
            },
        decreases toks.len() - input.spec_index(),
    {
        let ghost cur = input.spec_index();
        let edge = match Edge::parse(input) {
            Ok(ed) => ed,
            Err(e) => {
                return Err(e);
            },
        };
        proof {
            lemma_edge_advance(src, toks, cur);
            let ep = spec_parse_edge(src, toks, cur)->Ok_0;
            match spec_parse_edges(src, toks, ep.1) {
                Ok(pair) => {
                    assert(edges_view(edges@.push(edge)) =~= edges_view(edges@) + seq![edge@]);
                    assert((edges_view(edges@) + seq![edge@]) + pair.0 =~= edges_view(edges@) + (
                    seq![edge@] + pair.0));
                },
                Err(_) => {},
            }
        }
        edges.push(edge);
        cont = match input.peek() {
            Some((t, _)) => t == Token::Dash || t == Token::LArrow || t == Token::RArrow,
            None => false,
        };
    }
    proof {
        assert(spec_parse_edges(src, toks, input.spec_index()) == Ok::<
            (Seq<EdgeModel>, int),
            Error,
        >((Seq::empty(), input.spec_index())));
        assert(edges_view(edges@) + Seq::<EdgeModel>::empty() =~= edges_view(edges@));
    }
    Ok(edges)
}

impl<'src> Path<'src> {
    /// Parses a whole path at the cursor: exactly the value and cursor
    /// motion that [`spec_parse_path`] assigns to the stream.
    pub fn parse(input: &mut ParseInput<'src>) -> (r: Result<Path<'src>, Error>)
        requires
            old(input).wf(),
        ensures
            final(input).wf(),
            final(input).spec_source() == old(input).spec_source(),
            final(input).spec_tokens() == old(input).spec_tokens(),
            match spec_parse_path(
                old(input).spec_source(),
                old(input).spec_tokens(),
                old(input).spec_index(),
            ) {
                Ok(pair) => r is Ok && r->Ok_0@ == pair.0 && final(input).spec_index() == pair.1,
                Err(e) => r is Err && r->Err_0 == e,
            },
    {
        let init = match Entity::parse(input) {
            Ok(en) => en,
            Err(e) => {
                return Err(e);
            },
        };
        let edges = match parse_edges(input) {
            Ok(es) => es,
            Err(e) => {
                return Err(e);
            },
        };
        let path = Path { init, edges };
        proof {
            assert(path@ =~= PathModel {
                init: path.init@,
                edges: edges_view(path.edges@),
            });
        }
        Ok(path)
    }
}

} // verus!
