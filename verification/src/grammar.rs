//! The generative side of the grammar, and the proof that the pipeline
//! accepts everything the grammar generates.
//!
//! `render_*` write a model value back out as text; `valid_*` say when a
//! model value is one the grammar can generate (every name a nonempty run of
//! identifier characters); `*_toks` give the exact tokens that text lexes
//! to. The law at the end is a round trip: for every valid path model,
//! tokenizing its rendering succeeds, parsing the tokens succeeds and
//! consumes them all, and the parsed path is the model itself — same
//! variables, same labels, same directions, same left-to-right edge order.
use vstd::prelude::*;

use crate::ast::{Direction, EdgeModel, EntityModel, PathModel, RelationModel};
use crate::lexer::{
    ident_end, is_ident_char, lex_from, prepend_token, spec_tokenize, Span, Token, TokenData,
};
use crate::parse::{
    is_edge_start, span_text, spec_parse_edge, spec_parse_edges, spec_parse_entity,
    spec_parse_labels, spec_parse_path, spec_parse_relation,
};

verus! {

/// A name the grammar can generate: a nonempty run of identifier characters.
pub open spec fn valid_ident(s: Seq<char>) -> bool {
    s.len() > 0 && forall|k: int| 0 <= k < s.len() ==> is_ident_char(#[trigger] s[k])
}

/// An entity the grammar can generate.
pub open spec fn valid_entity(e: EntityModel) -> bool {
    &&& match e.variable {
        Some(v) => valid_ident(v),
        None => true,
    }
    &&& forall|k: int| 0 <= k < e.labels.len() ==> valid_ident(#[trigger] e.labels[k])
}

/// A relation the grammar can generate.
pub open spec fn valid_relation(r: RelationModel) -> bool {
    valid_ident(r.variable)
}

/// An edge the grammar can generate.
pub open spec fn valid_edge(ed: EdgeModel) -> bool {
    valid_relation(ed.relation) && valid_entity(ed.entity)
}

/// A path the grammar can generate.
pub open spec fn valid_path(p: PathModel) -> bool {
    valid_entity(p.init) && forall|k: int| 0 <= k < p.edges.len() ==> valid_edge(
        #[trigger] p.edges[k],
    )
}

/// The text of a label list: `:a:b` and so on.
pub open spec fn render_labels(ls: Seq<Seq<char>>) -> Seq<char>
    decreases ls.len(),
{
    if ls.len() == 0 {
        Seq::empty()
    } else {
        seq![':'] + ls[0] + render_labels(ls.drop_first())
    }
}

/// The text of an entity: `(`, the variable if any, the labels, `)`.
pub open spec fn render_entity(e: EntityModel) -> Seq<char> {
    seq!['('] + (match e.variable {
        Some(v) => v,
        None => Seq::empty(),
    }) + render_labels(e.labels) + seq![')']
}

/// The text of a relation, its direction written out at its two ends.
pub open spec fn render_relation(r: RelationModel) -> Seq<char> {
    match r.dir {
        Direction::Undirected => seq!['-', '['] + r.variable + seq![']', '-'],
        Direction::Left => seq!['<', '-', '['] + r.variable + seq![']', '-'],
        Direction::Right => seq!['-', '['] + r.variable + seq![']', '-', '>'],
    }
}

/// The text of an edge: its relation, then its entity.
pub open spec fn render_edge(ed: EdgeModel) -> Seq<char> {
    render_relation(ed.relation) + render_entity(ed.entity)
}

/// The text of an edge list, in order.
pub open spec fn render_edges(es: Seq<EdgeModel>) -> Seq<char>
    decreases es.len(),
{
    if es.len() == 0 {
        Seq::empty()
    } else {
        render_edge(es[0]) + render_edges(es.drop_first())
    }
}

/// The text of a whole path: its initial entity, then its edges.
pub open spec fn render_path(p: PathModel) -> Seq<char> {
    render_entity(p.init) + render_edges(p.edges)
}

/// The tokens a label list written at `off` lexes to: `Colon Ident` per
/// label, with the spans of the written text.
pub open spec fn labels_toks(ls: Seq<Seq<char>>, off: int) -> Seq<TokenData>
    decreases ls.len(),
{
    if ls.len() == 0 {
        Seq::empty()
    } else {
        seq![
            (Token::Colon, Span { offset: off as usize, len: 1 }),
            (Token::Ident, Span { offset: (off + 1) as usize, len: ls[0].len() as usize }),
        ] + labels_toks(ls.drop_first(), off + 1 + ls[0].len())
    }
}

/// The tokens an entity written at `off` lexes to.
pub open spec fn entity_toks(e: EntityModel, off: int) -> Seq<TokenData> {
    let vlen: int = match e.variable {
        Some(v) => v.len() as int,
        None => 0,
    };
    seq![(Token::LParen, Span { offset: off as usize, len: 1 })] + (match e.variable {
        Some(v) => seq![
            (Token::Ident, Span { offset: (off + 1) as usize, len: v.len() as usize }),
        ],
        None => Seq::empty(),
    }) + labels_toks(e.labels, off + 1 + vlen) + seq![
        (Token::RParen, Span { offset: (off + render_entity(e).len() - 1) as usize, len: 1 }),
    ]
}

/// The tokens a relation written at `off` lexes to: always five.
pub open spec fn relation_toks(r: RelationModel, off: int) -> Seq<TokenData> {
    let vl: int = r.variable.len() as int;
    match r.dir {
        Direction::Undirected => seq![
            (Token::Dash, Span { offset: off as usize, len: 1 }),
            (Token::LBrace, Span { offset: (off + 1) as usize, len: 1 }),
            (Token::Ident, Span { offset: (off + 2) as usize, len: r.variable.len() as usize }),
            (Token::RBrace, Span { offset: (off + 2 + vl) as usize, len: 1 }),
            (Token::Dash, Span { offset: (off + 3 + vl) as usize, len: 1 }),
        ],
        Direction::Left => seq![
            (Token::LArrow, Span { offset: off as usize, len: 2 }),
            (Token::LBrace, Span { offset: (off + 2) as usize, len: 1 }),
            (Token::Ident, Span { offset: (off + 3) as usize, len: r.variable.len() as usize }),
            (Token::RBrace, Span { offset: (off + 3 + vl) as usize, len: 1 }),
            (Token::Dash, Span { offset: (off + 4 + vl) as usize, len: 1 }),
        ],
        Direction::Right => seq![
            (Token::Dash, Span { offset: off as usize, len: 1 }),
            (Token::LBrace, Span { offset: (off + 1) as usize, len: 1 }),
            (Token::Ident, Span { offset: (off + 2) as usize, len: r.variable.len() as usize }),
            (Token::RBrace, Span { offset: (off + 2 + vl) as usize, len: 1 }),
            (Token::RArrow, Span { offset: (off + 3 + vl) as usize, len: 2 }),
        ],
    }
}

/// The tokens an edge written at `off` lexes to.
pub open spec fn edge_toks(ed: EdgeModel, off: int) -> Seq<TokenData> {
    relation_toks(ed.relation, off) + entity_toks(
        ed.entity,
        off + render_relation(ed.relation).len(),
    )
}

/// The tokens an edge list written at `off` lexes to, in order.
pub open spec fn edges_toks(es: Seq<EdgeModel>, off: int) -> Seq<TokenData>
    decreases es.len(),
{
    if es.len() == 0 {
        Seq::empty()
    } else {
        edge_toks(es[0], off) + edges_toks(es.drop_first(), off + render_edge(es[0]).len())
    }
}

/// How a piece of text relates the lex of the suffix at `i` to the lex of
/// the suffix at `j`: the piece between them lexes to exactly the tokens
/// `ts`, put in front of whatever follows; an error after `j` is the error
/// at `i` too.
pub open spec fn lex_prepends(s: Seq<char>, i: int, j: int, ts: Seq<TokenData>) -> bool {
    match lex_from(s, j) {
        Ok(rest) => lex_from(s, i) == Ok::<Seq<TokenData>, crate::lexer::Error>(ts + rest),
        Err(e) => lex_from(s, i) == Err::<Seq<TokenData>, crate::lexer::Error>(e),
    }
}

/// One lexing step: a single token taken off the front.
proof fn lemma_lex_step(s: Seq<char>, i: int, j: int, t: TokenData)
    requires
        lex_from(s, i) == prepend_token(t, lex_from(s, j)),
    ensures
        lex_prepends(s, i, j, seq![t]),
{
}

/// Two adjacent pieces of text lex one after the other.
proof fn lemma_lex_prepends_trans(
    s: Seq<char>,
    i: int,
    m: int,
    j: int,
    ts1: Seq<TokenData>,
    ts2: Seq<TokenData>,
)
    requires
        lex_prepends(s, i, m, ts1),
        lex_prepends(s, m, j, ts2),
    ensures
        lex_prepends(s, i, j, ts1 + ts2),
{
    match lex_from(s, j) {
        Ok(rest) => {
            assert(ts1 + (ts2 + rest) =~= (ts1 + ts2) + rest);
        },
        Err(_) => {},
    }
}

/// A run of identifier characters over `[a, b)` that stops at `b` ends at
/// `b`.
proof fn lemma_ident_end_of_run(s: Seq<char>, a: int, b: int)
    requires
        0 <= a <= b <= s.len(),
        forall|k: int| a <= k < b ==> is_ident_char(#[trigger] s[k]),
        b == s.len() || !is_ident_char(s[b]),
    ensures
        ident_end(s, a) == b,
    decreases b - a,
{
    if a < b {
        lemma_ident_end_of_run(s, a + 1, b);
    }
}

/// A maximal nonempty run of identifier characters lexes to one `Ident`
/// spanning the whole run.
proof fn lemma_lex_ident_run(s: Seq<char>, i: int, j: int)
    requires
        0 <= i < j <= s.len(),
        forall|k: int| i <= k < j ==> is_ident_char(#[trigger] s[k]),
        j == s.len() || !is_ident_char(s[j]),
    ensures
        lex_prepends(
            s,
            i,
            j,
            seq![(Token::Ident, Span { offset: i as usize, len: (j - i) as usize })],
        ),
{
    lemma_ident_end_of_run(s, i + 1, j);
    let t = (Token::Ident, Span { offset: i as usize, len: (j - i) as usize });
    assert(lex_from(s, i) == prepend_token(t, lex_from(s, j)));
    lemma_lex_step(s, i, j, t);
}

/// The token kind of each single-character token.
pub open spec fn single_kind(c: char) -> Token {
    if c == ':' {
        Token::Colon
    } else if c == '(' {
        Token::LParen
    } else if c == ')' {
        Token::RParen
    } else if c == '[' {
        Token::LBrace
    } else {
        Token::RBrace
    }
}

/// A single-character token lexes to itself.
proof fn lemma_lex_single(s: Seq<char>, a: int)
    requires
        0 <= a < s.len(),
        s[a] == ':' || s[a] == '(' || s[a] == ')' || s[a] == '[' || s[a] == ']',
    ensures
        lex_prepends(s, a, a + 1, seq![(single_kind(s[a]), Span { offset: a as usize, len: 1 })]),
{
    let t = (single_kind(s[a]), Span { offset: a as usize, len: 1 });
    assert(lex_from(s, a) == prepend_token(t, lex_from(s, a + 1)));
    lemma_lex_step(s, a, a + 1, t);
}

/// A `-` not followed by `>` lexes to a `Dash`.
proof fn lemma_lex_dash(s: Seq<char>, a: int)
    requires
        0 <= a < s.len(),
        s[a] == '-',
        a + 1 == s.len() || s[a + 1] != '>',
    ensures
        lex_prepends(s, a, a + 1, seq![(Token::Dash, Span { offset: a as usize, len: 1 })]),
{
    let t = (Token::Dash, Span { offset: a as usize, len: 1 });
    assert(lex_from(s, a) == prepend_token(t, lex_from(s, a + 1)));
    lemma_lex_step(s, a, a + 1, t);
}

/// `<-` lexes to one `LArrow`.
proof fn lemma_lex_larrow(s: Seq<char>, a: int)
    requires
        0 <= a,
        a + 1 < s.len(),
        s[a] == '<',
        s[a + 1] == '-',
    ensures
        lex_prepends(s, a, a + 2, seq![(Token::LArrow, Span { offset: a as usize, len: 2 })]),
{
    let t = (Token::LArrow, Span { offset: a as usize, len: 2 });
    assert(lex_from(s, a) == prepend_token(t, lex_from(s, a + 2)));
    lemma_lex_step(s, a, a + 2, t);
}

/// `->` lexes to one `RArrow`.
proof fn lemma_lex_rarrow(s: Seq<char>, a: int)
    requires
        0 <= a,
        a + 1 < s.len(),
        s[a] == '-',
        s[a + 1] == '>',
    ensures
        lex_prepends(s, a, a + 2, seq![(Token::RArrow, Span { offset: a as usize, len: 2 })]),
{
    let t = (Token::RArrow, Span { offset: a as usize, len: 2 });
    assert(lex_from(s, a) == prepend_token(t, lex_from(s, a + 2)));
    lemma_lex_step(s, a, a + 2, t);
}

/// The rendering of a valid label list, standing right before a `)`, lexes
/// to exactly its tokens.
proof fn lemma_lex_labels(s: Seq<char>, i: int, j: int, ls: Seq<Seq<char>>)
    requires
        0 <= i <= j,
        j < s.len(),
        s.subrange(i, j) == render_labels(ls),
        forall|k: int| 0 <= k < ls.len() ==> valid_ident(#[trigger] ls[k]),
        s[j] == ')',
    ensures
        lex_prepends(s, i, j, labels_toks(ls, i)),
    decreases ls.len(),
{
    if ls.len() == 0 {
        assert(j - i == render_labels(ls).len());
        assert(i == j);
        match lex_from(s, j) {
            Ok(rest) => {
                assert(labels_toks(ls, i) + rest =~= rest);
            },
            Err(_) => {},
        }
    } else {
        let l0 = ls[0];
        let rest = ls.drop_first();
        let vl = l0.len() as int;
        let seg = render_labels(ls);
        assert(seg == seq![':'] + l0 + render_labels(rest));
        assert(j - i == seg.len());
        let q = i + 1 + vl;
        assert(s.subrange(i, j)[0] == seg[0]);
        assert(s[i] == ':');
        assert forall|k: int| i + 1 <= k < q implies is_ident_char(#[trigger] s[k]) by {
            assert(s.subrange(i, j)[k - i] == seg[k - i]);
            assert(seg[k - i] == l0[k - i - 1]);
        }
        if rest.len() == 0 {
            assert(q == j);
        } else {
            assert(s.subrange(i, j)[q - i] == seg[q - i]);
            assert(render_labels(rest)[0] == ':');
            assert(seg[q - i] == ':');
        }
        assert(!is_ident_char(s[q]));
        lemma_lex_single(s, i);
        lemma_lex_ident_run(s, i + 1, q);
        assert(s.subrange(q, j) =~= render_labels(rest)) by {
            assert forall|k: int| 0 <= k < j - q implies s.subrange(q, j)[k] == render_labels(
                rest,
            )[k] by {
                assert(s.subrange(i, j)[q - i + k] == seg[q - i + k]);
                assert(seg[q - i + k] == render_labels(rest)[k]);
            }
        }
        assert forall|k: int| 0 <= k < rest.len() implies valid_ident(#[trigger] rest[k]) by {
            assert(rest[k] == ls[k + 1]);
        }
        lemma_lex_labels(s, q, j, rest);
        let colon_t = (Token::Colon, Span { offset: i as usize, len: 1 });
        let ident_t = (Token::Ident, Span { offset: (i + 1) as usize, len: l0.len() as usize });
        lemma_lex_prepends_trans(s, i, i + 1, q, seq![colon_t], seq![ident_t]);
        lemma_lex_prepends_trans(s, i, q, j, seq![colon_t] + seq![ident_t], labels_toks(rest, q));
        assert((seq![colon_t] + seq![ident_t]) + labels_toks(rest, q) =~= labels_toks(ls, i));
    }
}

/// The rendering of a valid entity lexes to exactly its tokens.
proof fn lemma_lex_entity(s: Seq<char>, i: int, j: int, e: EntityModel)
    requires
        0 <= i <= j <= s.len(),
        s.subrange(i, j) == render_entity(e),
        valid_entity(e),
    ensures
        lex_prepends(s, i, j, entity_toks(e, i)),
{
    let seg = render_entity(e);
    let vlen: int = match e.variable {
        Some(v) => v.len() as int,
        None => 0,
    };
    let rl = render_labels(e.labels);
    assert(seg.len() == 1 + vlen + rl.len() + 1);
    assert(j - i == seg.len());
    let q = i + 1 + vlen;
    assert(s.subrange(i, j)[0] == seg[0]);
    assert(s[i] == '(');
    lemma_lex_single(s, i);
    assert(s.subrange(i, j)[j - 1 - i] == seg[j - 1 - i]);
    assert(seg[j - 1 - i] == ')');
    assert(s[j - 1] == ')');
    let lparen_t = (Token::LParen, Span { offset: i as usize, len: 1 });
    let rparen_t = (Token::RParen, Span { offset: (j - 1) as usize, len: 1 });
    let tsv = match e.variable {
        Some(v) => seq![lparen_t] + seq![
            (Token::Ident, Span { offset: (i + 1) as usize, len: v.len() as usize }),
        ],
        None => seq![lparen_t],
    };
    match e.variable {
        Some(v) => {
            assert forall|k: int| i + 1 <= k < q implies is_ident_char(#[trigger] s[k]) by {
                assert(s.subrange(i, j)[k - i] == seg[k - i]);
                assert(seg[k - i] == v[k - i - 1]);
            }
            assert(s.subrange(i, j)[q - i] == seg[q - i]);
            if e.labels.len() == 0 {
                assert(seg[q - i] == ')');
            } else {
                assert(rl[0] == ':');
                assert(seg[q - i] == ':');
            }
            assert(!is_ident_char(s[q]));
            lemma_lex_ident_run(s, i + 1, q);
            lemma_lex_prepends_trans(
                s,
                i,
                i + 1,
                q,
                seq![lparen_t],
                seq![(Token::Ident, Span { offset: (i + 1) as usize, len: v.len() as usize })],
            );
        },
        None => {},
    }
    assert(s.subrange(q, j - 1) =~= rl) by {
        assert forall|k: int| 0 <= k < rl.len() implies s.subrange(q, j - 1)[k] == rl[k] by {
            assert(s.subrange(i, j)[q - i + k] == seg[q - i + k]);
            assert(seg[q - i + k] == rl[k]);
        }
    }
    lemma_lex_labels(s, q, j - 1, e.labels);
    lemma_lex_single(s, j - 1);
    lemma_lex_prepends_trans(s, i, q, j - 1, tsv, labels_toks(e.labels, q));
    lemma_lex_prepends_trans(s, i, j - 1, j, tsv + labels_toks(e.labels, q), seq![rparen_t]);
    assert((tsv + labels_toks(e.labels, q)) + seq![rparen_t] =~= entity_toks(e, i));
}

/// The rendering of a valid relation, not followed by a `>`, lexes to
/// exactly its tokens.
proof fn lemma_lex_relation(s: Seq<char>, i: int, j: int, r: RelationModel)
    requires
        0 <= i <= j <= s.len(),
        s.subrange(i, j) == render_relation(r),
        valid_relation(r),
        j == s.len() || s[j] != '>',
    ensures
        lex_prepends(s, i, j, relation_toks(r, i)),
{
    let seg = render_relation(r);
    let v = r.variable;
    let vl = v.len() as int;
    assert(j - i == seg.len());
    let ident_t2 = (Token::Ident, Span { offset: (i + 2) as usize, len: v.len() as usize });
    let ident_t3 = (Token::Ident, Span { offset: (i + 3) as usize, len: v.len() as usize });
    match r.dir {
        Direction::Undirected => {
            assert(seg.len() == 4 + vl);
            assert(s.subrange(i, j)[0] == seg[0]);
            assert(s[i] == '-');
            assert(s.subrange(i, j)[1] == seg[1]);
            assert(s[i + 1] == '[');
            assert forall|k: int| i + 2 <= k < i + 2 + vl implies is_ident_char(
                #[trigger] s[k],
            ) by {
                assert(s.subrange(i, j)[k - i] == seg[k - i]);
                assert(seg[k - i] == v[k - i - 2]);
            }
            assert(s.subrange(i, j)[j - 2 - i] == seg[j - 2 - i]);
            assert(s[j - 2] == ']');
            assert(s.subrange(i, j)[j - 1 - i] == seg[j - 1 - i]);
            assert(s[j - 1] == '-');
            lemma_lex_dash(s, i);
            lemma_lex_single(s, i + 1);
            lemma_lex_ident_run(s, i + 2, i + 2 + vl);
            lemma_lex_single(s, j - 2);
            lemma_lex_dash(s, j - 1);
            let t1 = (Token::Dash, Span { offset: i as usize, len: 1 });
            let t2 = (Token::LBrace, Span { offset: (i + 1) as usize, len: 1 });
            let t4 = (Token::RBrace, Span { offset: (j - 2) as usize, len: 1 });
            let t5 = (Token::Dash, Span { offset: (j - 1) as usize, len: 1 });
            lemma_lex_prepends_trans(s, i, i + 1, i + 2, seq![t1], seq![t2]);
            lemma_lex_prepends_trans(s, i, i + 2, j - 2, seq![t1] + seq![t2], seq![ident_t2]);
            lemma_lex_prepends_trans(
                s,
                i,
                j - 2,
                j - 1,
                (seq![t1] + seq![t2]) + seq![ident_t2],
                seq![t4],
            );
            lemma_lex_prepends_trans(
                s,
                i,
                j - 1,
                j,
                ((seq![t1] + seq![t2]) + seq![ident_t2]) + seq![t4],
                seq![t5],
            );
            assert((((seq![t1] + seq![t2]) + seq![ident_t2]) + seq![t4]) + seq![t5]
                =~= relation_toks(r, i));
        },
        Direction::Left => {
            assert(seg.len() == 5 + vl);
            assert(s.subrange(i, j)[0] == seg[0]);
            assert(s[i] == '<');
            assert(s.subrange(i, j)[1] == seg[1]);
            assert(s[i + 1] == '-');
            assert(s.subrange(i, j)[2] == seg[2]);
            assert(s[i + 2] == '[');
            assert forall|k: int| i + 3 <= k < i + 3 + vl implies is_ident_char(
                #[trigger] s[k],
            ) by {
                assert(s.subrange(i, j)[k - i] == seg[k - i]);
                assert(seg[k - i] == v[k - i - 3]);
            }
            assert(s.subrange(i, j)[j - 2 - i] == seg[j - 2 - i]);
            assert(s[j - 2] == ']');
            assert(s.subrange(i, j)[j - 1 - i] == seg[j - 1 - i]);
            assert(s[j - 1] == '-');
            lemma_lex_larrow(s, i);
            lemma_lex_single(s, i + 2);
            lemma_lex_ident_run(s, i + 3, i + 3 + vl);
            lemma_lex_single(s, j - 2);
            lemma_lex_dash(s, j - 1);
            let t1 = (Token::LArrow, Span { offset: i as usize, len: 2 });
            let t2 = (Token::LBrace, Span { offset: (i + 2) as usize, len: 1 });
            let t4 = (Token::RBrace, Span { offset: (j - 2) as usize, len: 1 });
            let t5 = (Token::Dash, Span { offset: (j - 1) as usize, len: 1 });
            lemma_lex_prepends_trans(s, i, i + 2, i + 3, seq![t1], seq![t2]);
            lemma_lex_prepends_trans(s, i, i + 3, j - 2, seq![t1] + seq![t2], seq![ident_t3]);
            lemma_lex_prepends_trans(
                s,
                i,
                j - 2,
                j - 1,
                (seq![t1] + seq![t2]) + seq![ident_t3],
                seq![t4],
            );
            lemma_lex_prepends_trans(
                s,
                i,
                j - 1,
                j,
                ((seq![t1] + seq![t2]) + seq![ident_t3]) + seq![t4],
                seq![t5],
            );
            assert((((seq![t1] + seq![t2]) + seq![ident_t3]) + seq![t4]) + seq![t5]
                =~= relation_toks(r, i));
        },
        Direction::Right => {
            assert(seg.len() == 5 + vl);
            assert(s.subrange(i, j)[0] == seg[0]);
            assert(s[i] == '-');
            assert(s.subrange(i, j)[1] == seg[1]);
            assert(s[i + 1] == '[');
            assert forall|k: int| i + 2 <= k < i + 2 + vl implies is_ident_char(
                #[trigger] s[k],
            ) by {
                assert(s.subrange(i, j)[k - i] == seg[k - i]);
                assert(seg[k - i] == v[k - i - 2]);
            }
            assert(s.subrange(i, j)[j - 3 - i] == seg[j - 3 - i]);
            assert(s[j - 3] == ']');
            assert(s.subrange(i, j)[j - 2 - i] == seg[j - 2 - i]);
            assert(s[j - 2] == '-');
            assert(s.subrange(i, j)[j - 1 - i] == seg[j - 1 - i]);
            assert(s[j - 1] == '>');
            lemma_lex_dash(s, i);
            lemma_lex_single(s, i + 1);
            lemma_lex_ident_run(s, i + 2, i + 2 + vl);
            lemma_lex_single(s, j - 3);
            lemma_lex_rarrow(s, j - 2);
            let t1 = (Token::Dash, Span { offset: i as usize, len: 1 });
            let t2 = (Token::LBrace, Span { offset: (i + 1) as usize, len: 1 });
            let t4 = (Token::RBrace, Span { offset: (j - 3) as usize, len: 1 });
            let t5 = (Token::RArrow, Span { offset: (j - 2) as usize, len: 2 });
            lemma_lex_prepends_trans(s, i, i + 1, i + 2, seq![t1], seq![t2]);
            lemma_lex_prepends_trans(s, i, i + 2, j - 3, seq![t1] + seq![t2], seq![ident_t2]);
            lemma_lex_prepends_trans(
                s,
                i,
                j - 3,
                j - 2,
                (seq![t1] + seq![t2]) + seq![ident_t2],
                seq![t4],
            );
            lemma_lex_prepends_trans(
                s,
                i,
                j - 2,
                j,
                ((seq![t1] + seq![t2]) + seq![ident_t2]) + seq![t4],
                seq![t5],
            );
            assert((((seq![t1] + seq![t2]) + seq![ident_t2]) + seq![t4]) + seq![t5]
                =~= relation_toks(r, i));
        },
    }
}

/// The rendering of a valid edge lexes to exactly its tokens.
proof fn lemma_lex_edge(s: Seq<char>, i: int, j: int, ed: EdgeModel)
    requires
        0 <= i <= j <= s.len(),
        s.subrange(i, j) == render_edge(ed),
        valid_edge(ed),
    ensures
        lex_prepends(s, i, j, edge_toks(ed, i)),
{
    let rr = render_relation(ed.relation);
    let re = render_entity(ed.entity);
    let m = i + rr.len() as int;
    assert(s.subrange(i, j).len() == j - i);
    assert(render_edge(ed).len() == rr.len() + re.len());
    assert(j - i == rr.len() + re.len());
    assert(s.subrange(i, m) =~= rr) by {
        assert forall|k: int| 0 <= k < rr.len() implies s.subrange(i, m)[k] == rr[k] by {
            assert(s.subrange(i, j)[k] == render_edge(ed)[k]);
        }
    }
    assert(s.subrange(m, j) =~= re) by {
        assert forall|k: int| 0 <= k < re.len() implies s.subrange(m, j)[k] == re[k] by {
            assert(s.subrange(i, j)[m - i + k] == render_edge(ed)[m - i + k]);
        }
    }
    let vlen: int = match ed.entity.variable {
        Some(v) => v.len() as int,
        None => 0,
    };
    assert(re.len() == 1 + vlen + render_labels(ed.entity.labels).len() + 1);
    assert(re[0] == '(');
    assert(s.subrange(m, j)[0] == re[0]);
    assert(s[m] == '(');
    lemma_lex_relation(s, i, m, ed.relation);
    lemma_lex_entity(s, m, j, ed.entity);
    lemma_lex_prepends_trans(s, i, m, j, relation_toks(ed.relation, i), entity_toks(
        ed.entity,
        m,
    ));
}

/// The rendering of a valid edge list, standing at the end of the text,
/// lexes to exactly its tokens.
proof fn lemma_lex_edges(s: Seq<char>, i: int, es: Seq<EdgeModel>)
    requires
        0 <= i <= s.len(),
        s.subrange(i, s.len() as int) == render_edges(es),
        forall|k: int| 0 <= k < es.len() ==> valid_edge(#[trigger] es[k]),
    ensures
        lex_prepends(s, i, s.len() as int, edges_toks(es, i)),
    decreases es.len(),
{
    let n = s.len() as int;
    if es.len() == 0 {
        assert(n - i == render_edges(es).len());
        assert(i == n);
        match lex_from(s, n) {
            Ok(rest) => {
                assert(edges_toks(es, i) + rest =~= rest);
            },
            Err(_) => {},
        }
    } else {
        let ed = es[0];
        let rest = es.drop_first();
        let m = i + render_edge(ed).len() as int;
        assert(render_edges(es) == render_edge(ed) + render_edges(rest));
        assert(n - i == render_edges(es).len());
        assert(s.subrange(i, m) =~= render_edge(ed)) by {
            assert forall|k: int| 0 <= k < render_edge(ed).len() implies s.subrange(i, m)[k]
                == render_edge(ed)[k] by {
                assert(s.subrange(i, n)[k] == render_edges(es)[k]);
            }
        }
        assert(s.subrange(m, n) =~= render_edges(rest)) by {
            assert forall|k: int| 0 <= k < render_edges(rest).len() implies s.subrange(m, n)[k]
                == render_edges(rest)[k] by {
                assert(s.subrange(i, n)[m - i + k] == render_edges(es)[m - i + k]);
            }
        }
        assert forall|k: int| 0 <= k < rest.len() implies valid_edge(#[trigger] rest[k]) by {
            assert(rest[k] == es[k + 1]);
        }
        lemma_lex_edge(s, i, m, ed);
        lemma_lex_edges(s, m, rest);
        lemma_lex_prepends_trans(s, i, m, n, edge_toks(ed, i), edges_toks(rest, m));
        assert(edge_toks(ed, i) + edges_toks(rest, m) =~= edges_toks(es, i));
    }
}

/// On a stream holding a label list's tokens, whose text stands in the
/// source, label parsing succeeds, stops exactly after the list, and reads
/// back exactly the written labels.
proof fn lemma_parse_labels_values(
    src: Seq<char>,
    toks: Seq<TokenData>,
    i: int,
    off: int,
    ls: Seq<Seq<char>>,
)
    requires
        0 <= i,
        0 <= off,
        src.len() <= usize::MAX,
        off + render_labels(ls).len() <= src.len(),
        src.subrange(off, off + render_labels(ls).len() as int) == render_labels(ls),
        i + labels_toks(ls, off).len() <= toks.len(),
        toks.subrange(i, i + labels_toks(ls, off).len() as int) == labels_toks(ls, off),
        i + labels_toks(ls, off).len() == toks.len() || toks[i + labels_toks(
            ls,
            off,
        ).len() as int].0 != Token::Colon,
    ensures
        spec_parse_labels(src, toks, i) is Ok,
        spec_parse_labels(src, toks, i)->Ok_0.1 == i + labels_toks(ls, off).len(),
        spec_parse_labels(src, toks, i)->Ok_0.0 == ls,
    decreases ls.len(),
{
    let lt = labels_toks(ls, off);
    let n = lt.len() as int;
    if ls.len() == 0 {
        assert(Seq::<Seq<char>>::empty() =~= ls);
    } else {
        let l0 = ls[0];
        let rest = ls.drop_first();
        let vl = l0.len() as int;
        let off2 = off + 1 + vl;
        let lt_rest = labels_toks(rest, off2);
        let colon_t = (Token::Colon, Span { offset: off as usize, len: 1 });
        let ident_t = (Token::Ident, Span { offset: (off + 1) as usize, len: l0.len() as usize });
        assert(lt == seq![colon_t, ident_t] + lt_rest);
        assert(n == 2 + lt_rest.len());
        assert(toks.subrange(i, i + n)[0] == lt[0]);
        assert(toks[i] == colon_t);
        assert(toks.subrange(i, i + n)[1] == lt[1]);
        assert(toks[i + 1] == ident_t);
        let seg = render_labels(ls);
        assert(seg == seq![':'] + l0 + render_labels(rest));
        assert(span_text(src, ident_t.1) =~= l0) by {
            assert forall|k: int| 0 <= k < vl implies span_text(src, ident_t.1)[k] == l0[k] by {
                assert(src.subrange(off, off + seg.len() as int)[1 + k] == seg[1 + k]);
                assert(seg[1 + k] == l0[k]);
            }
        }
        assert(src.subrange(off2, off2 + render_labels(rest).len() as int) =~= render_labels(
            rest,
        )) by {
            assert forall|k: int| 0 <= k < render_labels(rest).len() implies src.subrange(
                off2,
                off2 + render_labels(rest).len() as int,
            )[k] == render_labels(rest)[k] by {
                assert(src.subrange(off, off + seg.len() as int)[1 + vl + k] == seg[1 + vl + k]);
                assert(seg[1 + vl + k] == render_labels(rest)[k]);
            }
        }
        assert(toks.subrange(i + 2, i + 2 + lt_rest.len() as int) =~= lt_rest) by {
            assert forall|k: int| 0 <= k < lt_rest.len() implies toks.subrange(
                i + 2,
                i + 2 + lt_rest.len() as int,
            )[k] == lt_rest[k] by {
                assert(toks.subrange(i, i + n)[2 + k] == lt[2 + k]);
                assert(lt[2 + k] == lt_rest[k]);
            }
        }
        lemma_parse_labels_values(src, toks, i + 2, off2, rest);
        assert(spec_parse_labels(src, toks, i)->Ok_0.0 =~= ls) by {
            let got_rest = spec_parse_labels(src, toks, i + 2)->Ok_0.0;
            assert(spec_parse_labels(src, toks, i)->Ok_0.0 == seq![
                span_text(src, toks[i + 1].1),
            ] + got_rest);
            assert forall|k: int| 0 <= k < ls.len() implies (seq![span_text(src, toks[i + 1].1)]
                + got_rest)[k] == ls[k] by {
                if k > 0 {
                    assert(got_rest[k - 1] == rest[k - 1]);
                    assert(rest[k - 1] == ls[k]);
                }
            }
        }
    }
}

/// On a stream holding an entity's tokens, whose text stands in the source,
/// entity parsing succeeds, stops exactly after the entity, and reads back
/// exactly the written entity.
proof fn lemma_parse_entity_values(
    src: Seq<char>,
    toks: Seq<TokenData>,
    i: int,
    off: int,
    e: EntityModel,
)
    requires
        0 <= i,
        0 <= off,
        src.len() <= usize::MAX,
        off + render_entity(e).len() <= src.len(),
        src.subrange(off, off + render_entity(e).len() as int) == render_entity(e),
        i + entity_toks(e, off).len() <= toks.len(),
        toks.subrange(i, i + entity_toks(e, off).len() as int) == entity_toks(e, off),
    ensures
        spec_parse_entity(src, toks, i) is Ok,
        spec_parse_entity(src, toks, i)->Ok_0.1 == i + entity_toks(e, off).len(),
        spec_parse_entity(src, toks, i)->Ok_0.0 == e,
{
    let et = entity_toks(e, off);
    let n = et.len() as int;
    let seg = render_entity(e);
    let vlen: int = match e.variable {
        Some(v) => v.len() as int,
        None => 0,
    };
    let vtok: int = match e.variable {
        Some(_) => 1,
        None => 0,
    };
    let q_off = off + 1 + vlen;
    let lt = labels_toks(e.labels, q_off);
    let rl = render_labels(e.labels);
    assert(seg.len() == 1 + vlen + rl.len() + 1);
    assert(n == 1 + vtok + lt.len() + 1);
    let lparen_t = (Token::LParen, Span { offset: off as usize, len: 1 });
    let rparen_t = (Token::RParen, Span {
        offset: (off + render_entity(e).len() - 1) as usize,
        len: 1,
    });
    assert(toks.subrange(i, i + n)[0] == et[0]);
    assert(et[0] == lparen_t);
    assert(toks[i].0 == Token::LParen);
    assert(toks.subrange(i, i + n)[n - 1] == et[n - 1]);
    assert(et[n - 1] == rparen_t);
    assert(toks[i + n - 1].0 == Token::RParen);
    let pi = i + 1 + vtok;
    assert(toks.subrange(i, i + n)[1] == et[1]);
    match e.variable {
        Some(v) => {
            let ident_t = (Token::Ident, Span {
                offset: (off + 1) as usize,
                len: v.len() as usize,
            });
            assert(et[1] == ident_t);
            assert(toks[i + 1] == ident_t);
            assert(span_text(src, ident_t.1) =~= v) by {
                assert forall|k: int| 0 <= k < vlen implies span_text(src, ident_t.1)[k]
                    == v[k] by {
                    assert(src.subrange(off, off + seg.len() as int)[1 + k] == seg[1 + k]);
                    assert(seg[1 + k] == v[k]);
                }
            }
        },
        None => {
            if e.labels.len() == 0 {
                assert(et[1] == rparen_t);
            } else {
                assert(et[1] == lt[0]);
                assert(lt[0] == (Token::Colon, Span { offset: q_off as usize, len: 1 }));
            }
            assert(toks[i + 1].0 != Token::Ident);
        },
    }
    assert(src.subrange(q_off, q_off + rl.len() as int) =~= rl) by {
        assert forall|k: int| 0 <= k < rl.len() implies src.subrange(
            q_off,
            q_off + rl.len() as int,
        )[k] == rl[k] by {
            assert(src.subrange(off, off + seg.len() as int)[1 + vlen + k] == seg[1 + vlen + k]);
            assert(seg[1 + vlen + k] == rl[k]);
        }
    }
    assert(toks.subrange(pi, pi + lt.len() as int) =~= lt) by {
        assert forall|k: int| 0 <= k < lt.len() implies toks.subrange(pi, pi + lt.len() as int)[k]
            == lt[k] by {
            assert(toks.subrange(i, i + n)[1 + vtok + k] == et[1 + vtok + k]);
            assert(et[1 + vtok + k] == lt[k]);
        }
    }
    assert(pi + lt.len() == i + n - 1);
    assert(toks[pi + lt.len() as int].0 == Token::RParen);
    lemma_parse_labels_values(src, toks, pi, q_off, e.labels);
    assert(spec_parse_entity(src, toks, i)->Ok_0.0 =~= e);
}

/// On a stream holding a relation's tokens, whose text stands in the
/// source, relation parsing succeeds, stops five tokens later, and reads
/// back exactly the written relation.
proof fn lemma_parse_relation_values(
    src: Seq<char>,
    toks: Seq<TokenData>,
    i: int,
    off: int,
    r: RelationModel,
)
    requires
        0 <= i,
        0 <= off,
        src.len() <= usize::MAX,
        off + render_relation(r).len() <= src.len(),
        src.subrange(off, off + render_relation(r).len() as int) == render_relation(r),
        i + 5 <= toks.len(),
        toks.subrange(i, i + 5) == relation_toks(r, off),
    ensures
        spec_parse_relation(src, toks, i) is Ok,
        spec_parse_relation(src, toks, i)->Ok_0.1 == i + 5,
        spec_parse_relation(src, toks, i)->Ok_0.0 == r,
{
    let rt = relation_toks(r, off);
    let seg = render_relation(r);
    let vl = r.variable.len() as int;
    assert(toks.subrange(i, i + 5)[0] == rt[0]);
    assert(toks.subrange(i, i + 5)[1] == rt[1]);
    assert(toks.subrange(i, i + 5)[2] == rt[2]);
    assert(toks.subrange(i, i + 5)[3] == rt[3]);
    assert(toks.subrange(i, i + 5)[4] == rt[4]);
    let vstart: int = match r.dir {
        Direction::Left => 3,
        _ => 2,
    };
    let ident_t = (Token::Ident, Span {
        offset: (off + vstart) as usize,
        len: r.variable.len() as usize,
    });
    assert(rt[2] == ident_t);
    assert(span_text(src, ident_t.1) =~= r.variable) by {
        assert forall|k: int| 0 <= k < vl implies span_text(src, ident_t.1)[k]
            == r.variable[k] by {
            assert(src.subrange(off, off + seg.len() as int)[vstart + k] == seg[vstart + k]);
            assert(seg[vstart + k] == r.variable[k]);
        }
    }
    assert(spec_parse_relation(src, toks, i)->Ok_0.0 =~= r);
}

/// On a stream holding an edge's tokens, whose text stands in the source,
/// edge parsing succeeds, stops exactly after the edge, and reads back
/// exactly the written edge.
proof fn lemma_parse_edge_values(
    src: Seq<char>,
    toks: Seq<TokenData>,
    i: int,
    off: int,
    ed: EdgeModel,
)
    requires
        0 <= i,
        0 <= off,
        src.len() <= usize::MAX,
        off + render_edge(ed).len() <= src.len(),
        src.subrange(off, off + render_edge(ed).len() as int) == render_edge(ed),
        i + edge_toks(ed, off).len() <= toks.len(),
        toks.subrange(i, i + edge_toks(ed, off).len() as int) == edge_toks(ed, off),
    ensures
        spec_parse_edge(src, toks, i) is Ok,
        spec_parse_edge(src, toks, i)->Ok_0.1 == i + edge_toks(ed, off).len(),
        spec_parse_edge(src, toks, i)->Ok_0.0 == ed,
{
    let rt = relation_toks(ed.relation, off);
    let et = entity_toks(ed.entity, off + render_relation(ed.relation).len());
    let n = edge_toks(ed, off).len() as int;
    assert(rt.len() == 5);
    assert(n == 5 + et.len());
    let rr = render_relation(ed.relation);
    let re = render_entity(ed.entity);
    let m_off = off + rr.len() as int;
    assert(render_edge(ed).len() == rr.len() + re.len());
    assert(src.subrange(off, m_off) =~= rr) by {
        assert forall|k: int| 0 <= k < rr.len() implies src.subrange(off, m_off)[k] == rr[k] by {
            assert(src.subrange(off, off + render_edge(ed).len() as int)[k] == render_edge(
                ed,
            )[k]);
        }
    }
    assert(src.subrange(m_off, m_off + re.len() as int) =~= re) by {
        assert forall|k: int| 0 <= k < re.len() implies src.subrange(
            m_off,
            m_off + re.len() as int,
        )[k] == re[k] by {
            assert(src.subrange(off, off + render_edge(ed).len() as int)[rr.len() + k]
                == render_edge(ed)[rr.len() + k]);
        }
    }
    assert(toks.subrange(i, i + 5) =~= rt) by {
        assert forall|k: int| 0 <= k < 5 implies toks.subrange(i, i + 5)[k] == rt[k] by {
            assert(toks.subrange(i, i + n)[k] == edge_toks(ed, off)[k]);
        }
    }
    assert(toks.subrange(i + 5, i + 5 + et.len() as int) =~= et) by {
        assert forall|k: int| 0 <= k < et.len() implies toks.subrange(
            i + 5,
            i + 5 + et.len() as int,
        )[k] == et[k] by {
            assert(toks.subrange(i, i + n)[5 + k] == edge_toks(ed, off)[5 + k]);
        }
    }
    lemma_parse_relation_values(src, toks, i, off, ed.relation);
    lemma_parse_entity_values(src, toks, i + 5, m_off, ed.entity);
    assert(spec_parse_edge(src, toks, i)->Ok_0.0 =~= ed);
}

/// On a stream whose remaining tokens are exactly an edge list's, whose
/// text stands in the source, edge-list parsing succeeds, consumes the rest
/// of the stream, and reads back exactly the written edges, in order.
#[verifier::rlimit(50)]
proof fn lemma_parse_edges_values(
    src: Seq<char>,
    toks: Seq<TokenData>,
    i: int,
    off: int,
    es: Seq<EdgeModel>,
)
    requires
        0 <= i,
        0 <= off,
        src.len() <= usize::MAX,
        off + render_edges(es).len() <= src.len(),
        src.subrange(off, off + render_edges(es).len() as int) == render_edges(es),
        i + edges_toks(es, off).len() == toks.len(),
        toks.subrange(i, toks.len() as int) == edges_toks(es, off),
    ensures
        spec_parse_edges(src, toks, i) is Ok,
        spec_parse_edges(src, toks, i)->Ok_0.1 == toks.len(),
        spec_parse_edges(src, toks, i)->Ok_0.0 == es,
    decreases es.len(),
{
    if es.len() == 0 {
        assert(i == toks.len());
        assert(Seq::<EdgeModel>::empty() =~= es);
    } else {
        let ed = es[0];
        let rest = es.drop_first();
        let nt = edge_toks(ed, off).len() as int;
        let m_off = off + render_edge(ed).len() as int;
        assert(edges_toks(es, off) == edge_toks(ed, off) + edges_toks(rest, m_off));
        assert(render_edges(es) == render_edge(ed) + render_edges(rest));
        assert(toks.subrange(i, toks.len() as int)[0] == edges_toks(es, off)[0]);
        assert(edges_toks(es, off)[0] == edge_toks(ed, off)[0]);
        assert(edge_toks(ed, off)[0] == relation_toks(ed.relation, off)[0]);
        assert(is_edge_start(toks[i].0));
        assert(src.subrange(off, m_off) =~= render_edge(ed)) by {
            assert forall|k: int| 0 <= k < render_edge(ed).len() implies src.subrange(
                off,
                m_off,
            )[k] == render_edge(ed)[k] by {
                assert(src.subrange(off, off + render_edges(es).len() as int)[k] == render_edges(
                    es,
                )[k]);
            }
        }
        assert(src.subrange(m_off, m_off + render_edges(rest).len() as int) =~= render_edges(
            rest,
        )) by {
            assert forall|k: int| 0 <= k < render_edges(rest).len() implies src.subrange(
                m_off,
                m_off + render_edges(rest).len() as int,
            )[k] == render_edges(rest)[k] by {
                assert(src.subrange(off, off + render_edges(es).len() as int)[render_edge(
                    ed,
                ).len() + k] == render_edges(es)[render_edge(ed).len() + k]);
            }
        }
        assert(toks.subrange(i, i + nt) =~= edge_toks(ed, off)) by {
            assert forall|k: int| 0 <= k < nt implies toks.subrange(i, i + nt)[k] == edge_toks(
                ed,
                off,
            )[k] by {
                assert(toks.subrange(i, toks.len() as int)[k] == edges_toks(es, off)[k]);
            }
        }
        assert(toks.subrange(i + nt, toks.len() as int) =~= edges_toks(rest, m_off)) by {
            assert forall|k: int| 0 <= k < edges_toks(rest, m_off).len() implies toks.subrange(
                i + nt,
                toks.len() as int,
            )[k] == edges_toks(rest, m_off)[k] by {
                assert(toks.subrange(i, toks.len() as int)[nt + k] == edges_toks(es, off)[nt
                    + k]);
            }
        }
        lemma_parse_edge_values(src, toks, i, off, ed);
        lemma_parse_edges_values(src, toks, i + nt, m_off, rest);
        assert(spec_parse_edges(src, toks, i)->Ok_0.0 =~= es) by {
            let got_rest = spec_parse_edges(src, toks, i + nt)->Ok_0.0;
            assert(spec_parse_edges(src, toks, i)->Ok_0.0 == seq![
                spec_parse_edge(src, toks, i)->Ok_0.0,
            ] + got_rest);
            assert forall|k: int| 0 <= k < es.len() implies (seq![
                spec_parse_edge(src, toks, i)->Ok_0.0,
            ] + got_rest)[k] == es[k] by {
                if k > 0 {
                    assert(got_rest[k - 1] == rest[k - 1]);
                    assert(rest[k - 1] == es[k]);
                }
            }
        }
    }
}

/// The round-trip law: every string the grammar generates is accepted
/// whole. Tokenizing the rendering of a valid path succeeds; parsing the
/// tokens succeeds and consumes them all; and the parsed path is the very
/// path that was rendered — same variable names, same labels, same
/// directions, one edge per relation-entity pair written, in the same
/// left-to-right order. The rendering must fit in a real string.
pub proof fn theorem_grammar_round_trip(p: PathModel)
    requires
        valid_path(p),
        render_path(p).len() <= usize::MAX,
    ensures
        ({
            let s = render_path(p);
            &&& spec_tokenize(s) is Ok
            &&& spec_parse_path(s, spec_tokenize(s)->Ok_0, 0) is Ok
            &&& spec_parse_path(s, spec_tokenize(s)->Ok_0, 0)->Ok_0.0 == p
            &&& spec_parse_path(s, spec_tokenize(s)->Ok_0, 0)->Ok_0.1 == spec_tokenize(
                s,
            )->Ok_0.len()
        }),
{
    let s = render_path(p);
    let n = s.len() as int;
    let m = render_entity(p.init).len() as int;
    assert(s == render_entity(p.init) + render_edges(p.edges));
    assert(s.subrange(0, m) =~= render_entity(p.init));
    assert(s.subrange(m, n) =~= render_edges(p.edges));
    lemma_lex_entity(s, 0, m, p.init);
    lemma_lex_edges(s, m, p.edges);
    lemma_lex_prepends_trans(s, 0, m, n, entity_toks(p.init, 0), edges_toks(p.edges, m));
    assert(lex_from(s, n) == Ok::<Seq<TokenData>, crate::lexer::Error>(Seq::empty()));
    let full = entity_toks(p.init, 0) + edges_toks(p.edges, m);
    let toks = spec_tokenize(s)->Ok_0;
    assert(toks =~= full);
    let en = entity_toks(p.init, 0).len() as int;
    assert(toks.subrange(0, en) =~= entity_toks(p.init, 0)) by {
        assert forall|k: int| 0 <= k < en implies toks.subrange(0, en)[k] == entity_toks(
            p.init,
            0,
        )[k] by {
            assert(full[k] == entity_toks(p.init, 0)[k]);
        }
    }
    assert(toks.subrange(en, toks.len() as int) =~= edges_toks(p.edges, m)) by {
        assert forall|k: int| 0 <= k < edges_toks(p.edges, m).len() implies toks.subrange(
            en,
            toks.len() as int,
        )[k] == edges_toks(p.edges, m)[k] by {
            assert(full[en + k] == edges_toks(p.edges, m)[en + k - en]);
        }
    }
    lemma_parse_entity_values(s, toks, 0, 0, p.init);
    lemma_parse_edges_values(s, toks, en, m, p.edges);
    assert(spec_parse_path(s, toks, 0)->Ok_0.0 =~= p);
}

} // verus!
