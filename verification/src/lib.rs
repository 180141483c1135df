//! Recognizer for Cypher-style graph path patterns such as `(a:Person)-[b]->(c)`.
//!
//! The pipeline is strictly linear: source text is tokenized into a sequence
//! of spanned tokens, and a recursive-descent parser with one-token lookahead
//! builds the abstract syntax tree bottom-up. Variable and label names in the
//! tree are zero-copy slices into the original source text, so the tree must
//! not outlive the text it was parsed from.
use vstd::prelude::*;

pub mod ast;
pub mod grammar;
pub mod lexer;
pub mod parse;

verus! {

/// The single collapsed entry point: tokenize the source, then parse the
/// token stream into a [`ast::Path`]. Either failure domain (lexical or
/// syntactic) is collapsed into one opaque failure value.
pub fn parse<'src>(source: &'src str) -> (r: Result<ast::Path<'src>, ()>)
    ensures
        match lexer::spec_tokenize(source@) {
            Ok(toks) => match parse::spec_parse_path(source@, toks, 0) {
                Ok(pair) => r is Ok && r->Ok_0@ == pair.0,
                Err(_) => r is Err,
            },
            Err(_) => r is Err,
        },
{
    let tokens = match lexer::tokenize(source) {
        Ok(tokens) => tokens,
        Err(_) => {
            return Err(());
        },
    };
    let mut input = parse::ParseInput::new(source, tokens);
    proof {
        assert(input.wf());
    }
    match ast::Path::parse(&mut input) {
        Ok(path) => Ok(path),
        Err(_) => Err(()),
    }
}

} // verus!
