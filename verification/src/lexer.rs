//! Lexical analysis: turns raw source text into an ordered sequence of
//! spanned tokens, or fails on the first character that starts no token.
//!
//! The token language is fixed: maximal runs of ASCII letters or `_` form an
//! identifier; `:`, `(`, `)`, `[`, `]` are single-character tokens; `<-` and
//! `->` are two-character arrows; a lone `-` is a dash. The lexer skips no
//! whitespace: a space, like any other character, fails the whole run.
use vstd::prelude::*;

verus! {

/// A token tag. Carries no text: the matching [`Span`] locates the lexeme.
#[derive(Debug, Clone, Copy, PartialEq, Eq, Structural)]
pub enum Token {
    Ident,
    Colon,
    LParen,
    RParen,
    LBrace,
    RBrace,
    LArrow,
    RArrow,
    Dash,
}

/// A half-open region of the source text: characters `[offset, offset + len)`.
#[derive(Debug, Clone, Copy, PartialEq, Eq, Structural)]
pub struct Span {
    pub offset: usize,
    pub len: usize,
}

pub type TokenData = (Token, Span);

/// A lexical failure: either `<` was followed by something other than `-`
/// (naming that successor), or a character starts no token at all (naming
/// it), or the text ended in the middle of a `<-` arrow.
#[derive(Debug, Clone, Copy, PartialEq, Eq)]
pub enum Error {
    LessThanSuccessor(char),
    UnrecognizedTokenPrefix(char),
    EOF,
}

/// Characters that may appear in an identifier: ASCII letters and underscore.
pub open spec fn is_ident_char(c: char) -> bool {
    ('a' <= c && c <= 'z') || ('A' <= c && c <= 'Z') || c == '_'
}

fn ident_char(c: char) -> (b: bool)
    ensures
        b == is_ident_char(c),
{
    ('a' <= c && c <= 'z') || ('A' <= c && c <= 'Z') || c == '_'
}

/// The first position at or after `i` that does not hold an identifier
/// character; the identifier run starting at `i` ends there.
pub open spec fn ident_end(s: Seq<char>, i: int) -> int
    decreases s.len() - i,
{
    if 0 <= i < s.len() && is_ident_char(s[i]) {
        ident_end(s, i + 1)
    } else {
        i
    }
}

pub proof fn lemma_ident_end_bounds(s: Seq<char>, i: int)
    requires
        0 <= i <= s.len(),
    ensures
        i <= ident_end(s, i) <= s.len(),
    decreases s.len() - i,
{
    if i < s.len() && is_ident_char(s[i]) {
        lemma_ident_end_bounds(s, i + 1);
    }
}

/// The token stream of the suffix of `s` that starts at `i`, or the first
/// lexical error met. This is the mathematical model of [`tokenize`].
pub open spec fn lex_from(s: Seq<char>, i: int) -> Result<Seq<TokenData>, Error>
    decreases s.len() - i,
    when 0 <= i
    via lex_from_decreases
{
    if i >= s.len() {
        Ok(Seq::empty())
    } else {
        let c = s[i];
        if is_ident_char(c) {
            let end = ident_end(s, i + 1);
            prepend_token((Token::Ident, Span { offset: i as usize, len: (end - i) as usize }),
                lex_from(s, end))
        } else if c == ':' {
            prepend_token((Token::Colon, Span { offset: i as usize, len: 1 }), lex_from(s, i + 1))
        } else if c == '(' {
            prepend_token((Token::LParen, Span { offset: i as usize, len: 1 }), lex_from(s, i + 1))
        } else if c == ')' {
            prepend_token((Token::RParen, Span { offset: i as usize, len: 1 }), lex_from(s, i + 1))
        } else if c == '[' {
            prepend_token((Token::LBrace, Span { offset: i as usize, len: 1 }), lex_from(s, i + 1))
        } else if c == ']' {
            prepend_token((Token::RBrace, Span { offset: i as usize, len: 1 }), lex_from(s, i + 1))
        } else if c == '<' {
            if i + 1 >= s.len() {
                Err(Error::EOF)
            } else if s[i + 1] == '-' {
                prepend_token((Token::LArrow, Span { offset: i as usize, len: 2 }),
                    lex_from(s, i + 2))
            } else {
                Err(Error::LessThanSuccessor(s[i + 1]))
            }
        } else if c == '-' {
            if i + 1 < s.len() && s[i + 1] == '>' {
                prepend_token((Token::RArrow, Span { offset: i as usize, len: 2 }),
                    lex_from(s, i + 2))
            } else {
                prepend_token((Token::Dash, Span { offset: i as usize, len: 1 }),
                    lex_from(s, i + 1))
            }
        } else {
            Err(Error::UnrecognizedTokenPrefix(c))
        }
    }
}

#[via_fn]
proof fn lex_from_decreases(s: Seq<char>, i: int) {
    if 0 <= i < s.len() && is_ident_char(s[i]) {
        lemma_ident_end_bounds(s, i + 1);
    }
}

/// Puts one token in front of a lexing result, passing an error through.
pub open spec fn prepend_token(t: TokenData, r: Result<Seq<TokenData>, Error>) -> Result<
    Seq<TokenData>,
    Error,
> {
    match r {
        Ok(rest) => Ok(seq![t] + rest),
        Err(e) => Err(e),
    }
}

/// Puts a finished prefix in front of the lex of the rest of the text,
/// passing an error through.
pub open spec fn prepend_tokens(pre: Seq<TokenData>, r: Result<Seq<TokenData>, Error>) -> Result<
    Seq<TokenData>,
    Error,
> {
    match r {
        Ok(rest) => Ok(pre + rest),
        Err(e) => Err(e),
    }
}

/// The token stream of the whole of `s`, or the first lexical error.
pub open spec fn spec_tokenize(s: Seq<char>) -> Result<Seq<TokenData>, Error> {
    lex_from(s, 0)
}

/// Moves one token from the still-to-lex suffix onto the finished prefix,
/// keeping the running invariant of [`tokenize`]'s main loop.
proof fn lemma_shift_token(pre: Seq<TokenData>, t: TokenData, s: Seq<char>, i: int, j: int)
    requires
        prepend_tokens(pre, lex_from(s, i)) == spec_tokenize(s),
        lex_from(s, i) == prepend_token(t, lex_from(s, j)),
    ensures
        prepend_tokens(pre.push(t), lex_from(s, j)) == spec_tokenize(s),
{
    match lex_from(s, j) {
        Ok(rest) => {
            assert(pre + (seq![t] + rest) =~= pre.push(t) + rest);
        },
        Err(_) => {},
    }
}

/// Every span in `toks` stays within a text of `n` characters.
pub open spec fn spans_in_bounds(toks: Seq<TokenData>, n: int) -> bool {
    forall|k: int|
        0 <= k < toks.len() ==> (#[trigger] toks[k]).1.offset + toks[k].1.len <= n
}

/// Every character of an identifier run is an identifier character.
proof fn lemma_ident_run_chars(s: Seq<char>, a: int)
    requires
        0 <= a,
    ensures
        forall|k: int| a <= k < ident_end(s, a) ==> is_ident_char(#[trigger] s[k]),
    decreases s.len() - a,
{
    if 0 <= a < s.len() && is_ident_char(s[a]) {
        lemma_ident_run_chars(s, a + 1);
    }
}

/// A successful lex consumes every character into some token, and no token
/// holds a space: text that lexes holds no space from the start position on.
pub proof fn lemma_lex_ok_has_no_space(s: Seq<char>, i: int)
    requires
        0 <= i,
        lex_from(s, i) is Ok,
    ensures
        forall|k: int| i <= k < s.len() ==> s[k] != ' ',
    decreases s.len() - i,
{
    if i >= s.len() {
    } else {
        let c = s[i];
        if is_ident_char(c) {
            lemma_ident_end_bounds(s, i + 1);
            lemma_ident_run_chars(s, i + 1);
            lemma_lex_ok_has_no_space(s, ident_end(s, i + 1));
        } else if c == ':' || c == '(' || c == ')' || c == '[' || c == ']' {
            lemma_lex_ok_has_no_space(s, i + 1);
        } else if c == '<' {
            lemma_lex_ok_has_no_space(s, i + 2);
        } else if c == '-' {
            if i + 1 < s.len() && s[i + 1] == '>' {
                lemma_lex_ok_has_no_space(s, i + 2);
            } else {
                lemma_lex_ok_has_no_space(s, i + 1);
            }
        } else {
            assert(false);
        }
    }
}

/// Text that holds a space anywhere never tokenizes: the lexer skips no
/// whitespace, so the space is either reached — it starts no token — or
/// something before it already failed. Which error comes out depends on
/// what stands before the space.
pub proof fn theorem_space_rejected(s: Seq<char>, k: int)
    requires
        0 <= k < s.len(),
        s[k] == ' ',
    ensures
        spec_tokenize(s) is Err,
{
    if spec_tokenize(s) is Ok {
        lemma_lex_ok_has_no_space(s, 0);
        assert(false);
    }
}

/// Converts source text into its token stream, or reports the first lexical
/// error: exactly the value [`spec_tokenize`] assigns to the text. Every
/// span handed out stays within the text.
pub fn tokenize(source: &str) -> (r: Result<Vec<TokenData>, Error>)
    ensures
        match spec_tokenize(source@) {
            Ok(toks) => r is Ok && r->Ok_0@ == toks && spans_in_bounds(
                toks,
                source@.len() as int,
            ),
            Err(e) => r is Err && r->Err_0 == e,
        },
{
    let n = source.unicode_len();
    let mut v: Vec<TokenData> = Vec::new();
    let mut i: usize = 0;
    while i < n
        invariant
            n == source@.len(),
            i <= n,
            prepend_tokens(v@, lex_from(source@, i as int)) == spec_tokenize(source@),
            spans_in_bounds(v@, n as int),
        decreases n - i,
    {
        let c = source.get_char(i);
        if ident_char(c) {
            let mut j: usize = i + 1;
            while j < n && ident_char(source.get_char(j))
                invariant
                    n == source@.len(),
                    i < j <= n,
                    ident_end(source@, i + 1) == ident_end(source@, j as int),
                decreases n - j,
            {
                j = j + 1;
            }
            let t = (Token::Ident, Span { offset: i, len: j - i });
            proof {
                assert(ident_end(source@, j as int) == j);
                lemma_shift_token(v@, t, source@, i as int, j as int);
            }
            v.push(t);
            i = j;
        } else if c == ':' {
            let t = (Token::Colon, Span { offset: i, len: 1 });
            proof {
                lemma_shift_token(v@, t, source@, i as int, i + 1);
            }
            v.push(t);
            i = i + 1;
        } else if c == '(' {
            let t = (Token::LParen, Span { offset: i, len: 1 });
            proof {
                lemma_shift_token(v@, t, source@, i as int, i + 1);
            }
            v.push(t);
            i = i + 1;
        } else if c == ')' {
            let t = (Token::RParen, Span { offset: i, len: 1 });
            proof {
                lemma_shift_token(v@, t, source@, i as int, i + 1);
            }
            v.push(t);
            i = i + 1;
        } else if c == '[' {
            let t = (Token::LBrace, Span { offset: i, len: 1 });
            proof {
                lemma_shift_token(v@, t, source@, i as int, i + 1);
            }
            v.push(t);
            i = i + 1;
        } else if c == ']' {
            let t = (Token::RBrace, Span { offset: i, len: 1 });
            proof {
                lemma_shift_token(v@, t, source@, i as int, i + 1);
            }
            v.push(t);
            i = i + 1;
        } else if c == '<' {
            if i + 1 >= n {
                return Err(Error::EOF);
            }
            let c2 = source.get_char(i + 1);
            if c2 == '-' {
                let t = (Token::LArrow, Span { offset: i, len: 2 });
                proof {
                    lemma_shift_token(v@, t, source@, i as int, i + 2);
                }
                v.push(t);
                i = i + 2;
            } else {
                return Err(Error::LessThanSuccessor(c2));
            }
        } else if c == '-' {
            if i + 1 < n && source.get_char(i + 1) == '>' {
                let t = (Token::RArrow, Span { offset: i, len: 2 });
                proof {
                    lemma_shift_token(v@, t, source@, i as int, i + 2);
                }
                v.push(t);
                i = i + 2;
            } else {
                let t = (Token::Dash, Span { offset: i, len: 1 });
                proof {
                    lemma_shift_token(v@, t, source@, i as int, i + 1);
                }
                v.push(t);
                i = i + 1;
            }
        } else {
            return Err(Error::UnrecognizedTokenPrefix(c));
        }
    }
    proof {
        assert(lex_from(source@, i as int) == Ok::<Seq<TokenData>, Error>(Seq::empty()));
        assert(v@ + Seq::<TokenData>::empty() =~= v@);
    }
    Ok(v)
}

} // verus!
