//! The token stream handed from the lexer to the parser: parenthesis
//! markers and identifier tokens carrying raw text (a quoted string
//! keeps its quotes until the parser strips them).

use vstd::prelude::*;

verus! {

broadcast use vstd::seq::group_seq_axioms;

/// The model of a token.
#[verifier::ext_equal]
pub enum SpTok {
    LParen,
    RParen,
    Ident(Seq<char>),
}

/// One lexed token.
#[derive(PartialEq, Debug, Clone)]
pub enum Token {
    LParen,
    RParen,
    Ident(String),
}

pub open spec fn token_view(t: Token) -> SpTok {
    match t {
        Token::LParen => SpTok::LParen,
        Token::RParen => SpTok::RParen,
        Token::Ident(s) => SpTok::Ident(s@),
    }
}

impl View for Token {
    type V = SpTok;

    open spec fn view(&self) -> SpTok {
        token_view(*self)
    }
}

/// The models of the tokens of a stream.
pub open spec fn tok_views(s: Seq<Token>) -> Seq<SpTok>
    decreases s.len(),
{
    if s.len() == 0 {
        Seq::empty()
    } else {
        tok_views(s.subrange(0, s.len() - 1)).push(token_view(s[s.len() - 1]))
    }
}

pub broadcast proof fn lemma_tok_views(s: Seq<Token>)
    ensures
        (#[trigger] tok_views(s)).len() == s.len(),
        forall|i: int| 0 <= i < s.len() ==> tok_views(s)[i] == token_view(s[i]),
    decreases s.len(),
{
    if s.len() > 0 {
        lemma_tok_views(s.subrange(0, s.len() - 1));
        assert forall|i: int| 0 <= i < s.len() implies tok_views(s)[i] == token_view(s[i]) by {
            if i < s.len() - 1 {
                assert(s.subrange(0, s.len() - 1)[i] == s[i]);
            }
        }
    }
}

} // verus!
