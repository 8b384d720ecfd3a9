//! Converts source text into a flat token stream.  A token is a
//! parenthesis, or a word of identifier characters (letters, digits,
//! `_ / - + * % = .`), or a double-quoted string in which a backslash
//! escapes the following character.  Whitespace separates tokens; any
//! other character stops the lexer with `UnexpectedCharacter`.

use vstd::prelude::*;
use vstd::string::StrSliceExecFns;

use crate::error::{Error, SpErr};
use crate::text::push_char;
use crate::token::{lemma_tok_views, tok_views, SpTok, Token};

verus! {

broadcast use vstd::std_specs::vec::group_vec_axioms, vstd::seq::group_seq_axioms;

/// The characters a word token is made of.
pub open spec fn is_word_char(c: char) -> bool {
    ||| ('a' <= c <= 'z')
    ||| ('A' <= c <= 'Z')
    ||| ('0' <= c <= '9')
    ||| c == '_'
    ||| c == '/'
    ||| c == '-'
    ||| c == '+'
    ||| c == '*'
    ||| c == '%'
    ||| c == '='
    ||| c == '.'
}

/// The characters that separate tokens.
pub open spec fn is_space_char(c: char) -> bool {
    c == ' ' || c == '\t' || c == '\n' || c == '\r'
}

/// The first position at or after `i` holding no word character.
pub open spec fn word_end(s: Seq<char>, i: int) -> int
    decreases s.len() - i,
        when 0 <= i
{
    if i < s.len() && is_word_char(s[i]) {
        word_end(s, i + 1)
    } else {
        i
    }
}

pub proof fn lemma_word_end(s: Seq<char>, i: int)
    requires
        0 <= i,
    ensures
        i <= word_end(s, i) <= s.len() || (i >= s.len() && word_end(s, i) == i),
        i < s.len() && is_word_char(s[i]) ==> word_end(s, i) > i,
        forall|j: int| i <= j < word_end(s, i) ==> is_word_char(#[trigger] s[j]),
        word_end(s, i) < s.len() ==> !is_word_char(s[word_end(s, i)]),
    decreases s.len() - i,
{
    if i < s.len() && is_word_char(s[i]) {
        lemma_word_end(s, i + 1);
    }
}

/// The position just past the closing quote of a string opened before
/// `i`, scanning from `i`; a backslash escapes the next character.
/// `None` when the string never closes.
pub open spec fn str_end(s: Seq<char>, i: int) -> Option<int>
    decreases s.len() - i,
        when 0 <= i
{
    if i >= s.len() {
        Option::None
    } else if s[i] == '"' {
        Option::Some(i + 1)
    } else if s[i] == '\\' {
        if i + 1 < s.len() {
            str_end(s, i + 2)
        } else {
            Option::None
        }
    } else {
        str_end(s, i + 1)
    }
}

pub proof fn lemma_str_end(s: Seq<char>, i: int)
    requires
        0 <= i,
    ensures
        (str_end(s, i) matches Option::Some(k) ==> i < k <= s.len()),
    decreases s.len() - i,
{
    if i >= s.len() {
    } else if s[i] == '"' {
    } else if s[i] == '\\' {
        if i + 1 < s.len() {
            lemma_str_end(s, i + 2);
        }
    } else {
        lemma_str_end(s, i + 1);
    }
}

/// Puts one more token in front of a lexing result.
pub open spec fn toks_prepend(t: SpTok, r: Result<Seq<SpTok>, SpErr>) -> Result<
    Seq<SpTok>,
    SpErr,
> {
    match r {
        Result::Ok(ts) => Result::Ok(seq![t] + ts),
        Result::Err(e) => Result::Err(e),
    }
}

/// The token stream of the text from position `pos` on: whitespace is
/// skipped; parentheses and words and quoted strings become tokens; any
/// other character is the lexing error.
pub open spec fn tokenize_from(s: Seq<char>, pos: int) -> Result<Seq<SpTok>, SpErr>
    decreases s.len() - pos,
        when 0 <= pos
{
    if pos >= s.len() {
        Result::Ok(Seq::empty())
    } else if is_space_char(s[pos]) {
        tokenize_from(s, pos + 1)
    } else if s[pos] == '(' {
        toks_prepend(SpTok::LParen, tokenize_from(s, pos + 1))
    } else if s[pos] == ')' {
        toks_prepend(SpTok::RParen, tokenize_from(s, pos + 1))
    } else if is_word_char(s[pos]) {
        proof {
            lemma_word_end(s, pos);
        }
        toks_prepend(
            SpTok::Ident(s.subrange(pos, word_end(s, pos))),
            tokenize_from(s, word_end(s, pos)),
        )
    } else if s[pos] == '"' {
        match str_end(s, pos + 1) {
            Option::Some(k) => {
                proof {
                    lemma_str_end(s, pos + 1);
                }
                toks_prepend(SpTok::Ident(s.subrange(pos, k)), tokenize_from(s, k))
            },
            Option::None => Result::Err(SpErr::UnexpectedCharacter('"')),
        }
    } else {
        Result::Err(SpErr::UnexpectedCharacter(s[pos]))
    }
}

/// The token stream of a whole text.
pub open spec fn tokens_of(s: Seq<char>) -> Result<Seq<SpTok>, SpErr> {
    tokenize_from(s, 0)
}

/// What `tokenize` promises: the stream on success, the lexing error
/// otherwise.
pub open spec fn tokenize_post(s: Seq<char>, r: Result<Vec<Token>, Error>) -> bool {
    match r {
        Result::Ok(toks) => tokens_of(s) == Result::<Seq<SpTok>, SpErr>::Ok(tok_views(toks@)),
        Result::Err(e) => tokens_of(s) == Result::<Seq<SpTok>, SpErr>::Err(e@),
    }
}

proof fn lemma_prepend_all(ts: Seq<SpTok>, t: SpTok, r: Result<Seq<SpTok>, SpErr>)
    ensures
        (match toks_prepend(t, r) {
            Result::Ok(us) => Result::<Seq<SpTok>, SpErr>::Ok(ts + us),
            Result::Err(e) => Result::<Seq<SpTok>, SpErr>::Err(e),
        }) == (match r {
            Result::Ok(us) => Result::<Seq<SpTok>, SpErr>::Ok(ts.push(t) + us),
            Result::Err(e) => Result::<Seq<SpTok>, SpErr>::Err(e),
        }),
{
    match r {
        Result::Ok(us) => {
            assert(ts + (seq![t] + us) =~= ts.push(t) + us);
        },
        Result::Err(_) => {},
    }
}

/// Copies the characters of `s` between `from` and `to` into a fresh
/// string.
#[verifier::loop_isolation(false)]
pub(crate) fn copy_range(s: &str, from: usize, to: usize) -> (r: String)
    requires
        from <= to <= s@.len(),
    ensures
        r@ == s@.subrange(from as int, to as int),
{
    let mut r = String::new();
    let mut j = from;
    while j < to
        invariant
            from <= j <= to,
            r@ == s@.subrange(from as int, j as int),
        decreases to - j,
    {
        push_char(&mut r, s.get_char(j));
        proof {
            assert(s@.subrange(from as int, j + 1) =~= s@.subrange(from as int, j as int).push(
                s@[j as int],
            ));
        }
        j = j + 1;
    }
    r
}

pub struct Lexer;

impl Lexer {
    pub fn new() -> Lexer {
        Lexer
    }

    /// Lexes the whole input, or reports the first character no token
    /// rule matches.
    #[verifier::loop_isolation(false)]
    pub fn tokenize(&self, input: &str) -> (r: Result<Vec<Token>, Error>)
        ensures
            tokenize_post(input@, r),
    {
        broadcast use lemma_tok_views;

        let ghost s = input@;
        let n = input.unicode_len();
        let mut toks: Vec<Token> = Vec::new();
        let mut pos: usize = 0;
        while pos < n
            invariant
                pos <= n,
                n == s.len(),
                s == input@,
                tokens_of(s) == (match tokenize_from(s, pos as int) {
                    Result::Ok(us) => Result::<Seq<SpTok>, SpErr>::Ok(tok_views(toks@) + us),
                    Result::Err(e) => Result::<Seq<SpTok>, SpErr>::Err(e),
                }),
            decreases n - pos,
        {
            let c = input.get_char(pos);
            if c == ' ' || c == '\t' || c == '\n' || c == '\r' {
                pos = pos + 1;
            } else if c == '(' {
                proof {
                    lemma_prepend_all(tok_views(toks@), SpTok::LParen, tokenize_from(s, pos + 1));
                    assert(tok_views(toks@.push(Token::LParen)) =~= tok_views(toks@).push(
                        SpTok::LParen,
                    ));
                }
                toks.push(Token::LParen);
                pos = pos + 1;
            } else if c == ')' {
                proof {
                    lemma_prepend_all(tok_views(toks@), SpTok::RParen, tokenize_from(s, pos + 1));
                    assert(tok_views(toks@.push(Token::RParen)) =~= tok_views(toks@).push(
                        SpTok::RParen,
                    ));
                }
                toks.push(Token::RParen);
                pos = pos + 1;
            } else if is_word(c) {
                let mut end = pos + 1;
                proof {
                    lemma_word_end(s, pos as int);
                }
                while end < n && is_word(input.get_char(end))
                    invariant
                        pos < end <= n,
                        forall|j: int| pos <= j < end ==> is_word_char(#[trigger] s[j]),
                    decreases n - end,
                {
                    end = end + 1;
                }
                proof {
                    lemma_word_end_pin(s, pos as int, end as int);
                }
                let text = copy_range(input, pos, end);
                let tok = Token::Ident(text);
                proof {
                    lemma_prepend_all(
                        tok_views(toks@),
                        SpTok::Ident(s.subrange(pos as int, end as int)),
                        tokenize_from(s, end as int),
                    );
                    assert(tok_views(toks@.push(tok)) =~= tok_views(toks@).push(token_view_of(tok)));
                }
                toks.push(tok);
                pos = end;
            } else if c == '"' {
                let mut j = pos + 1;
                let mut close: usize = 0;
                let mut closed = false;
                while !closed
                    invariant
                        pos + 1 <= j,
                        j <= n + 1,
                        !closed ==> j <= n,
                        !closed ==> str_end(s, pos + 1) == str_end(s, j as int),
                        closed ==> str_end(s, pos + 1) == Option::Some(close as int) && pos
                            < close <= n,
                    decreases n - j + 1, (if closed {
                        0int
                    } else {
                        1int
                    }),
                {
                    if j >= n {
                        return Result::Err(Error::UnexpectedCharacter('"'));
                    }
                    let cj = input.get_char(j);
                    if cj == '"' {
                        close = j + 1;
                        closed = true;
                    } else if cj == '\\' {
                        if j + 1 < n {
                            j = j + 2;
                        } else {
                            return Result::Err(Error::UnexpectedCharacter('"'));
                        }
                    } else {
                        j = j + 1;
                    }
                }
                let text = copy_range(input, pos, close);
                let tok = Token::Ident(text);
                proof {
                    lemma_prepend_all(
                        tok_views(toks@),
                        SpTok::Ident(s.subrange(pos as int, close as int)),
                        tokenize_from(s, close as int),
                    );
                    assert(tok_views(toks@.push(tok)) =~= tok_views(toks@).push(token_view_of(tok)));
                }
                toks.push(tok);
                pos = close;
            } else {
                return Result::Err(Error::UnexpectedCharacter(c));
            }
        }
        proof {
            assert(tok_views(toks@) + Seq::<SpTok>::empty() =~= tok_views(toks@));
        }
        Result::Ok(toks)
    }
}

pub open spec fn token_view_of(t: Token) -> SpTok {
    crate::token::token_view(t)
}

/// When every character from `i` up to `end` is a word character and
/// `end` is the input's end or holds none, `end` is the word's end.
pub proof fn lemma_word_end_pin(s: Seq<char>, i: int, end: int)
    requires
        0 <= i <= end <= s.len(),
        forall|j: int| i <= j < end ==> is_word_char(#[trigger] s[j]),
        end < s.len() ==> !is_word_char(s[end]),
    ensures
        word_end(s, i) == end,
    decreases end - i,
{
    if i < end {
        lemma_word_end_pin(s, i + 1, end);
    }
}

fn is_word(c: char) -> (r: bool)
    ensures
        r == is_word_char(c),
{
    ('a' <= c && c <= 'z') || ('A' <= c && c <= 'Z') || ('0' <= c && c <= '9') || c == '_' || c
        == '/' || c == '-' || c == '+' || c == '*' || c == '%' || c == '=' || c == '.'
}

} // verus!
