//! Recursive-descent parser: turns the token stream into one `Program` —
//! a shell command, a nested Lisp expression, or the empty program.
//! Literal classification: an optionally-signed digit run is an integer,
//! the word `nil` is nil, a token wrapped in double quotes is a string
//! with the quotes stripped, anything else is a symbol.

use vstd::prelude::*;
use vstd::string::StrSliceExecFns;

use crate::error::{Error, SpErr};
use crate::lexer::copy_range;
use crate::printer::nil_text;
use crate::text::{
    int_literal_val, is_int_literal, matches_int_literal, parse_i64, str_eqs,
};
use crate::token::{lemma_tok_views, tok_views, SpTok, Token};
use crate::types::{
    self, lemma_views_of, views_of, name_views_of, LispValue, Program, ShellExpr, SpProg,
    SpShellExpr, SpVal,
};

verus! {

broadcast use vstd::std_specs::vec::group_vec_axioms, vstd::seq::group_seq_axioms;

/// The value of one identifier token: an integer literal if it has that
/// shape (a literal beyond 64 bits is a parse error), `nil`, a string
/// with the quotes stripped, or a symbol.
pub open spec fn atom_val(text: Seq<char>) -> Result<SpVal, SpErr> {
    if is_int_literal(text) {
        if i64::MIN <= int_literal_val(text) <= i64::MAX {
            Result::Ok(SpVal::Int(int_literal_val(text)))
        } else {
            Result::Err(SpErr::ParseError)
        }
    } else if text == nil_text() {
        Result::Ok(SpVal::Nil)
    } else if text.len() >= 2 && text[0] == '"' && text[text.len() - 1] == '"' {
        Result::Ok(SpVal::Str(text.subrange(1, text.len() - 1)))
    } else {
        Result::Ok(SpVal::Sym(text))
    }
}

/// One Lisp form read at `pos`: the value and the position just past it.
pub open spec fn read_lisp_sp(toks: Seq<SpTok>, pos: int) -> Result<(SpVal, int), SpErr>
    decreases toks.len() - pos, 1int,
        when 0 <= pos
{
    if pos >= toks.len() {
        Result::Err(SpErr::ParseError)
    } else {
        match toks[pos] {
            SpTok::LParen => match read_forms_sp(toks, pos + 1) {
                Result::Ok((vs, p)) => Result::Ok((SpVal::Lst(vs), p)),
                Result::Err(e) => Result::Err(e),
            },
            SpTok::RParen => Result::Err(SpErr::ParseError),
            SpTok::Ident(text) => match atom_val(text) {
                Result::Ok(v) => Result::Ok((v, pos + 1)),
                Result::Err(e) => Result::Err(e),
            },
        }
    }
}

/// The forms between `pos` and the matching closing parenthesis, and the
/// position just past that parenthesis.
pub open spec fn read_forms_sp(toks: Seq<SpTok>, pos: int) -> Result<(Seq<SpVal>, int), SpErr>
    decreases toks.len() - pos, 2int,
        when 0 <= pos
{
    if pos >= toks.len() {
        Result::Err(SpErr::ParseError)
    } else if toks[pos] == SpTok::RParen {
        Result::Ok((Seq::empty(), pos + 1))
    } else {
        match read_lisp_sp(toks, pos) {
            Result::Ok((v, p2)) => if pos < p2 <= toks.len() {
                match read_forms_sp(toks, p2) {
                    Result::Ok((vs, p3)) => Result::Ok((seq![v] + vs, p3)),
                    Result::Err(e) => Result::Err(e),
                }
            } else {
                Result::Err(SpErr::ParseError)
            },
            Result::Err(e) => Result::Err(e),
        }
    }
}

/// Reading a form always consumes at least one token; reading a form
/// list ends past `pos`.
pub proof fn lemma_read_advances(toks: Seq<SpTok>, pos: int)
    requires
        0 <= pos,
    ensures
        (read_lisp_sp(toks, pos) matches Result::Ok((v, p)) ==> pos < p <= toks.len()),
        (read_forms_sp(toks, pos) matches Result::Ok((vs, p)) ==> pos < p <= toks.len()),
    decreases toks.len() - pos, 3int,
{
    if pos < toks.len() {
        lemma_read_advances(toks, pos + 1);
        if toks[pos] != SpTok::RParen {
            match read_lisp_sp(toks, pos) {
                Result::Ok((v, p2)) => {
                    if pos < p2 <= toks.len() {
                        lemma_read_advances(toks, p2);
                    }
                },
                Result::Err(_) => {},
            }
        }
    }
}

/// The shell command made of all tokens from `pos` on: every token must
/// be a word; the first is the command, the rest its arguments.
pub open spec fn read_shell_sp(toks: Seq<SpTok>, pos: int) -> Result<Seq<Seq<char>>, SpErr>
    decreases toks.len() - pos,
        when 0 <= pos
{
    if pos >= toks.len() {
        Result::Ok(Seq::empty())
    } else {
        match toks[pos] {
            SpTok::Ident(w) => match read_shell_sp(toks, pos + 1) {
                Result::Ok(ws) => Result::Ok(seq![w] + ws),
                Result::Err(e) => Result::Err(e),
            },
            _ => Result::Err(SpErr::ParseError),
        }
    }
}

/// One whole program read at `pos`: empty input is the empty program, a
/// leading parenthesis opens a Lisp expression, anything else is a shell
/// command consuming the rest of the stream.
pub open spec fn read_program_sp(toks: Seq<SpTok>, pos: int) -> Result<(SpProg, int), SpErr> {
    if pos >= toks.len() {
        Result::Ok((SpProg::Empty, pos))
    } else if toks[pos] == SpTok::LParen {
        match read_lisp_sp(toks, pos) {
            Result::Ok((v, p)) => Result::Ok((SpProg::Lisp(v), p)),
            Result::Err(e) => Result::Err(e),
        }
    } else {
        match read_shell_sp(toks, pos) {
            Result::Ok(ws) => if ws.len() > 0 {
                Result::Ok(
                    (
                        SpProg::Shell(
                            SpShellExpr {
                                command: ws[0],
                                args: ws.subrange(1, ws.len() as int),
                            },
                        ),
                        toks.len() as int,
                    ),
                )
            } else {
                Result::Err(SpErr::ParseError)
            },
            Result::Err(e) => Result::Err(e),
        }
    }
}

pub struct Parser {
    pub tokens: Vec<Token>,
    pub pos: usize,
}

impl Parser {
    /// The models of the tokens not yet consumed lie between `pos` and
    /// the end of `tokens`.
    pub open spec fn toks(&self) -> Seq<SpTok> {
        tok_views(self.tokens@)
    }

    pub fn new() -> (r: Parser)
        ensures
            r.toks() == Seq::<SpTok>::empty(),
            r.pos == 0,
    {
        let r = Parser { tokens: Vec::new(), pos: 0 };
        proof {
            broadcast use lemma_tok_views;

            assert(r.toks() =~= Seq::<SpTok>::empty());
        }
        r
    }

    /// Appends freshly lexed tokens behind those not yet consumed.
    pub fn add_tokens(&mut self, tokens: Vec<Token>)
        ensures
            final(self).toks() == old(self).toks() + tok_views(tokens@),
            final(self).pos == old(self).pos,
    {
        let ghost old_toks = self.tokens@;
        let mut tokens = tokens;
        let ghost added = tokens@;
        self.tokens.append(&mut tokens);
        proof {
            lemma_tok_views_add(old_toks, added);
        }
    }

    /// Consumes and returns the next token.
    fn next(&mut self) -> (r: Option<Token>)
        ensures
            final(self).tokens == old(self).tokens,
            match r {
                Option::Some(t) => old(self).pos < old(self).tokens@.len() && t@ == old(
                    self,
                ).tokens@[old(self).pos as int]@ && final(self).pos == old(self).pos + 1,
                Option::None => old(self).pos >= old(self).tokens@.len() && final(self).pos == old(
                    self,
                ).pos,
            },
    {
        if self.pos < self.tokens.len() {
            let t = clone_token(&self.tokens[self.pos]);
            self.pos = self.pos + 1;
            Option::Some(t)
        } else {
            Option::None
        }
    }

    /// Returns the next token without consuming it.
    fn peek(&self) -> (r: Option<&Token>)
        ensures
            match r {
                Option::Some(t) => self.pos < self.tokens@.len() && *t
                    == self.tokens@[self.pos as int],
                Option::None => self.pos >= self.tokens@.len(),
            },
    {
        if self.pos < self.tokens.len() {
            Option::Some(&self.tokens[self.pos])
        } else {
            Option::None
        }
    }

    /// Consumes the next token, failing unless it equals `expected`.
    fn expect(&mut self, expected: &Token) -> (r: Result<(), Error>)
        ensures
            final(self).tokens == old(self).tokens,
            (if old(self).pos < old(self).tokens@.len() && old(self).tokens@[old(
                self,
            ).pos as int]@ == expected@ {
                r is Ok && final(self).pos == old(self).pos + 1
            } else {
                (r matches Result::Err(e) && e@ == SpErr::ParseError)
            }),
    {
        match self.next() {
            Option::Some(t) => {
                if token_eq(&t, expected) {
                    Result::Ok(())
                } else {
                    Result::Err(Error::ParseError)
                }
            },
            Option::None => Result::Err(Error::ParseError),
        }
    }

    /// Reads one program from the tokens not yet consumed.
    pub fn parse(&mut self) -> (r: Result<Program, Error>)
        ensures
            final(self).tokens == old(self).tokens,
            match r {
                Result::Ok(p) => (read_program_sp(old(self).toks(), old(self).pos as int)
                    matches Result::Ok((sp, q)) && p@ == sp && final(self).pos == q),
                Result::Err(e) => (read_program_sp(old(self).toks(), old(self).pos as int)
                    matches Result::Err(se) && se == e@),
            },
    {
        self.read_program()
    }

    #[verifier::loop_isolation(false)]
    fn read_program(&mut self) -> (r: Result<Program, Error>)
        ensures
            final(self).tokens == old(self).tokens,
            match r {
                Result::Ok(p) => (read_program_sp(old(self).toks(), old(self).pos as int)
                    matches Result::Ok((sp, q)) && p@ == sp && final(self).pos == q),
                Result::Err(e) => (read_program_sp(old(self).toks(), old(self).pos as int)
                    matches Result::Err(se) && se == e@),
            },
    {
        broadcast use lemma_tok_views;

        let is_lisp = match self.peek() {
            Option::Some(t) => matches!(t, Token::LParen),
            Option::None => {
                return Result::Ok(Program::EmptyProgram);
            },
        };
        if is_lisp {
            match self.read_lisp() {
                Result::Ok(v) => Result::Ok(Program::LispProgram(v)),
                Result::Err(e) => Result::Err(e),
            }
        } else {
            match self.read_shell() {
                Result::Ok(e) => Result::Ok(Program::ShellProgram(e)),
                Result::Err(e) => Result::Err(e),
            }
        }
    }

    /// Reads one Lisp form: a parenthesised list or a single atom.
    #[verifier::loop_isolation(false)]
    fn read_lisp(&mut self) -> (r: Result<LispValue, Error>)
        ensures
            final(self).tokens == old(self).tokens,
            match r {
                Result::Ok(v) => (read_lisp_sp(old(self).toks(), old(self).pos as int)
                    matches Result::Ok((sv, q)) && v@ == sv && final(self).pos == q),
                Result::Err(e) => (read_lisp_sp(old(self).toks(), old(self).pos as int)
                    matches Result::Err(se) && se == e@),
            },
        decreases old(self).tokens@.len() - old(self).pos, 1int,
    {
        broadcast use lemma_tok_views;

        let is_list = match self.peek() {
            Option::Some(t) => matches!(t, Token::LParen),
            Option::None => {
                return Result::Err(Error::ParseError);
            },
        };
        if is_list {
            self.read_list()
        } else {
            self.read_atom()
        }
    }

    /// Reads a parenthesised list of forms.
    #[verifier::loop_isolation(false)]
    fn read_list(&mut self) -> (r: Result<LispValue, Error>)
        requires
            old(self).pos < old(self).tokens@.len(),
            old(self).tokens@[old(self).pos as int]@ == SpTok::LParen,
        ensures
            final(self).tokens == old(self).tokens,
            match r {
                Result::Ok(v) => (read_lisp_sp(old(self).toks(), old(self).pos as int)
                    matches Result::Ok((sv, q)) && v@ == sv && final(self).pos == q),
                Result::Err(e) => (read_lisp_sp(old(self).toks(), old(self).pos as int)
                    matches Result::Err(se) && se == e@),
            },
        decreases old(self).tokens@.len() - old(self).pos, 0int,
    {
        broadcast use lemma_tok_views;

        let ghost toks = self.toks();
        let ghost pos0 = self.pos as int;
        match self.expect(&Token::LParen) {
            Result::Ok(()) => {},
            Result::Err(e) => {
                // unreachable: the caller checked the opening parenthesis
                return Result::Err(e);
            },
        }
        let mut forms: Vec<LispValue> = Vec::new();
        while self.pos < self.tokens.len() && !at_rparen(&self.tokens, self.pos)
            invariant
                self.tokens == old(self).tokens,
                toks == self.toks(),
                pos0 < self.pos <= self.tokens@.len(),
                (match read_forms_sp(toks, self.pos as int) {
                    Result::Ok((vs, p)) => read_forms_sp(toks, pos0 + 1) == Result::<
                        (Seq<SpVal>, int),
                        SpErr,
                    >::Ok((views_of(forms@) + vs, p)),
                    Result::Err(e) => read_forms_sp(toks, pos0 + 1) == Result::<
                        (Seq<SpVal>, int),
                        SpErr,
                    >::Err(e),
                }),
            decreases self.tokens@.len() - self.pos,
        {
            proof {
                broadcast use crate::types::lemma_views_of;

            }
            let ghost cur = self.pos as int;
            match self.read_lisp() {
                Result::Ok(v) => {
                    proof {
                        lemma_read_advances(toks, cur);
                        assert(views_of(forms@.push(v)) =~= views_of(forms@).push(v@));
                        assert forall|vs2: Seq<SpVal>|
                            true implies views_of(forms@) + (seq![v@] + vs2) =~= views_of(
                            forms@.push(v),
                        ) + vs2 by {}
                    }
                    forms.push(v);
                },
                Result::Err(e) => {
                    return Result::Err(e);
                },
            }
        }
        if self.pos >= self.tokens.len() {
            return Result::Err(Error::ParseError);
        }
        match self.expect(&Token::RParen) {
            Result::Ok(()) => {},
            Result::Err(e) => {
                // unreachable: the loop stopped at a closing parenthesis
                return Result::Err(e);
            },
        }
        proof {
            assert(views_of(forms@) + Seq::<SpVal>::empty() =~= views_of(forms@));
        }
        Result::Ok(types::list(forms))
    }

    /// Reads one atom and classifies it: integer, `nil`, string, or
    /// symbol.
    #[verifier::loop_isolation(false)]
    fn read_atom(&mut self) -> (r: Result<LispValue, Error>)
        requires
            old(self).pos < old(self).tokens@.len() ==> old(self).tokens@[old(
                self,
            ).pos as int]@ != SpTok::LParen,
        ensures
            final(self).tokens == old(self).tokens,
            match r {
                Result::Ok(v) => (read_lisp_sp(old(self).toks(), old(self).pos as int)
                    matches Result::Ok((sv, q)) && v@ == sv && final(self).pos == q),
                Result::Err(e) => (read_lisp_sp(old(self).toks(), old(self).pos as int)
                    matches Result::Err(se) && se == e@),
            },
        decreases old(self).tokens@.len() - old(self).pos, 0int,
    {
        broadcast use lemma_tok_views;

        let t = match self.next() {
            Option::Some(t) => t,
            Option::None => {
                return Result::Err(Error::ParseError);
            },
        };
        match t {
            Token::Ident(text) => {
                if matches_int_literal(text.as_str()) {
                    match parse_i64(text.as_str()) {
                        Option::Some(v) => Result::Ok(types::integer(v)),
                        Option::None => Result::Err(Error::ParseError),
                    }
                } else if str_eqs(text.as_str(), "nil") {
                    proof {
                        reveal_strlit("nil");
                        assert(("nil")@ =~= nil_text());
                    }
                    Result::Ok(types::nil())
                } else {
                    proof {
                        reveal_strlit("nil");
                        assert(("nil")@ =~= nil_text());
                        assert(text@ != nil_text());
                    }
                    let n = text.as_str().unicode_len();
                    let quoted = if n >= 2 {
                        text.as_str().get_char(0) == '"' && text.as_str().get_char(n - 1) == '"'
                    } else {
                        false
                    };
                    if quoted {
                        let inner = copy_range(text.as_str(), 1, n - 1);
                        Result::Ok(types::string(inner))
                    } else {
                        Result::Ok(types::symbol(text))
                    }
                }
            },
            _ => Result::Err(Error::ParseError),
        }
    }

    /// Reads a shell command: every remaining token must be a word; the
    /// first is the command name, the rest are its arguments.
    #[verifier::loop_isolation(false)]
    fn read_shell(&mut self) -> (r: Result<ShellExpr, Error>)
        requires
            old(self).pos < old(self).tokens@.len(),
            old(self).tokens@[old(self).pos as int]@ != SpTok::LParen,
        ensures
            final(self).tokens == old(self).tokens,
            match r {
                Result::Ok(e) => (read_program_sp(old(self).toks(), old(self).pos as int)
                    matches Result::Ok((sp, q)) && SpProg::Shell(e@) == sp && final(self).pos
                    == q),
                Result::Err(e) => (read_program_sp(old(self).toks(), old(self).pos as int)
                    matches Result::Err(se) && se == e@),
            },
    {
        broadcast use lemma_tok_views;

        let ghost toks = self.toks();
        let ghost pos0 = self.pos as int;
        let mut words: Vec<String> = Vec::new();
        while self.pos < self.tokens.len()
            invariant
                self.tokens == old(self).tokens,
                toks == self.toks(),
                pos0 <= self.pos <= self.tokens@.len(),
                (match read_shell_sp(toks, self.pos as int) {
                    Result::Ok(ws) => read_shell_sp(toks, pos0) == Result::<
                        Seq<Seq<char>>,
                        SpErr,
                    >::Ok(name_views_of(words@) + ws),
                    Result::Err(e) => read_shell_sp(toks, pos0) == Result::<
                        Seq<Seq<char>>,
                        SpErr,
                    >::Err(e),
                }),
            decreases self.tokens@.len() - self.pos,
        {
            let t = match self.next() {
                Option::Some(t) => t,
                Option::None => {
                    return Result::Err(Error::ParseError);
                },
            };
            match t {
                Token::Ident(w) => {
                    proof {
                        assert(name_views_of(words@.push(w)) =~= name_views_of(words@).push(w@));
                        assert forall|ws2: Seq<Seq<char>>|
                            true implies name_views_of(words@) + (seq![w@] + ws2) =~= name_views_of(
                            words@.push(w),
                        ) + ws2 by {}
                    }
                    words.push(w);
                },
                _ => {
                    return Result::Err(Error::ParseError);
                },
            }
        }
        proof {
            assert(name_views_of(words@) + Seq::<Seq<char>>::empty() =~= name_views_of(words@));
        }
        if words.len() == 0 {
            // unreachable: the first token is a word
            return Result::Err(Error::ParseError);
        }
        let ghost allw = name_views_of(words@);
        let mut words = words;
        let command = words.remove(0);
        proof {
            assert(name_views_of(words@) =~= allw.subrange(1, allw.len() as int));
        }
        Result::Ok(ShellExpr { command, args: words })
    }
}

proof fn lemma_tok_views_add(a: Seq<Token>, b: Seq<Token>)
    ensures
        tok_views(a + b) == tok_views(a) + tok_views(b),
{
    broadcast use lemma_tok_views;

    assert(tok_views(a + b) =~= tok_views(a) + tok_views(b));
}

/// Whether the token at `i` is a closing parenthesis.
fn at_rparen(toks: &Vec<Token>, i: usize) -> (r: bool)
    requires
        i < toks@.len(),
    ensures
        r == (toks@[i as int]@ == SpTok::RParen),
{
    matches!(&toks[i], Token::RParen)
}

/// Structural copy of a token.
fn clone_token(t: &Token) -> (r: Token)
    ensures
        r@ == t@,
{
    match t {
        Token::LParen => Token::LParen,
        Token::RParen => Token::RParen,
        Token::Ident(s) => Token::Ident(s.clone()),
    }
}

/// Structural equality of two tokens.
fn token_eq(a: &Token, b: &Token) -> (r: bool)
    ensures
        r == (a@ == b@),
{
    match (a, b) {
        (Token::LParen, Token::LParen) => true,
        (Token::RParen, Token::RParen) => true,
        (Token::Ident(x), Token::Ident(y)) => str_eqs(x.as_str(), y.as_str()),
        _ => false,
    }
}

} // verus!
