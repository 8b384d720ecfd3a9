//! Renders any value to text.  Two modes: "display" leaves strings bare,
//! "write" (readable) wraps them in double quotes so that simple values
//! round-trip through `read`.

use vstd::prelude::*;

use crate::error::SpErr;
use crate::lexer::{is_space_char, is_word_char, lemma_word_end_pin, tokenize_from, tokens_of};
use crate::text::{dec_digits, int_text, fmt_i64, push_char};
use crate::token::SpTok;
use crate::types::{entry_views_of, lisp_view, views_of, LispType, LispValue, SpVal};

verus! {

broadcast use vstd::std_specs::vec::group_vec_axioms, vstd::seq::group_seq_axioms;

/// The text a closure value prints as.
pub open spec fn closure_text() -> Seq<char> {
    seq!['#', '<', 'f', 'u', 'n', 'c', 't', 'i', 'o', 'n', ' ', '.', '.', '.', '>']
}

/// The text a native-function value prints as.
pub open spec fn native_text() -> Seq<char> {
    seq![
        '#',
        '<',
        'n',
        'a',
        't',
        'i',
        'v',
        'e',
        '-',
        'f',
        'u',
        'n',
        'c',
        't',
        'i',
        'o',
        'n',
        ' ',
        '.',
        '.',
        '.',
        '>',
    ]
}

/// The text `nil` prints as.
pub open spec fn nil_text() -> Seq<char> {
    seq!['n', 'i', 'l']
}

/// The rendering of one value.
pub open spec fn print_text(v: SpVal, readable: bool) -> Seq<char>
    decreases v,
{
    match v {
        SpVal::Nil => nil_text(),
        SpVal::Int(i) => int_text(i),
        SpVal::Str(s) => if readable {
            seq!['"'] + s + seq!['"']
        } else {
            s
        },
        SpVal::Sym(s) => s,
        SpVal::Lst(es) => seq!['('] + items_text(es, readable) + seq![')'],
        SpVal::Table(ps) => if ps.len() == 0 {
            seq!['{', '}']
        } else {
            seq!['{', ' '] + entries_text(ps, readable) + seq![' ', '}']
        },
        SpVal::Native(_) => native_text(),
        SpVal::Closure { .. } => closure_text(),
    }
}

/// The renderings of the elements of a list, separated by single spaces.
pub open spec fn items_text(es: Seq<SpVal>, readable: bool) -> Seq<char>
    decreases es,
{
    if es.len() == 0 {
        Seq::empty()
    } else if es.len() == 1 {
        print_text(es[0], readable)
    } else {
        print_text(es[0], readable) + seq![' '] + items_text(
            es.subrange(1, es.len() as int),
            readable,
        )
    }
}

/// The renderings of the entries of a table: each key quoted, then its
/// value, entries separated by single spaces.
pub open spec fn entries_text(ps: Seq<(Seq<char>, SpVal)>, readable: bool) -> Seq<char>
    decreases ps,
{
    if ps.len() == 0 {
        Seq::empty()
    } else if ps.len() == 1 {
        seq!['"'] + ps[0].0 + seq!['"', ' '] + print_text(ps[0].1, readable)
    } else {
        seq!['"'] + ps[0].0 + seq!['"', ' '] + print_text(ps[0].1, readable) + seq![' ']
            + entries_text(ps.subrange(1, ps.len() as int), readable)
    }
}

pub struct Printer;

impl Printer {
    pub fn new() -> Printer {
        Printer
    }

    /// Renders a value: quoted strings when `readable`, bare otherwise.
    pub fn print(&self, lisp_expr: &LispValue, readable: bool) -> (r: String)
        ensures
            r@ == print_text(lisp_expr@, readable),
        decreases *lisp_expr, 1int, 0int,
    {
        match lisp_expr {
            LispType::Nil => {
                let s = "nil".to_owned();
                proof {
                    reveal_strlit("nil");
                    assert(s@ =~= nil_text());
                }
                s
            },
            LispType::Integer(i) => fmt_i64(*i),
            LispType::Strn(s) => {
                if readable {
                    let mut r = String::new();
                    push_char(&mut r, '"');
                    r.append(s.as_str());
                    push_char(&mut r, '"');
                    proof {
                        assert(r@ =~= seq!['"'] + s@ + seq!['"']);
                    }
                    r
                } else {
                    s.clone()
                }
            },
            LispType::Symbol(s) => s.clone(),
            LispType::Function(_) => {
                let s = "#<function ...>".to_owned();
                proof {
                    reveal_strlit("#<function ...>");
                    assert(s@ =~= closure_text());
                }
                s
            },
            LispType::NativeFunction(_) => {
                let s = "#<native-function ...>".to_owned();
                proof {
                    reveal_strlit("#<native-function ...>");
                    assert(s@ =~= native_text());
                }
                s
            },
            LispType::List(exprs) => self.print_list(exprs, readable),
            LispType::HashMap(ps) => {
                if ps.len() == 0 {
                    let s = "{}".to_owned();
                    proof {
                        reveal_strlit("{}");
                        broadcast use crate::types::lemma_entry_views_of;

                        assert(s@ =~= seq!['{', '}']);
                    }
                    s
                } else {
                    let mut r = String::new();
                    push_char(&mut r, '{');
                    push_char(&mut r, ' ');
                    let entries = self.print_entries(ps, 0, readable);
                    r.append(entries.as_str());
                    push_char(&mut r, ' ');
                    push_char(&mut r, '}');
                    proof {
                        broadcast use crate::types::lemma_entry_views_of;

                        assert(entry_views_of(ps@).subrange(0, entry_views_of(ps@).len() as int)
                            =~= entry_views_of(ps@));
                        assert(r@ =~= seq!['{', ' '] + entries_text(entry_views_of(ps@), readable)
                            + seq![' ', '}']);
                    }
                    r
                }
            },
        }
    }

    /// Renders a list: the renderings of its elements, space separated,
    /// between parentheses.
    pub fn print_list(&self, exprs: &Vec<LispValue>, readable: bool) -> (r: String)
        ensures
            r@ == print_text(SpVal::Lst(views_of(exprs@)), readable),
        decreases exprs@, 3int, 0int,
    {
        let mut r = String::new();
        push_char(&mut r, '(');
        let items = self.print_items(exprs, 0, readable);
        r.append(items.as_str());
        push_char(&mut r, ')');
        proof {
            broadcast use crate::types::lemma_views_of;

            assert(views_of(exprs@).subrange(0, views_of(exprs@).len() as int) =~= views_of(
                exprs@,
            ));
            assert(r@ =~= seq!['('] + items_text(views_of(exprs@), readable) + seq![')']);
        }
        r
    }

    /// Renders the elements of `exprs` from position `i` on, space
    /// separated.
    fn print_items(&self, exprs: &Vec<LispValue>, i: usize, readable: bool) -> (r: String)
        requires
            i <= exprs@.len(),
        ensures
            r@ == items_text(views_of(exprs@).subrange(i as int, exprs@.len() as int), readable),
        decreases exprs@, 2int, exprs@.len() - i,
    {
        proof {
            broadcast use crate::types::lemma_views_of;

        }
        let ghost tail = views_of(exprs@).subrange(i as int, exprs@.len() as int);
        if i >= exprs.len() {
            let r = String::new();
            proof {
                assert(tail =~= Seq::<SpVal>::empty());
            }
            r
        } else if i == exprs.len() - 1 {
            let r = self.print(&exprs[i], readable);
            proof {
                assert(tail.len() == 1 && tail[0] == lisp_view(exprs@[i as int]));
            }
            r
        } else {
            let mut r = self.print(&exprs[i], readable);
            push_char(&mut r, ' ');
            let rest = self.print_items(exprs, i + 1, readable);
            r.append(rest.as_str());
            proof {
                assert(tail[0] == lisp_view(exprs@[i as int]));
                assert(tail.subrange(1, tail.len() as int) =~= views_of(exprs@).subrange(
                    i + 1,
                    exprs@.len() as int,
                ));
                assert(r@ =~= print_text(tail[0], readable) + seq![' '] + items_text(
                    tail.subrange(1, tail.len() as int),
                    readable,
                ));
            }
            r
        }
    }

    /// Renders the entries of `ps` from position `i` on: quoted key, a
    /// space, the value, entries space separated.
    fn print_entries(&self, ps: &Vec<(String, LispValue)>, i: usize, readable: bool) -> (r: String)
        requires
            i <= ps@.len(),
        ensures
            r@ == entries_text(entry_views_of(ps@).subrange(i as int, ps@.len() as int), readable),
        decreases ps@, 2int, ps@.len() - i,
    {
        proof {
            broadcast use crate::types::lemma_entry_views_of;

        }
        let ghost tail = entry_views_of(ps@).subrange(i as int, ps@.len() as int);
        if i >= ps.len() {
            let r = String::new();
            proof {
                assert(tail =~= Seq::<(Seq<char>, SpVal)>::empty());
            }
            r
        } else {
            let mut r = String::new();
            push_char(&mut r, '"');
            r.append(ps[i].0.as_str());
            push_char(&mut r, '"');
            push_char(&mut r, ' ');
            let v = self.print(&ps[i].1, readable);
            r.append(v.as_str());
            if i == ps.len() - 1 {
                proof {
                    assert(tail.len() == 1 && tail[0] == (
                        ps@[i as int].0@,
                        lisp_view(ps@[i as int].1),
                    ));
                    assert(r@ =~= seq!['"'] + tail[0].0 + seq!['"', ' '] + print_text(
                        tail[0].1,
                        readable,
                    ));
                }
                r
            } else {
                push_char(&mut r, ' ');
                let rest = self.print_entries(ps, i + 1, readable);
                r.append(rest.as_str());
                proof {
                    assert(tail[0] == (ps@[i as int].0@, lisp_view(ps@[i as int].1)));
                    assert(tail.subrange(1, tail.len() as int) =~= entry_views_of(ps@).subrange(
                        i + 1,
                        ps@.len() as int,
                    ));
                    assert(r@ =~= seq!['"'] + tail[0].0 + seq!['"', ' '] + print_text(
                        tail[0].1,
                        readable,
                    ) + seq![' '] + entries_text(tail.subrange(1, tail.len() as int), readable));
                }
                r
            }
        }
    }
}

// ---------------------------------------------------------------------
// The round-trip law: reading back a readably-written value.
// ---------------------------------------------------------------------

/// A character that may stand inside a written string token: anything
/// but the quote that ends it and the backslash that escapes.
pub open spec fn plain_str_char(c: char) -> bool {
    c != '"' && c != '\\'
}

/// The values the readable printing mode reproduces through `read`:
/// integers, `nil`, strings of plain characters, symbols that read
/// back as the same symbol, and lists of such values.  Functions do
/// not round-trip, and tables print in a brace syntax the reader does
/// not accept.
pub open spec fn writable(v: SpVal) -> bool
    decreases v,
{
    match v {
        SpVal::Nil => true,
        SpVal::Int(i) => i64::MIN <= i <= i64::MAX,
        SpVal::Str(s) => forall|i: int| 0 <= i < s.len() ==> plain_str_char(#[trigger] s[i]),
        SpVal::Sym(s) => {
            &&& s.len() > 0
            &&& (forall|i: int| 0 <= i < s.len() ==> is_word_char(#[trigger] s[i]))
            &&& s != nil_text()
            &&& !crate::text::is_int_literal(s)
        },
        SpVal::Lst(es) => writables(es),
        _ => false,
    }
}

pub open spec fn writables(es: Seq<SpVal>) -> bool
    decreases es,
{
    if es.len() == 0 {
        true
    } else {
        writable(es[0]) && writables(es.subrange(1, es.len() as int))
    }
}

/// The tokens the lexer finds in a written value.
pub open spec fn val_tokens(v: SpVal) -> Seq<SpTok>
    decreases v,
{
    match v {
        SpVal::Nil => seq![SpTok::Ident(nil_text())],
        SpVal::Int(i) => seq![SpTok::Ident(crate::text::int_text(i))],
        SpVal::Str(s) => seq![SpTok::Ident(seq!['"'] + s + seq!['"'])],
        SpVal::Sym(s) => seq![SpTok::Ident(s)],
        SpVal::Lst(es) => seq![SpTok::LParen] + items_tokens(es) + seq![SpTok::RParen],
        _ => Seq::empty(),
    }
}

pub open spec fn items_tokens(es: Seq<SpVal>) -> Seq<SpTok>
    decreases es,
{
    if es.len() == 0 {
        Seq::empty()
    } else {
        val_tokens(es[0]) + items_tokens(es.subrange(1, es.len() as int))
    }
}

/// Puts a run of tokens in front of a lexing result.
pub open spec fn toks_prepend_all(ts: Seq<SpTok>, r: Result<Seq<SpTok>, SpErr>) -> Result<
    Seq<SpTok>,
    SpErr,
> {
    match r {
        Result::Ok(us) => Result::Ok(ts + us),
        Result::Err(e) => Result::Err(e),
    }
}

/// A place where an atom may end: the end of the text, whitespace, or
/// a parenthesis.
pub open spec fn delimited(s: Seq<char>, p: int) -> bool {
    p == s.len() || is_space_char(s[p]) || s[p] == '(' || s[p] == ')'
}

proof fn lemma_prepend_all_cons(t: SpTok, ts: Seq<SpTok>, r: Result<Seq<SpTok>, SpErr>)
    ensures
        crate::lexer::toks_prepend(t, toks_prepend_all(ts, r)) == toks_prepend_all(
            seq![t] + ts,
            r,
        ),
{
    match r {
        Result::Ok(us) => {
            assert(seq![t] + (ts + us) =~= (seq![t] + ts) + us);
        },
        Result::Err(_) => {},
    }
}

proof fn lemma_prepend_all_app(a: Seq<SpTok>, b: Seq<SpTok>, r: Result<Seq<SpTok>, SpErr>)
    ensures
        toks_prepend_all(a, toks_prepend_all(b, r)) == toks_prepend_all(a + b, r),
{
    match r {
        Result::Ok(us) => {
            assert(a + (b + us) =~= (a + b) + us);
        },
        Result::Err(_) => {},
    }
}

/// Every decimal digit run is non-empty and made of digit characters.
proof fn lemma_dec_digits_chars(n: nat)
    ensures
        dec_digits(n).len() >= 1,
        forall|i: int|
            0 <= i < dec_digits(n).len() ==> crate::text::is_digit(#[trigger] dec_digits(n)[i]),
    decreases n,
{
    if n >= 10 {
        lemma_dec_digits_chars(n / 10);
    }
}

/// A digit is a word character; so is the minus sign.
proof fn lemma_int_text_chars(i: int)
    ensures
        int_text(i).len() >= 1,
        forall|j: int| 0 <= j < int_text(i).len() ==> is_word_char(#[trigger] int_text(i)[j]),
        is_word_char(int_text(i)[0]),
    decreases 0int,
{
    if i < 0 {
        lemma_dec_digits_chars((-i) as nat);
        assert forall|j: int| 0 <= j < int_text(i).len() implies is_word_char(
            #[trigger] int_text(i)[j],
        ) by {
            if j > 0 {
                assert(int_text(i)[j] == dec_digits((-i) as nat)[j - 1]);
                assert(crate::text::is_digit(dec_digits((-i) as nat)[j - 1]));
            }
        }
    } else {
        lemma_dec_digits_chars(i as nat);
        assert forall|j: int| 0 <= j < int_text(i).len() implies is_word_char(
            #[trigger] int_text(i)[j],
        ) by {
            assert(crate::text::is_digit(dec_digits(i as nat)[j]));
        }
    }
}

/// Scanning a run of plain characters closed by a quote finds exactly
/// that quote.
proof fn lemma_str_end_pin(s: Seq<char>, i: int, end: int)
    requires
        0 <= i <= end < s.len(),
        forall|j: int| i <= j < end ==> plain_str_char(#[trigger] s[j]),
        s[end] == '"',
    ensures
        crate::lexer::str_end(s, i) == Option::Some(end + 1),
    decreases end - i,
{
    if i < end {
        lemma_str_end_pin(s, i + 1, end);
    }
}

/// Lexing text that carries a written value at `pos`, ending at a
/// delimiter, finds exactly the value's tokens and goes on behind it.
proof fn lemma_lex_printed(s: Seq<char>, pos: int, v: SpVal)
    requires
        writable(v),
        0 <= pos,
        pos + print_text(v, true).len() <= s.len(),
        s.subrange(pos, pos + print_text(v, true).len() as int) == print_text(v, true),
        delimited(s, pos + print_text(v, true).len() as int),
    ensures
        tokenize_from(s, pos) == toks_prepend_all(
            val_tokens(v),
            tokenize_from(s, pos + print_text(v, true).len() as int),
        ),
    decreases v,
{
    broadcast use vstd::seq::group_seq_axioms;

    let text = print_text(v, true);
    let plen = text.len() as int;
    let after = pos + plen;
    assert forall|j: int| 0 <= j < plen implies s[pos + j] == text[j] by {
        assert(s.subrange(pos, after)[j] == s[pos + j]);
    }
    match v {
        SpVal::Nil => {
            assert(s[pos] == 'n' && s[pos + 1] == 'i' && s[pos + 2] == 'l');
            lemma_word_end_pin(s, pos, after);
            assert(s.subrange(pos, crate::lexer::word_end(s, pos)) =~= nil_text());
            lemma_prepend_all_cons(
                SpTok::Ident(nil_text()),
                Seq::empty(),
                tokenize_from(s, after),
            );
            assert(seq![SpTok::Ident(nil_text())] + Seq::<SpTok>::empty() =~= seq![
                SpTok::Ident(nil_text()),
            ]);
            assert(toks_prepend_all(Seq::empty(), tokenize_from(s, after)) == tokenize_from(
                s,
                after,
            )) by {
                match tokenize_from(s, after) {
                    Result::Ok(us) => {
                        assert(Seq::<SpTok>::empty() + us =~= us);
                    },
                    Result::Err(_) => {},
                }
            }
        },
        SpVal::Int(i) => {
            lemma_int_text_chars(i);
            assert forall|j: int| pos <= j < after implies is_word_char(#[trigger] s[j]) by {
                assert(s[j] == text[j - pos]);
                assert(is_word_char(int_text(i)[j - pos]));
            }
            assert(!is_space_char(s[pos]) && s[pos] != '(' && s[pos] != ')');
            if after < s.len() {
                assert(!is_word_char(s[after]));
            }
            lemma_word_end_pin(s, pos, after);
            assert(s.subrange(pos, crate::lexer::word_end(s, pos)) =~= int_text(i));
            lemma_prepend_all_cons(
                SpTok::Ident(int_text(i)),
                Seq::empty(),
                tokenize_from(s, after),
            );
            assert(seq![SpTok::Ident(int_text(i))] + Seq::<SpTok>::empty() =~= seq![
                SpTok::Ident(int_text(i)),
            ]);
            assert(toks_prepend_all(Seq::empty(), tokenize_from(s, after)) == tokenize_from(
                s,
                after,
            )) by {
                match tokenize_from(s, after) {
                    Result::Ok(us) => {
                        assert(Seq::<SpTok>::empty() + us =~= us);
                    },
                    Result::Err(_) => {},
                }
            }
        },
        SpVal::Sym(name) => {
            assert forall|j: int| pos <= j < after implies is_word_char(#[trigger] s[j]) by {
                assert(s[j] == text[j - pos]);
                assert(is_word_char(name[j - pos]));
            }
            assert(!is_space_char(s[pos]) && s[pos] != '(' && s[pos] != ')');
            if after < s.len() {
                assert(!is_word_char(s[after]));
            }
            lemma_word_end_pin(s, pos, after);
            assert(s.subrange(pos, crate::lexer::word_end(s, pos)) =~= name);
            lemma_prepend_all_cons(SpTok::Ident(name), Seq::empty(), tokenize_from(s, after));
            assert(seq![SpTok::Ident(name)] + Seq::<SpTok>::empty() =~= seq![SpTok::Ident(name)]);
            assert(toks_prepend_all(Seq::empty(), tokenize_from(s, after)) == tokenize_from(
                s,
                after,
            )) by {
                match tokenize_from(s, after) {
                    Result::Ok(us) => {
                        assert(Seq::<SpTok>::empty() + us =~= us);
                    },
                    Result::Err(_) => {},
                }
            }
        },
        SpVal::Str(content) => {
            assert(text[0] == '"');
            assert(s[pos + 0] == text[0]);
            assert(s[pos] == '"');
            assert forall|j: int| pos + 1 <= j < after - 1 implies plain_str_char(
                #[trigger] s[j],
            ) by {
                assert(s[j] == text[j - pos]);
                assert(text[j - pos] == content[j - pos - 1]);
            }
            assert(text[plen - 1] == '"');
            assert(s[pos + (plen - 1)] == text[plen - 1]);
            assert(s[after - 1] == '"');
            lemma_str_end_pin(s, pos + 1, after - 1);
            assert(s.subrange(pos, after) =~= seq!['"'] + content + seq!['"']);
            lemma_prepend_all_cons(
                SpTok::Ident(seq!['"'] + content + seq!['"']),
                Seq::empty(),
                tokenize_from(s, after),
            );
            assert(seq![SpTok::Ident(seq!['"'] + content + seq!['"'])] + Seq::<SpTok>::empty()
                =~= seq![SpTok::Ident(seq!['"'] + content + seq!['"'])]);
            assert(toks_prepend_all(Seq::empty(), tokenize_from(s, after)) == tokenize_from(
                s,
                after,
            )) by {
                match tokenize_from(s, after) {
                    Result::Ok(us) => {
                        assert(Seq::<SpTok>::empty() + us =~= us);
                    },
                    Result::Err(_) => {},
                }
            }
        },
        SpVal::Lst(es) => {
            let itext = items_text(es, true);
            assert(text =~= seq!['('] + itext + seq![')']);
            assert(text[0] == '(');
            assert(s[pos + 0] == text[0]);
            assert(s[pos] == '(');
            assert(text[plen - 1] == ')');
            assert(s[pos + (plen - 1)] == text[plen - 1]);
            assert(s[after - 1] == ')');
            assert(s.subrange(pos + 1, pos + 1 + itext.len() as int) =~= itext) by {
                assert forall|j: int|
                    0 <= j < itext.len() implies s.subrange(
                    pos + 1,
                    pos + 1 + itext.len() as int,
                )[j] == itext[j] by {
                    assert(s[pos + 1 + j] == text[1 + j]);
                    assert(text[1 + j] == itext[j]);
                }
            }
            lemma_lex_items(s, pos + 1, es);
            // the opening parenthesis, the items, the closing parenthesis
            assert(s[pos + 1 + itext.len() as int] == ')');
            assert(tokenize_from(s, pos + 1 + itext.len() as int) == crate::lexer::toks_prepend(
                SpTok::RParen,
                tokenize_from(s, after),
            ));
            lemma_prepend_all_cons(SpTok::RParen, Seq::empty(), tokenize_from(s, after));
            assert(seq![SpTok::RParen] + Seq::<SpTok>::empty() =~= seq![SpTok::RParen]);
            assert(toks_prepend_all(Seq::empty(), tokenize_from(s, after)) == tokenize_from(
                s,
                after,
            )) by {
                match tokenize_from(s, after) {
                    Result::Ok(us) => {
                        assert(Seq::<SpTok>::empty() + us =~= us);
                    },
                    Result::Err(_) => {},
                }
            }
            lemma_prepend_all_app(
                items_tokens(es),
                seq![SpTok::RParen],
                tokenize_from(s, after),
            );
            lemma_prepend_all_cons(
                SpTok::LParen,
                items_tokens(es) + seq![SpTok::RParen],
                tokenize_from(s, after),
            );
            assert(val_tokens(v) =~= seq![SpTok::LParen] + (items_tokens(es) + seq![
                SpTok::RParen,
            ]));
        },
        _ => {},
    }
}

/// Lexing the space-separated renderings of list elements, closed by a
/// parenthesis, finds exactly their tokens.
proof fn lemma_lex_items(s: Seq<char>, pos: int, es: Seq<SpVal>)
    requires
        writables(es),
        0 <= pos,
        pos + items_text(es, true).len() <= s.len(),
        s.subrange(pos, pos + items_text(es, true).len() as int) == items_text(es, true),
        pos + items_text(es, true).len() < s.len(),
        s[pos + items_text(es, true).len() as int] == ')',
    ensures
        tokenize_from(s, pos) == toks_prepend_all(
            items_tokens(es),
            tokenize_from(s, pos + items_text(es, true).len() as int),
        ),
    decreases es,
{
    broadcast use vstd::seq::group_seq_axioms;

    let itext = items_text(es, true);
    let after = pos + itext.len() as int;
    assert forall|j: int| 0 <= j < itext.len() implies s[pos + j] == itext[j] by {
        assert(s.subrange(pos, after)[j] == s[pos + j]);
    }
    if es.len() == 0 {
        match tokenize_from(s, pos) {
            Result::Ok(us) => {
                assert(Seq::<SpTok>::empty() + us =~= us);
            },
            Result::Err(_) => {},
        }
    } else if es.len() == 1 {
        assert(itext == print_text(es[0], true));
        assert(s.subrange(pos, pos + print_text(es[0], true).len() as int) =~= print_text(
            es[0],
            true,
        ));
        lemma_lex_printed(s, pos, es[0]);
        assert(items_tokens(es) =~= val_tokens(es[0]) + items_tokens(
            es.subrange(1, es.len() as int),
        ));
        assert(es.subrange(1, es.len() as int) =~= Seq::<SpVal>::empty());
        assert(items_tokens(es) =~= val_tokens(es[0]));
    } else {
        let head = print_text(es[0], true);
        let rest = es.subrange(1, es.len() as int);
        assert(itext == head + seq![' '] + items_text(rest, true));
        assert(s.subrange(pos, pos + head.len() as int) =~= head) by {
            assert forall|j: int|
                0 <= j < head.len() implies s.subrange(pos, pos + head.len() as int)[j] == head[j]
            by {
                assert(s[pos + j] == itext[j]);
                assert(itext[j] == (head + seq![' '])[j]);
            }
        }
        assert(s[pos + head.len() as int] == ' ') by {
            assert(itext[head.len() as int] == ' ');
        }
        lemma_lex_printed(s, pos, es[0]);
        // the separating space is skipped
        assert(tokenize_from(s, pos + head.len() as int) == tokenize_from(
            s,
            pos + head.len() + 1,
        ));
        assert(s.subrange(
            pos + head.len() + 1,
            pos + head.len() + 1 + items_text(rest, true).len() as int,
        ) =~= items_text(rest, true)) by {
            assert forall|j: int|
                0 <= j < items_text(rest, true).len() implies s[pos + head.len() + 1 + j]
                == items_text(rest, true)[j] by {
                assert(s[pos + head.len() + 1 + j] == itext[head.len() + 1 + j]);
                assert(itext[head.len() + 1 + j] == items_text(rest, true)[j]);
            }
        }
        lemma_lex_items(s, pos + head.len() + 1, rest);
        lemma_prepend_all_app(
            val_tokens(es[0]),
            items_tokens(rest),
            tokenize_from(s, after),
        );
        assert(items_tokens(es) =~= val_tokens(es[0]) + items_tokens(rest));
    }
}

/// The digits of a number read back as the number.
proof fn lemma_digits_val_dec(n: nat)
    ensures
        crate::text::digits_val(dec_digits(n)) == n,
    decreases n,
{
    if n < 10 {
        reveal_with_fuel(crate::text::digits_val, 3);
        assert(dec_digits(n) =~= seq![crate::text::digit_char(n)]);
        assert(dec_digits(n).subrange(0, 0) =~= Seq::<char>::empty());
        assert(crate::text::digit_val(crate::text::digit_char(n)) == n);
    } else {
        lemma_digits_val_dec(n / 10);
        assert(dec_digits(n).subrange(0, dec_digits(n).len() - 1) =~= dec_digits(n / 10));
        assert(crate::text::digit_val(crate::text::digit_char(n % 10)) == n % 10);
        assert((n / 10) * 10 + n % 10 == n) by (nonlinear_arith);
    }
}

/// A written integer is classified as an integer literal and reads
/// back as the same number.
proof fn lemma_int_text_reads_back(i: int)
    ensures
        crate::text::is_int_literal(int_text(i)),
        crate::text::int_literal_val(int_text(i)) == i,
{
    let text = int_text(i);
    if i < 0 {
        lemma_dec_digits_chars((-i) as nat);
        lemma_digits_val_dec((-i) as nat);
        assert(text[0] == '-');
        assert forall|j: int| 1 <= j < text.len() implies crate::text::is_digit(
            #[trigger] text[j],
        ) by {
            assert(text[j] == dec_digits((-i) as nat)[j - 1]);
        }
        assert(text.subrange(1, text.len() as int) =~= dec_digits((-i) as nat));
    } else {
        lemma_dec_digits_chars(i as nat);
        lemma_digits_val_dec(i as nat);
        assert forall|j: int| 0 <= j < text.len() implies crate::text::is_digit(
            #[trigger] text[j],
        ) by {
            assert(text[j] == dec_digits(i as nat)[j]);
        }
        assert(text[0] != '-') by {
            assert(crate::text::is_digit(dec_digits(i as nat)[0]));
        }
    }
}

/// The first token of a written value is never a closing parenthesis.
proof fn lemma_val_tokens_shape(v: SpVal)
    requires
        writable(v),
    ensures
        val_tokens(v).len() >= 1,
        val_tokens(v)[0] != SpTok::RParen,
{
    match v {
        SpVal::Lst(es) => {
            assert(val_tokens(v)[0] == SpTok::LParen);
        },
        _ => {},
    }
}

/// One atom token reads back as the value it was written from.
proof fn lemma_atom_reads_back(v: SpVal)
    requires
        writable(v),
        !(v is Lst),
    ensures
        val_tokens(v).len() == 1,
        (val_tokens(v)[0] matches SpTok::Ident(text) && crate::parser::atom_val(text)
            == Result::<SpVal, SpErr>::Ok(v)),
{
    match v {
        SpVal::Nil => {
            assert(!crate::text::is_int_literal(nil_text())) by {
                assert(nil_text()[0] == 'n');
            }
        },
        SpVal::Int(i) => {
            lemma_int_text_reads_back(i);
        },
        SpVal::Str(content) => {
            let text = seq!['"'] + content + seq!['"'];
            assert(text[0] == '"');
            assert(text[text.len() - 1] == '"');
            assert(!crate::text::is_int_literal(text));
            assert(text != nil_text()) by {
                assert(nil_text()[0] == 'n');
            }
            assert(text.subrange(1, text.len() - 1) =~= content);
        },
        SpVal::Sym(name) => {
            assert(name[0] != '"') by {
                assert(is_word_char(name[0]));
            }
            assert(!(name.len() >= 2 && name[0] == '"' && name[name.len() - 1] == '"'));
        },
        _ => {},
    }
}

/// A written value's tokens, standing at `pos`, parse back as exactly
/// that value, consuming exactly them.
proof fn lemma_parse_printed(toks: Seq<SpTok>, pos: int, v: SpVal)
    requires
        writable(v),
        0 <= pos,
        pos + val_tokens(v).len() <= toks.len(),
        toks.subrange(pos, pos + val_tokens(v).len() as int) == val_tokens(v),
    ensures
        crate::parser::read_lisp_sp(toks, pos) == Result::<(SpVal, int), SpErr>::Ok(
            (v, pos + val_tokens(v).len() as int),
        ),
    decreases v,
{
    broadcast use vstd::seq::group_seq_axioms;

    let vt = val_tokens(v);
    let tlen = vt.len() as int;
    assert forall|j: int| 0 <= j < tlen implies toks[pos + j] == vt[j] by {
        assert(toks.subrange(pos, pos + tlen)[j] == toks[pos + j]);
    }
    match v {
        SpVal::Lst(es) => {
            assert(vt[0] == SpTok::LParen);
            assert(toks[pos + 0] == vt[0]);
            let it = items_tokens(es);
            assert(vt =~= seq![SpTok::LParen] + it + seq![SpTok::RParen]);
            assert(toks.subrange(pos + 1, pos + 1 + it.len() as int) =~= it) by {
                assert forall|j: int|
                    0 <= j < it.len() implies toks.subrange(
                    pos + 1,
                    pos + 1 + it.len() as int,
                )[j] == it[j] by {
                    assert(toks[pos + 1 + j] == vt[1 + j]);
                    assert(vt[1 + j] == it[j]);
                }
            }
            assert(vt[tlen - 1] == SpTok::RParen);
            assert(toks[pos + (tlen - 1)] == vt[tlen - 1]);
            lemma_parse_items(toks, pos + 1, es);
        },
        _ => {
            lemma_atom_reads_back(v);
            assert(toks[pos + 0] == vt[0]);
        },
    }
}

/// The tokens of written list elements, closed by a parenthesis, parse
/// back as exactly those elements.
proof fn lemma_parse_items(toks: Seq<SpTok>, pos: int, es: Seq<SpVal>)
    requires
        writables(es),
        0 <= pos,
        pos + items_tokens(es).len() < toks.len(),
        toks.subrange(pos, pos + items_tokens(es).len() as int) == items_tokens(es),
        toks[pos + items_tokens(es).len() as int] == SpTok::RParen,
    ensures
        crate::parser::read_forms_sp(toks, pos) == Result::<(Seq<SpVal>, int), SpErr>::Ok(
            (es, pos + items_tokens(es).len() + 1),
        ),
    decreases es,
{
    broadcast use vstd::seq::group_seq_axioms;

    let it = items_tokens(es);
    assert forall|j: int| 0 <= j < it.len() implies toks[pos + j] == it[j] by {
        assert(toks.subrange(pos, pos + it.len() as int)[j] == toks[pos + j]);
    }
    if es.len() == 0 {
        assert(toks[pos] == SpTok::RParen);
        assert(es =~= Seq::<SpVal>::empty());
    } else {
        let head = val_tokens(es[0]);
        let rest = es.subrange(1, es.len() as int);
        assert(it =~= head + items_tokens(rest));
        lemma_val_tokens_shape(es[0]);
        assert(toks[pos + 0] == it[0]);
        assert(it[0] == head[0]);
        assert(toks[pos] != SpTok::RParen);
        assert(toks.subrange(pos, pos + head.len() as int) =~= head) by {
            assert forall|j: int|
                0 <= j < head.len() implies toks.subrange(pos, pos + head.len() as int)[j]
                == head[j] by {
                assert(toks[pos + j] == it[j]);
                assert(it[j] == head[j]);
            }
        }
        lemma_parse_printed(toks, pos, es[0]);
        let p2 = pos + head.len() as int;
        assert(toks.subrange(p2, p2 + items_tokens(rest).len() as int) =~= items_tokens(
            rest,
        )) by {
            assert forall|j: int|
                0 <= j < items_tokens(rest).len() implies toks[p2 + j] == items_tokens(
                rest,
            )[j] by {
                assert(toks[pos + (head.len() + j)] == it[head.len() + j]);
                assert(it[head.len() + j] == items_tokens(rest)[j]);
            }
        }
        assert(toks[p2 + items_tokens(rest).len() as int] == SpTok::RParen);
        lemma_parse_items(toks, p2, rest);
        assert(seq![es[0]] + rest =~= es);
    }
}

/// The printer round-trip law: a writable value, written readably,
/// lexes to exactly its tokens, and those tokens parse back as a value
/// structurally equal to the one written.  At the top level the reader
/// accepts a Lisp program, which a written list is, so `read` of
/// `write` reproduces such a value exactly.
pub proof fn lemma_write_read_round_trip(v: SpVal)
    requires
        writable(v),
    ensures
        tokens_of(print_text(v, true)) == Result::<Seq<SpTok>, SpErr>::Ok(val_tokens(v)),
        crate::parser::read_lisp_sp(val_tokens(v), 0) == Result::<(SpVal, int), SpErr>::Ok(
            (v, val_tokens(v).len() as int),
        ),
        (v is Lst ==> crate::evaluator::read_sp(print_text(v, true)) == Result::<
            SpVal,
            SpErr,
        >::Ok(v)),
{
    broadcast use vstd::seq::group_seq_axioms;

    let s = print_text(v, true);
    assert(s.subrange(0, s.len() as int) =~= s);
    lemma_lex_printed(s, 0, v);
    assert(tokenize_from(s, s.len() as int) == Result::<Seq<SpTok>, SpErr>::Ok(Seq::empty()));
    assert(val_tokens(v) + Seq::<SpTok>::empty() =~= val_tokens(v));
    let vt = val_tokens(v);
    assert(vt.subrange(0, vt.len() as int) =~= vt);
    lemma_parse_printed(vt, 0, v);
    match v {
        SpVal::Lst(es) => {
            assert(vt[0] == SpTok::LParen);
            lemma_val_tokens_shape(v);
        },
        _ => {},
    }
}

} // verus!
