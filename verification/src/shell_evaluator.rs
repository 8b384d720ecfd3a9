//! The decision half of shell-command execution: alias resolution
//! against the `ALIASES` binding of the environment, and classification
//! of the command as a shell builtin or an external program.  Spawning
//! the resulting process is the caller's job; this module only computes
//! what to run.

use vstd::prelude::*;
use vstd::string::StrSliceExecFns;

use crate::env::{env_get, lookup, Env, EnvArena, SpFrame};
use crate::error::{Error, SpErr};
use crate::evaluator::wf_state;
use crate::lexer::Lexer;
use crate::parser::read_shell_sp;
use crate::text::str_eqs;
use crate::token::{lemma_tok_views, tok_views, SpTok, Token};
use crate::types::{name_views_of, LispType, ShellExpr, SpShellExpr, SpVal};

verus! {

broadcast use vstd::std_specs::vec::group_vec_axioms, vstd::seq::group_seq_axioms;

/// The name of the alias table binding.
pub open spec fn aliases_text() -> Seq<char> {
    seq!['A', 'L', 'I', 'A', 'S', 'E', 'S']
}

/// The innermost binding of `k` in an ordered table: the latest entry
/// wins, as in the executable tables.
pub open spec fn tbl_get(ps: Seq<(Seq<char>, SpVal)>, k: Seq<char>) -> Option<SpVal>
    decreases ps.len(),
{
    if ps.len() == 0 {
        Option::None
    } else if ps[ps.len() - 1].0 == k {
        Option::Some(ps[ps.len() - 1].1)
    } else {
        tbl_get(ps.subrange(0, ps.len() - 1), k)
    }
}

/// The alias text for `name`: the `ALIASES` binding, if any, must be a
/// table, and its entry for `name`, if any, must be a string.
pub open spec fn alias_mapping_sp(st: Seq<SpFrame>, env: int, name: Seq<char>) -> Result<
    Option<Seq<char>>,
    SpErr,
> {
    match lookup(st, env, aliases_text()) {
        Option::None => Result::Ok(Option::None),
        Option::Some(v) => match v {
            SpVal::Table(ps) => match tbl_get(ps, name) {
                Option::None => Result::Ok(Option::None),
                Option::Some(w) => match w {
                    SpVal::Str(text) => Result::Ok(Option::Some(text)),
                    _ => Result::Err(SpErr::TypeError),
                },
            },
            _ => Result::Err(SpErr::TypeError),
        },
    }
}

/// Alias substitution: when the command name is aliased, the mapped
/// text is re-tokenized and becomes the new command-and-argument
/// prefix; the original arguments follow it.
pub open spec fn resolve_alias_sp(se: SpShellExpr, st: Seq<SpFrame>, env: int) -> Result<
    SpShellExpr,
    SpErr,
> {
    match alias_mapping_sp(st, env, se.command) {
        Result::Err(e) => Result::Err(e),
        Result::Ok(Option::None) => Result::Ok(se),
        Result::Ok(Option::Some(text)) => match crate::lexer::tokens_of(text) {
            Result::Err(e) => Result::Err(e),
            Result::Ok(toks) => match read_shell_sp(toks, 0) {
                Result::Err(e) => Result::Err(e),
                Result::Ok(ws) => if ws.len() > 0 {
                    Result::Ok(
                        SpShellExpr {
                            command: ws[0],
                            args: ws.subrange(1, ws.len() as int) + se.args,
                        },
                    )
                } else {
                    Result::Err(SpErr::ParseError)
                },
            },
        },
    }
}

/// Looks up the alias text for `name` in the environment of the
/// current session.
#[verifier::loop_isolation(false)]
pub fn get_alias_mapping(name: &str, env: Env, arena: &EnvArena) -> (r: Result<
    Option<String>,
    Error,
>)
    requires
        crate::env::arena_wf(arena@),
        env < arena@.len(),
    ensures
        match r {
            Result::Ok(Option::None) => alias_mapping_sp(arena@, env as int, name@)
                == Result::<Option<Seq<char>>, SpErr>::Ok(Option::<Seq<char>>::None),
            Result::Ok(Option::Some(text)) => alias_mapping_sp(arena@, env as int, name@)
                == Result::<Option<Seq<char>>, SpErr>::Ok(Option::Some(text@)),
            Result::Err(e) => alias_mapping_sp(arena@, env as int, name@) == Result::<
                Option<Seq<char>>,
                SpErr,
            >::Err(e@),
        },
{
    broadcast use crate::types::lemma_entry_views_of;

    proof {
        reveal_strlit("ALIASES");
        assert(("ALIASES")@ =~= aliases_text());
    }
    let value = match env_get(arena, env, "ALIASES") {
        Result::Ok(v) => v,
        Result::Err(_) => {
            return Result::Ok(Option::None);
        },
    };
    match value {
        LispType::HashMap(entries) => {
            let n = entries.len();
            let mut i: usize = n;
            proof {
                assert(crate::types::entry_views_of(entries@).subrange(0, n as int)
                    =~= crate::types::entry_views_of(entries@));
            }
            while i > 0
                invariant
                    i <= n,
                    n == entries@.len(),
                    tbl_get(crate::types::entry_views_of(entries@), name@) == tbl_get(
                        crate::types::entry_views_of(entries@).subrange(0, i as int),
                        name@,
                    ),
                decreases i,
            {
                proof {
                    broadcast use crate::types::lemma_entry_views_of;

                }
                i = i - 1;
                let ghost evs = crate::types::entry_views_of(entries@);
                proof {
                    assert(evs.subrange(0, i + 1).subrange(0, i as int) =~= evs.subrange(
                        0,
                        i as int,
                    ));
                }
                if str_eqs(entries[i].0.as_str(), name) {
                    match &entries[i].1 {
                        LispType::Strn(text) => {
                            return Result::Ok(Option::Some(text.clone()));
                        },
                        _ => {
                            return Result::Err(Error::TypeError);
                        },
                    }
                }
            }
            proof {
                broadcast use crate::types::lemma_entry_views_of;

                assert(crate::types::entry_views_of(entries@).subrange(0, 0) =~= Seq::<
                    (Seq<char>, SpVal),
                >::empty());
            }
            Result::Ok(Option::None)
        },
        _ => Result::Err(Error::TypeError),
    }
}

/// Resolves the alias, if any, of the command of `expr`: the mapped
/// text is re-tokenized as the new command-and-argument prefix.
#[verifier::loop_isolation(false)]
pub fn resolve_alias(expr: ShellExpr, env: Env, arena: &EnvArena) -> (r: Result<ShellExpr, Error>)
    requires
        crate::env::arena_wf(arena@),
        env < arena@.len(),
    ensures
        match r {
            Result::Ok(out) => resolve_alias_sp(expr@, arena@, env as int) == Result::<
                SpShellExpr,
                SpErr,
            >::Ok(out@),
            Result::Err(e) => resolve_alias_sp(expr@, arena@, env as int) == Result::<
                SpShellExpr,
                SpErr,
            >::Err(e@),
        },
{
    broadcast use lemma_tok_views;

    let mapping = match get_alias_mapping(expr.command.as_str(), env, arena) {
        Result::Ok(m) => m,
        Result::Err(e) => {
            return Result::Err(e);
        },
    };
    let text = match mapping {
        Option::Some(t) => t,
        Option::None => {
            return Result::Ok(expr);
        },
    };
    let lexer = Lexer::new();
    let tokens = match lexer.tokenize(text.as_str()) {
        Result::Ok(toks) => toks,
        Result::Err(e) => {
            return Result::Err(e);
        },
    };
    let ghost toks = tok_views(tokens@);
    let mut words: Vec<String> = Vec::new();
    let n = tokens.len();
    let mut i: usize = 0;
    while i < n
        invariant
            i <= n,
            n == tokens@.len(),
            toks == tok_views(tokens@),
            (match read_shell_sp(toks, i as int) {
                Result::Ok(ws) => read_shell_sp(toks, 0) == Result::<Seq<Seq<char>>, SpErr>::Ok(
                    name_views_of(words@) + ws,
                ),
                Result::Err(e) => read_shell_sp(toks, 0) == Result::<Seq<Seq<char>>, SpErr>::Err(
                    e,
                ),
            }),
        decreases n - i,
    {
        match &tokens[i] {
            Token::Ident(w) => {
                let word = w.clone();
                proof {
                    assert(name_views_of(words@.push(word)) =~= name_views_of(words@).push(
                        word@,
                    ));
                    assert forall|ws2: Seq<Seq<char>>|
                        true implies name_views_of(words@) + (seq![word@] + ws2) =~= name_views_of(
                        words@.push(word),
                    ) + ws2 by {}
                }
                words.push(word);
            },
            _ => {
                return Result::Err(Error::ParseError);
            },
        }
        i = i + 1;
    }
    proof {
        assert(name_views_of(words@) + Seq::<Seq<char>>::empty() =~= name_views_of(words@));
    }
    if words.len() == 0 {
        return Result::Err(Error::ParseError);
    }
    let ghost allw = name_views_of(words@);
    let mut words = words;
    let command = words.remove(0);
    let mut args = words;
    let ghost prefix = name_views_of(args@);
    let mut rest = expr.args;
    let ghost orig_args = name_views_of(rest@);
    args.append(&mut rest);
    proof {
        assert(prefix =~= allw.subrange(1, allw.len() as int));
        assert(name_views_of(args@) =~= prefix + orig_args);
    }
    Result::Ok(ShellExpr { command, args })
}

/// Translates shell programs into the command to run, with aliases
/// resolved; performing the process spawn is left to the caller.
pub struct ShellEvaluator;

impl ShellEvaluator {
    pub fn new() -> ShellEvaluator {
        ShellEvaluator
    }

    /// The command a shell program stands for once aliases are
    /// resolved.
    pub fn eval(&self, shell_expr: ShellExpr, env: Env, arena: &EnvArena) -> (r: Result<
        ShellExpr,
        Error,
    >)
        requires
            crate::env::arena_wf(arena@),
            env < arena@.len(),
        ensures
            match r {
                Result::Ok(out) => resolve_alias_sp(shell_expr@, arena@, env as int) == Result::<
                    SpShellExpr,
                    SpErr,
                >::Ok(out@),
                Result::Err(e) => resolve_alias_sp(shell_expr@, arena@, env as int) == Result::<
                    SpShellExpr,
                    SpErr,
                >::Err(e@),
            },
    {
        resolve_alias(shell_expr, env, arena)
    }
}

/// A command is either a shell builtin or an external program.
pub enum CommandType {
    Builtin(Builtin),
    External(String),
}

/// The builtins the shell itself provides.
#[derive(Clone, Copy, PartialEq, Eq, Structural, Debug)]
pub enum Builtin {
    Echo,
    Cd,
}

pub open spec fn cd_text() -> Seq<char> {
    seq!['c', 'd']
}

pub open spec fn echo_text() -> Seq<char> {
    seq!['e', 'c', 'h', 'o']
}

/// Classifies a command name: `cd` and `echo` are builtins, everything
/// else is an external program to spawn under its own name.
pub fn resolve_command_type(cmd: String) -> (r: CommandType)
    ensures
        cmd@ == cd_text() ==> r is Builtin && (r matches CommandType::Builtin(b) && b
            == Builtin::Cd),
        cmd@ == echo_text() ==> r is Builtin && (r matches CommandType::Builtin(b) && b
            == Builtin::Echo),
        cmd@ != cd_text() && cmd@ != echo_text() ==> (r matches CommandType::External(name)
            && name@ == cmd@),
{
    proof {
        reveal_strlit("cd");
        reveal_strlit("echo");
        assert(("cd")@ =~= cd_text());
        assert(("echo")@ =~= echo_text());
    }
    if str_eqs(cmd.as_str(), "cd") {
        CommandType::Builtin(Builtin::Cd)
    } else if str_eqs(cmd.as_str(), "echo") {
        CommandType::Builtin(Builtin::Echo)
    } else {
        CommandType::External(cmd)
    }
}


/// Reading a table with one more entry in front: the rest of the table
/// wins; the front entry only answers for its key when no later entry
/// holds it.
pub proof fn lemma_tbl_get_cons(x: (Seq<char>, SpVal), s: Seq<(Seq<char>, SpVal)>, key: Seq<char>)
    ensures
        tbl_get(seq![x] + s, key) == (match tbl_get(s, key) {
            Option::Some(w) => Option::Some(w),
            Option::None => if x.0 == key {
                Option::Some(x.1)
            } else {
                Option::<SpVal>::None
            },
        }),
    decreases s.len(),
{
    let t = seq![x] + s;
    if s.len() == 0 {
        assert(t =~= seq![x]);
        assert(t.len() == 1 && t[0] == x);
        assert(t.subrange(0, 0) =~= Seq::<(Seq<char>, SpVal)>::empty());
        assert(tbl_get(t.subrange(0, 0), key) is None);
        assert(tbl_get(s, key) is None);
        if x.0 == key {
            assert(tbl_get(t, key) == Option::Some(x.1));
        } else {
            assert(tbl_get(t, key) is None);
        }
    } else {
        assert(t[t.len() - 1] == s[s.len() - 1]);
        assert(t.subrange(0, t.len() - 1) =~= seq![x] + s.subrange(0, s.len() - 1));
        lemma_tbl_get_cons(x, s.subrange(0, s.len() - 1), key);
        if s[s.len() - 1].0 == key {
            assert(tbl_get(t, key) == Option::Some(s[s.len() - 1].1));
            assert(tbl_get(s, key) == Option::Some(s[s.len() - 1].1));
        } else {
            assert(tbl_get(t, key) == tbl_get(seq![x] + s.subrange(0, s.len() - 1), key));
            assert(tbl_get(s, key) == tbl_get(s.subrange(0, s.len() - 1), key));
        }
    }
}

/// A key bound by no entry reads as absent.
pub proof fn lemma_tbl_get_missing(s: Seq<(Seq<char>, SpVal)>, key: Seq<char>)
    requires
        forall|j: int| 0 <= j < s.len() ==> (#[trigger] s[j]).0 != key,
    ensures
        tbl_get(s, key) is None,
    decreases s.len(),
{
    if s.len() > 0 {
        lemma_tbl_get_missing(s.subrange(0, s.len() - 1), key);
    }
}

/// After `upsert`, the key reads as the new value and every other key
/// reads as before.
pub proof fn lemma_tbl_get_upsert(ps: Seq<(Seq<char>, SpVal)>, k: Seq<char>, v: SpVal)
    requires
        crate::evaluator::keys_distinct(ps),
    ensures
        tbl_get(crate::evaluator::upsert(ps, k, v), k) == Option::Some(v),
        forall|k2: Seq<char>|
            k2 != k ==> #[trigger] tbl_get(crate::evaluator::upsert(ps, k, v), k2) == tbl_get(
                ps,
                k2,
            ),
    decreases ps.len(),
{
    let out = crate::evaluator::upsert(ps, k, v);
    if ps.len() == 0 {
        assert(out =~= seq![(k, v)]);
        assert(out.subrange(0, 0) =~= Seq::<(Seq<char>, SpVal)>::empty());
        assert forall|k2: Seq<char>| k2 != k implies #[trigger] tbl_get(out, k2) == tbl_get(
            ps,
            k2,
        ) by {
            lemma_tbl_get_missing(ps, k2);
            assert forall|j: int| 0 <= j < out.len() implies (#[trigger] out[j]).0 != k2 by {
                assert(out[j] == (k, v));
            }
            lemma_tbl_get_missing(out, k2);
        }
    } else {
        let rest = ps.subrange(1, ps.len() as int);
        assert(ps =~= seq![ps[0]] + rest);
        if ps[0].0 == k {
            assert(out == seq![(k, v)] + rest);
            assert forall|j: int| 0 <= j < rest.len() implies (#[trigger] rest[j]).0 != k by {
                assert(rest[j] == ps[j + 1]);
            }
            lemma_tbl_get_missing(rest, k);
            lemma_tbl_get_cons((k, v), rest, k);
            assert forall|k2: Seq<char>| k2 != k implies #[trigger] tbl_get(out, k2) == tbl_get(
                ps,
                k2,
            ) by {
                lemma_tbl_get_cons((k, v), rest, k2);
                lemma_tbl_get_cons(ps[0], rest, k2);
            }
        } else {
            assert(crate::evaluator::keys_distinct(rest)) by {
                assert forall|i: int, j: int|
                    0 <= i < j < rest.len() implies (#[trigger] rest[i]).0 != (
                    #[trigger] rest[j]).0 by {
                    assert(rest[i] == ps[i + 1] && rest[j] == ps[j + 1]);
                }
            }
            lemma_tbl_get_upsert(rest, k, v);
            let urest = crate::evaluator::upsert(rest, k, v);
            assert(out == seq![ps[0]] + urest);
            lemma_tbl_get_cons(ps[0], urest, k);
            assert forall|k2: Seq<char>| k2 != k implies #[trigger] tbl_get(out, k2) == tbl_get(
                ps,
                k2,
            ) by {
                lemma_tbl_get_cons(ps[0], urest, k2);
                lemma_tbl_get_cons(ps[0], rest, k2);
            }
        }
    }
}

} // verus!
