//! The evaluator: consumes one parsed program and an environment;
//! dispatches on program kind; for Lisp, recursively evaluates nested
//! lists, resolves special forms, applies functions, and returns a value.
//!
//! The meaning of evaluation is pinned down by `eval_sp`, a big-step
//! semantics over the model types, indexed by a depth budget; the
//! executable evaluator returns exactly what the semantics prescribes,
//! with `DepthExceeded` in place of unbounded recursion.

use vstd::prelude::*;

use crate::env::{
    arena_wf, env_get, env_new, env_set, lookup, Env, EnvArena, SpFrame,
};
use crate::error::{Error, SpErr};
use crate::printer::print_text;
use crate::text::str_eqs;
use crate::types::{
    self, dup, lemma_views_of, views_of, name_views_of, LispType, LispValue, NativeOp, Program,
    ShellExpr, SpVal,
};

verus! {

broadcast use vstd::std_specs::vec::group_vec_axioms, vstd::seq::group_seq_axioms, vstd::map::group_map_axioms, vstd::set::group_set_axioms;

// ---------------------------------------------------------------------
// Closedness: every closure inside a value points at an existing frame.
// ---------------------------------------------------------------------

/// All closures inside `v` capture environments below `n`.
pub open spec fn val_closed(v: SpVal, n: int) -> bool
    decreases v,
{
    match v {
        SpVal::Lst(es) => vals_closed(es, n),
        SpVal::Table(ps) => tbl_closed(ps, n),
        SpVal::Closure { params, body, env } => 0 <= env < n && val_closed(*body, n),
        _ => true,
    }
}

pub open spec fn vals_closed(es: Seq<SpVal>, n: int) -> bool
    decreases es,
{
    if es.len() == 0 {
        true
    } else {
        val_closed(es[0], n) && vals_closed(es.subrange(1, es.len() as int), n)
    }
}

pub open spec fn tbl_closed(ps: Seq<(Seq<char>, SpVal)>, n: int) -> bool
    decreases ps,
{
    if ps.len() == 0 {
        true
    } else {
        val_closed(ps[0].1, n) && tbl_closed(ps.subrange(1, ps.len() as int), n)
    }
}

pub broadcast proof fn lemma_vals_closed(es: Seq<SpVal>, n: int)
    ensures
        #[trigger] vals_closed(es, n) <==> (forall|i: int|
            0 <= i < es.len() ==> val_closed(#[trigger] es[i], n)),
    decreases es.len(),
{
    if es.len() > 0 {
        lemma_vals_closed(es.subrange(1, es.len() as int), n);
        assert forall|i: int| 0 <= i < es.len() && vals_closed(es, n) implies val_closed(
            #[trigger] es[i],
            n,
        ) by {
            if i > 0 {
                assert(es.subrange(1, es.len() as int)[i - 1] == es[i]);
            }
        }
        if forall|i: int| 0 <= i < es.len() ==> val_closed(#[trigger] es[i], n) {
            assert forall|i: int|
                0 <= i < es.subrange(1, es.len() as int).len() implies val_closed(
                #[trigger] es.subrange(1, es.len() as int)[i],
                n,
            ) by {
                assert(es.subrange(1, es.len() as int)[i] == es[i + 1]);
            }
        }
    }
}

pub broadcast proof fn lemma_tbl_closed(ps: Seq<(Seq<char>, SpVal)>, n: int)
    ensures
        #[trigger] tbl_closed(ps, n) <==> (forall|i: int|
            0 <= i < ps.len() ==> val_closed((#[trigger] ps[i]).1, n)),
    decreases ps.len(),
{
    if ps.len() > 0 {
        lemma_tbl_closed(ps.subrange(1, ps.len() as int), n);
        assert forall|i: int| 0 <= i < ps.len() && tbl_closed(ps, n) implies val_closed(
            (#[trigger] ps[i]).1,
            n,
        ) by {
            if i > 0 {
                assert(ps.subrange(1, ps.len() as int)[i - 1] == ps[i]);
            }
        }
        if forall|i: int| 0 <= i < ps.len() ==> val_closed((#[trigger] ps[i]).1, n) {
            assert forall|i: int|
                0 <= i < ps.subrange(1, ps.len() as int).len() implies val_closed(
                (#[trigger] ps.subrange(1, ps.len() as int)[i]).1,
                n,
            ) by {
                assert(ps.subrange(1, ps.len() as int)[i] == ps[i + 1]);
            }
        }
    }
}

/// Closedness only asks for frames below `n`, so it survives growth.
pub broadcast proof fn lemma_val_closed_grow(v: SpVal, n: int, m: int)
    requires
        n <= m,
        #[trigger] val_closed(v, n),
    ensures
        #[trigger] val_closed(v, m),
    decreases v,
{
    broadcast use lemma_vals_closed, lemma_tbl_closed;

    match v {
        SpVal::Lst(es) => {
            assert(vals_closed(es, n));
            assert(forall|i: int| 0 <= i < es.len() ==> val_closed(#[trigger] es[i], n));
            assert forall|i: int| 0 <= i < es.len() implies val_closed(#[trigger] es[i], m) by {
                lemma_val_closed_grow(es[i], n, m);
            }
            assert(vals_closed(es, m));
        },
        SpVal::Table(ps) => {
            assert(tbl_closed(ps, n));
            assert(forall|i: int| 0 <= i < ps.len() ==> val_closed((#[trigger] ps[i]).1, n));
            assert forall|i: int| 0 <= i < ps.len() implies val_closed(
                (#[trigger] ps[i]).1,
                m,
            ) by {
                lemma_val_closed_grow(ps[i].1, n, m);
            }
            assert(tbl_closed(ps, m));
        },
        SpVal::Closure { params, body, env } => {
            lemma_val_closed_grow(*body, n, m);
        },
        _ => {},
    }
}

/// A well-formed state: parent links point backwards and every value
/// bound in any frame is closed.
pub open spec fn wf_state(st: Seq<SpFrame>) -> bool {
    &&& arena_wf(st)
    &&& (forall|i: int, k: Seq<char>|
        0 <= i < st.len() && (#[trigger] st[i].table.contains_key(k)) ==> val_closed(
            st[i].table[k],
            st.len() as int,
        ))
}

/// What a parent-chain lookup returns is bound in some frame, so it is
/// closed.
pub proof fn lemma_lookup_closed(st: Seq<SpFrame>, e: int, name: Seq<char>)
    requires
        wf_state(st),
        0 <= e < st.len(),
    ensures
        (lookup(st, e, name) matches Option::Some(v) ==> val_closed(v, st.len() as int)),
    decreases e,
{
    if !st[e].table.contains_key(name) {
        match st[e].outer {
            Option::Some(o) => {
                assert(crate::env::frame_wf(st[e], e));
                lemma_lookup_closed(st, o, name);
            },
            Option::None => {},
        }
    }
}

// ---------------------------------------------------------------------
// Special forms.
// ---------------------------------------------------------------------

/// The special forms, and `Function` for ordinary application.
#[derive(Clone, Copy, PartialEq, Eq, Structural, Debug)]
pub enum FormType {
    Def,
    Do,
    Fn,
    Function,
    Eval,
}

pub open spec fn def_text() -> Seq<char> {
    seq!['d', 'e', 'f']
}

pub open spec fn do_text() -> Seq<char> {
    seq!['d', 'o']
}

pub open spec fn fn_text() -> Seq<char> {
    seq!['f', 'n']
}

pub open spec fn eval_text() -> Seq<char> {
    seq!['e', 'v', 'a', 'l']
}

/// Which form a head symbol selects.
pub open spec fn form_of(name: Seq<char>) -> FormType {
    if name == def_text() {
        FormType::Def
    } else if name == do_text() {
        FormType::Do
    } else if name == fn_text() {
        FormType::Fn
    } else if name == eval_text() {
        FormType::Eval
    } else {
        FormType::Function
    }
}

impl FormType {
    /// Recognizes a special-form name; every other name is an ordinary
    /// application.
    pub fn from(name: &str) -> (r: FormType)
        ensures
            r == form_of(name@),
    {
        proof {
            reveal_strlit("def");
            reveal_strlit("do");
            reveal_strlit("fn");
            reveal_strlit("eval");
            assert(("def")@ =~= def_text());
            assert(("do")@ =~= do_text());
            assert(("fn")@ =~= fn_text());
            assert(("eval")@ =~= eval_text());
        }
        if str_eqs(name, "def") {
            FormType::Def
        } else if str_eqs(name, "do") {
            FormType::Do
        } else if str_eqs(name, "fn") {
            FormType::Fn
        } else if str_eqs(name, "eval") {
            FormType::Eval
        } else {
            FormType::Function
        }
    }
}

// ---------------------------------------------------------------------
// The semantics of the native builtins.
// ---------------------------------------------------------------------

/// Two's-complement wrap of an integer into the 64-bit signed range.
/// A sum or difference of two 64-bit values overflows at most one step.
pub open spec fn wrap_i64(x: int) -> int {
    if x > i64::MAX {
        x - 0x1_0000_0000_0000_0000
    } else if x < i64::MIN {
        x + 0x1_0000_0000_0000_0000
    } else {
        x
    }
}

/// The display renderings of a run of values, concatenated.
pub open spec fn append_texts(vs: Seq<SpVal>) -> Seq<char>
    decreases vs,
{
    if vs.len() == 0 {
        Seq::empty()
    } else {
        print_text(vs[0], false) + append_texts(vs.subrange(1, vs.len() as int))
    }
}

/// Replaces the entry for `k` in place, or appends one.
pub open spec fn upsert(
    ps: Seq<(Seq<char>, SpVal)>,
    k: Seq<char>,
    v: SpVal,
) -> Seq<(Seq<char>, SpVal)>
    decreases ps,
{
    if ps.len() == 0 {
        seq![(k, v)]
    } else if ps[0].0 == k {
        seq![(k, v)] + ps.subrange(1, ps.len() as int)
    } else {
        seq![ps[0]] + upsert(ps.subrange(1, ps.len() as int), k, v)
    }
}

/// No two entries of the table bind the same key; every table the
/// language builds has this shape.
pub open spec fn keys_distinct(ps: Seq<(Seq<char>, SpVal)>) -> bool {
    forall|i: int, j: int| 0 <= i < j < ps.len() ==> (#[trigger] ps[i]).0 != (#[trigger] ps[j]).0
}

/// Builds a table from alternating string keys and values; a key that is
/// not a string, or a trailing key without a value, is a type error.
pub open spec fn hash_build(ps: Seq<(Seq<char>, SpVal)>, vs: Seq<SpVal>) -> Result<
    Seq<(Seq<char>, SpVal)>,
    SpErr,
>
    decreases vs.len(),
{
    if vs.len() == 0 {
        Result::Ok(ps)
    } else if vs.len() == 1 {
        Result::Err(SpErr::TypeError)
    } else {
        match vs[0] {
            SpVal::Str(k) => hash_build(upsert(ps, k, vs[1]), vs.subrange(2, vs.len() as int)),
            _ => Result::Err(SpErr::TypeError),
        }
    }
}

/// What each native builtin returns on already-evaluated arguments.
/// Natives validate their own argument shapes and types.
pub open spec fn apply_native_sp(op: NativeOp, vs: Seq<SpVal>) -> Result<SpVal, SpErr> {
    match op {
        NativeOp::Add => if vs.len() >= 2 {
            match (vs[0], vs[1]) {
                (SpVal::Int(a), SpVal::Int(b)) => Result::Ok(SpVal::Int(wrap_i64(a + b))),
                _ => Result::Err(SpErr::TypeError),
            }
        } else {
            Result::Err(SpErr::TypeError)
        },
        NativeOp::Sub => if vs.len() >= 2 {
            match (vs[0], vs[1]) {
                (SpVal::Int(a), SpVal::Int(b)) => Result::Ok(SpVal::Int(wrap_i64(a - b))),
                _ => Result::Err(SpErr::TypeError),
            }
        } else {
            Result::Err(SpErr::TypeError)
        },
        NativeOp::ListOf => Result::Ok(SpVal::Lst(vs)),
        NativeOp::StringAppend => Result::Ok(SpVal::Str(append_texts(vs))),
        NativeOp::Hash => match hash_build(Seq::empty(), vs) {
            Result::Ok(ps) => Result::Ok(SpVal::Table(ps)),
            Result::Err(e) => Result::Err(e),
        },
        NativeOp::HashSet => if vs.len() >= 3 {
            match (vs[0], vs[1]) {
                (SpVal::Table(ps), SpVal::Str(k)) => Result::Ok(
                    SpVal::Table(upsert(ps, k, vs[2])),
                ),
                _ => Result::Err(SpErr::TypeError),
            }
        } else {
            Result::Err(SpErr::TypeError)
        },
        NativeOp::Display => if vs.len() >= 1 {
            Result::Ok(SpVal::Str(print_text(vs[0], false)))
        } else {
            Result::Err(SpErr::TypeError)
        },
        NativeOp::Write => if vs.len() >= 1 {
            Result::Ok(SpVal::Str(print_text(vs[0], true)))
        } else {
            Result::Err(SpErr::TypeError)
        },
        NativeOp::Read => if vs.len() >= 1 {
            match vs[0] {
                SpVal::Str(text) => read_sp(text),
                _ => Result::Err(SpErr::TypeError),
            }
        } else {
            Result::Err(SpErr::TypeError)
        },
    }
}

/// What a native's executable implementation must return: exactly what
/// `apply_native_sp` prescribes.
pub open spec fn native_matches(op: NativeOp, vs: Seq<SpVal>, r: Result<LispValue, Error>) -> bool {
    match apply_native_sp(op, vs) {
        Result::Ok(v) => (r matches Result::Ok(x) && crate::types::lisp_view(x) == v),
        Result::Err(e) => (r matches Result::Err(x) && crate::error::error_view(x) == e),
    }
}

/// The `read` builtin: lexes and parses its text argument through the
/// same pipeline as ordinary input; only a Lisp program is a value.
pub open spec fn read_sp(text: Seq<char>) -> Result<SpVal, SpErr> {
    match crate::lexer::tokens_of(text) {
        Result::Ok(toks) => match crate::parser::read_program_sp(toks, 0) {
            Result::Ok((p, q)) => match p {
                crate::types::SpProg::Lisp(v) => Result::Ok(v),
                _ => Result::Err(SpErr::TypeError),
            },
            Result::Err(e) => Result::Err(e),
        },
        Result::Err(e) => Result::Err(e),
    }
}

// ---------------------------------------------------------------------
// The big-step semantics.
// ---------------------------------------------------------------------

/// Parameter names of a function form: the first argument must be a
/// list of symbols.
pub open spec fn params_of(es: Seq<SpVal>) -> Result<Seq<Seq<char>>, SpErr>
    decreases es.len(),
{
    if es.len() == 0 {
        Result::Ok(Seq::empty())
    } else {
        match es[0] {
            SpVal::Sym(name) => match params_of(es.subrange(1, es.len() as int)) {
                Result::Ok(rest) => Result::Ok(seq![name] + rest),
                Result::Err(e) => Result::Err(e),
            },
            _ => Result::Err(SpErr::TypeError),
        }
    }
}

/// Positional binding of the first `k` parameters to arguments; extra
/// arguments are ignored, missing ones stay unbound.
pub open spec fn bind_upto(params: Seq<Seq<char>>, vs: Seq<SpVal>, k: int) -> Map<Seq<char>, SpVal>
    decreases k,
{
    if k <= 0 {
        Map::empty()
    } else {
        bind_upto(params, vs, k - 1).insert(params[k - 1], vs[k - 1])
    }
}

/// How many positional bindings an application makes.
pub open spec fn bind_count(params: Seq<Seq<char>>, vs: Seq<SpVal>) -> int {
    if params.len() <= vs.len() {
        params.len() as int
    } else {
        vs.len() as int
    }
}

/// Evaluation of one expression: the result (or error) and the state of
/// all scopes afterwards.  A zero budget reports `DepthExceeded`.
pub open spec fn eval_sp(fuel: nat, v: SpVal, env: int, st: Seq<SpFrame>) -> (Result<
    SpVal,
    SpErr,
>, Seq<SpFrame>)
    decreases fuel, 0int, 0int,
{
    if fuel == 0 {
        (Result::Err(SpErr::DepthExceeded), st)
    } else {
        match v {
            SpVal::Lst(es) => apply_sp((fuel - 1) as nat, es, env, st),
            SpVal::Sym(name) => (
                match lookup(st, env, name) {
                    Option::Some(w) => Result::Ok(w),
                    Option::None => Result::Err(SpErr::UndefinedBinding(name)),
                },
                st,
            ),
            _ => (Result::Ok(v), st),
        }
    }
}

/// Application of a (possibly empty) list: the empty list evaluates to
/// itself; a special-form head controls its own argument evaluation;
/// anything else is an ordinary application.
pub open spec fn apply_sp(fuel: nat, es: Seq<SpVal>, env: int, st: Seq<SpFrame>) -> (Result<
    SpVal,
    SpErr,
>, Seq<SpFrame>)
    decreases fuel, 9int, 0int,
{
    if es.len() == 0 {
        (Result::Ok(SpVal::Lst(Seq::empty())), st)
    } else {
        let form = match es[0] {
            SpVal::Sym(name) => form_of(name),
            _ => FormType::Function,
        };
        match form {
            FormType::Def => eval_def_sp(fuel, es.subrange(1, es.len() as int), env, st),
            FormType::Do => eval_do_sp(fuel, es.subrange(1, es.len() as int), env, st),
            FormType::Fn => (eval_fn_sp(es.subrange(1, es.len() as int), env), st),
            FormType::Eval => eval_eval_sp(fuel, es.subrange(1, es.len() as int), env, st),
            FormType::Function => eval_function_sp(fuel, es, env, st),
        }
    }
}

/// `def`: evaluate the value expression, then bind the symbol in the
/// local table of `env` only.  A malformed shape is a type error and
/// leaves every binding unchanged.
pub open spec fn eval_def_sp(fuel: nat, args: Seq<SpVal>, env: int, st: Seq<SpFrame>) -> (Result<
    SpVal,
    SpErr,
>, Seq<SpFrame>)
    decreases fuel, 8int, 0int,
{
    if args.len() < 2 {
        (Result::Err(SpErr::TypeError), st)
    } else {
        match args[0] {
            SpVal::Sym(name) => {
                let (r, st1) = eval_sp(fuel, args[1], env, st);
                match r {
                    Result::Ok(v) => (
                        Result::Ok(SpVal::Nil),
                        st1.update(
                            env,
                            SpFrame { table: st1[env].table.insert(name, v), outer: st1[env].outer },
                        ),
                    ),
                    Result::Err(e) => (Result::Err(e), st1),
                }
            },
            _ => (Result::Err(SpErr::TypeError), st),
        }
    }
}

/// `do`: evaluate each argument in order, keeping only the last value;
/// `nil` when there are none.
pub open spec fn eval_do_sp(fuel: nat, args: Seq<SpVal>, env: int, st: Seq<SpFrame>) -> (Result<
    SpVal,
    SpErr,
>, Seq<SpFrame>)
    decreases fuel, 8int, args.len(),
{
    if args.len() == 0 {
        (Result::Ok(SpVal::Nil), st)
    } else if args.len() == 1 {
        eval_sp(fuel, args[0], env, st)
    } else {
        let (r, st1) = eval_sp(fuel, args[0], env, st);
        match r {
            Result::Ok(_) => eval_do_sp(fuel, args.subrange(1, args.len() as int), env, st1),
            Result::Err(e) => (Result::Err(e), st1),
        }
    }
}

/// `fn`: validate the parameter list and capture the defining
/// environment, making a closure; the body stays unevaluated.
pub open spec fn eval_fn_sp(args: Seq<SpVal>, env: int) -> Result<SpVal, SpErr> {
    if args.len() < 2 {
        Result::Err(SpErr::TypeError)
    } else {
        match args[0] {
            SpVal::Lst(ps) => match params_of(ps) {
                Result::Ok(params) => Result::Ok(
                    SpVal::Closure { params, body: Box::new(args[1]), env },
                ),
                Result::Err(e) => Result::Err(e),
            },
            _ => Result::Err(SpErr::TypeError),
        }
    }
}

/// `eval`: evaluate the argument once, then evaluate the resulting
/// value itself as an expression in the same environment.
pub open spec fn eval_eval_sp(fuel: nat, args: Seq<SpVal>, env: int, st: Seq<SpFrame>) -> (Result<
    SpVal,
    SpErr,
>, Seq<SpFrame>)
    decreases fuel, 8int, 0int,
{
    if args.len() < 1 {
        (Result::Err(SpErr::TypeError), st)
    } else {
        let (r, st1) = eval_sp(fuel, args[0], env, st);
        match r {
            Result::Ok(v) => eval_sp(fuel, v, env, st1),
            Result::Err(e) => (Result::Err(e), st1),
        }
    }
}

/// Ordinary application: evaluate head and arguments left to right,
/// then invoke a native, enter a closure in a fresh scope chained to
/// its captured environment, or fail.
pub open spec fn eval_function_sp(
    fuel: nat,
    es: Seq<SpVal>,
    env: int,
    st: Seq<SpFrame>,
) -> (Result<SpVal, SpErr>, Seq<SpFrame>)
    decreases fuel, 8int, 0int,
{
    if es.len() == 0 {
        (Result::Err(SpErr::ApplyEmptyList), st)
    } else {
        let (rh, st1) = eval_sp(fuel, es[0], env, st);
        match rh {
            Result::Err(e) => (Result::Err(e), st1),
            Result::Ok(h) => {
                let (rt, st2) = eval_list_sp(fuel, es.subrange(1, es.len() as int), env, st1);
                match rt {
                    Result::Err(e) => (Result::Err(e), st2),
                    Result::Ok(vs) => match h {
                        SpVal::Native(op) => (apply_native_sp(op, vs), st2),
                        SpVal::Closure { params, body, env: cenv } => {
                            let frame = SpFrame {
                                table: bind_upto(params, vs, bind_count(params, vs)),
                                outer: Option::Some(cenv),
                            };
                            eval_sp(fuel, *body, st2.len() as int, st2.push(frame))
                        },
                        SpVal::Lst(xs) => if xs.len() == 0 {
                            (Result::Err(SpErr::ApplyEmptyList), st2)
                        } else {
                            (Result::Err(SpErr::ApplyNonFunction(Box::new(h))), st2)
                        },
                        _ => (Result::Err(SpErr::ApplyNonFunction(Box::new(h))), st2),
                    },
                }
            },
        }
    }
}

/// Left-to-right evaluation of a run of expressions; each is evaluated
/// exactly once, and the first error stops the run.
pub open spec fn eval_list_sp(fuel: nat, es: Seq<SpVal>, env: int, st: Seq<SpFrame>) -> (Result<
    Seq<SpVal>,
    SpErr,
>, Seq<SpFrame>)
    decreases fuel, 7int, es.len(),
{
    if es.len() == 0 {
        (Result::Ok(Seq::empty()), st)
    } else {
        let (r, st1) = eval_sp(fuel, es[0], env, st);
        match r {
            Result::Err(e) => (Result::Err(e), st1),
            Result::Ok(v) => {
                let (rs, st2) = eval_list_sp(fuel, es.subrange(1, es.len() as int), env, st1);
                match rs {
                    Result::Err(e) => (Result::Err(e), st2),
                    Result::Ok(vs) => (Result::Ok(seq![v] + vs), st2),
                }
            },
        }
    }
}

// ---------------------------------------------------------------------
// Closedness of the semantics' outputs.
// ---------------------------------------------------------------------

/// Closedness of every element survives growth of the frame count.
pub proof fn lemma_vals_closed_grow(es: Seq<SpVal>, n: int, m: int)
    requires
        n <= m,
        vals_closed(es, n),
    ensures
        vals_closed(es, m),
{
    broadcast use lemma_vals_closed;

    assert forall|i: int| 0 <= i < es.len() implies val_closed(#[trigger] es[i], m) by {
        lemma_val_closed_grow(es[i], n, m);
    }
}

proof fn lemma_upsert_closed(ps: Seq<(Seq<char>, SpVal)>, k: Seq<char>, v: SpVal, n: int)
    requires
        tbl_closed(ps, n),
        val_closed(v, n),
    ensures
        tbl_closed(upsert(ps, k, v), n),
    decreases ps.len(),
{
    broadcast use lemma_tbl_closed;

    if ps.len() == 0 {
    } else if ps[0].0 == k {
        let out = seq![(k, v)] + ps.subrange(1, ps.len() as int);
        assert forall|i: int| 0 <= i < out.len() implies val_closed((#[trigger] out[i]).1, n) by {
            if i > 0 {
                assert(out[i] == ps[i]);
            }
        }
    } else {
        lemma_upsert_closed(ps.subrange(1, ps.len() as int), k, v, n);
        let rec = upsert(ps.subrange(1, ps.len() as int), k, v);
        let out = seq![ps[0]] + rec;
        assert forall|i: int| 0 <= i < out.len() implies val_closed((#[trigger] out[i]).1, n) by {
            if i > 0 {
                assert(out[i] == rec[i - 1]);
            }
        }
    }
}

proof fn lemma_hash_build_closed(ps: Seq<(Seq<char>, SpVal)>, vs: Seq<SpVal>, n: int)
    requires
        tbl_closed(ps, n),
        vals_closed(vs, n),
    ensures
        (hash_build(ps, vs) matches Result::Ok(out) ==> tbl_closed(out, n)),
    decreases vs.len(),
{
    broadcast use lemma_vals_closed, lemma_tbl_closed;

    if vs.len() >= 2 {
        match vs[0] {
            SpVal::Str(k) => {
                lemma_upsert_closed(ps, k, vs[1], n);
                assert forall|i: int|
                    0 <= i < vs.subrange(2, vs.len() as int).len() implies val_closed(
                    #[trigger] vs.subrange(2, vs.len() as int)[i],
                    n,
                ) by {
                    assert(vs.subrange(2, vs.len() as int)[i] == vs[i + 2]);
                }
                lemma_hash_build_closed(upsert(ps, k, vs[1]), vs.subrange(2, vs.len() as int), n);
            },
            _ => {},
        }
    }
}

/// Values produced by the parser hold no closures, so they are closed
/// for any frame count.
proof fn lemma_parsed_closed(toks: Seq<crate::token::SpTok>, pos: int, n: int)
    requires
        0 <= pos,
    ensures
        (crate::parser::read_lisp_sp(toks, pos) matches Result::Ok(p) ==> val_closed(p.0, n)),
        (crate::parser::read_forms_sp(toks, pos) matches Result::Ok(q) ==> vals_closed(q.0, n)),
    decreases toks.len() - pos, 2int,
{
    broadcast use lemma_vals_closed;

    if pos < toks.len() {
        lemma_parsed_closed(toks, pos + 1, n);
        if toks[pos] != crate::token::SpTok::RParen {
            match crate::parser::read_lisp_sp(toks, pos) {
                Result::Ok((v, p2)) => {
                    if pos < p2 <= toks.len() {
                        lemma_parsed_closed(toks, p2, n);
                        match crate::parser::read_forms_sp(toks, p2) {
                            Result::Ok((vs, p3)) => {
                                assert forall|i: int|
                                    0 <= i < (seq![v] + vs).len() implies val_closed(
                                    #[trigger] (seq![v] + vs)[i],
                                    n,
                                ) by {
                                    if i > 0 {
                                        assert((seq![v] + vs)[i] == vs[i - 1]);
                                    }
                                }
                            },
                            Result::Err(_) => {},
                        }
                    }
                },
                Result::Err(_) => {},
            }
        }
    }
}

proof fn lemma_read_sp_closed(text: Seq<char>, n: int)
    ensures
        (read_sp(text) matches Result::Ok(v) ==> val_closed(v, n)),
{
    match crate::lexer::tokens_of(text) {
        Result::Ok(toks) => {
            lemma_parsed_closed(toks, 0, n);
        },
        Result::Err(_) => {},
    }
}

/// A parsed program's Lisp value is closed for any frame count: the
/// parser never makes closures.
pub proof fn lemma_program_value_closed(toks: Seq<crate::token::SpTok>, n: int)
    ensures
        (crate::parser::read_program_sp(toks, 0) matches Result::Ok(p) ==> (
        p.0 matches crate::types::SpProg::Lisp(v) ==> val_closed(v, n))),
{
    lemma_parsed_closed(toks, 0, n);
}

/// A native's result is closed wherever its arguments are.
pub proof fn lemma_apply_native_closed(op: NativeOp, vs: Seq<SpVal>, n: int)
    requires
        vals_closed(vs, n),
    ensures
        (apply_native_sp(op, vs) matches Result::Ok(v) ==> val_closed(v, n)),
{
    broadcast use lemma_vals_closed, lemma_tbl_closed;

    match op {
        NativeOp::Hash => {
            lemma_hash_build_closed(Seq::empty(), vs, n);
        },
        NativeOp::HashSet => {
            if vs.len() >= 3 {
                match (vs[0], vs[1]) {
                    (SpVal::Table(ps), SpVal::Str(k)) => {
                        lemma_upsert_closed(ps, k, vs[2], n);
                    },
                    _ => {},
                }
            }
        },
        NativeOp::Read => {
            if vs.len() >= 1 {
                match vs[0] {
                    SpVal::Str(text) => {
                        lemma_read_sp_closed(text, n);
                    },
                    _ => {},
                }
            }
        },
        _ => {},
    }
}

/// Positional bindings only hold argument values, which are closed.
proof fn lemma_bind_upto_closed(params: Seq<Seq<char>>, vs: Seq<SpVal>, k: int, n: int)
    requires
        vals_closed(vs, n),
        k <= vs.len(),
    ensures
        forall|name: Seq<char>| #[trigger]
            bind_upto(params, vs, k).contains_key(name) ==> val_closed(
                bind_upto(params, vs, k)[name],
                n,
            ),
    decreases k,
{
    broadcast use lemma_vals_closed;

    if k > 0 {
        lemma_bind_upto_closed(params, vs, k - 1, n);
        assert forall|name: Seq<char>| #[trigger]
            bind_upto(params, vs, k).contains_key(name) implies val_closed(
            bind_upto(params, vs, k)[name],
            n,
        ) by {
            if name == params[k - 1] {
                assert(val_closed(vs[k - 1], n));
            } else {
                assert(bind_upto(params, vs, k - 1).contains_key(name));
            }
        }
    }
}

// ---------------------------------------------------------------------
// The executable evaluator.
// ---------------------------------------------------------------------

/// How deeply evaluation may nest before it reports `DepthExceeded`.
pub const EVAL_DEPTH: u64 = 500;

/// What evaluating one program yields: nothing, a value to print, or a
/// resolved shell command for the caller to run.
#[derive(Debug)]
pub enum Outcome {
    Empty,
    Value(LispValue),
    Command(ShellExpr),
}

/// The model of an outcome.
#[verifier::ext_equal]
pub enum SpOutcome {
    Empty,
    Value(SpVal),
    Command(crate::types::SpShellExpr),
}

pub open spec fn outcome_view(o: Outcome) -> SpOutcome {
    match o {
        Outcome::Empty => SpOutcome::Empty,
        Outcome::Value(v) => SpOutcome::Value(crate::types::lisp_view(v)),
        Outcome::Command(e) => SpOutcome::Command(e@),
    }
}

impl View for Outcome {
    type V = SpOutcome;

    open spec fn view(&self) -> SpOutcome {
        outcome_view(*self)
    }
}

/// The meaning of one program: empty input yields nothing; a Lisp
/// expression is evaluated with the full depth budget; a shell command
/// is alias-resolved for the caller to run, leaving every scope as it
/// was.
pub open spec fn eval_program_sp(prog: crate::types::SpProg, env: int, st: Seq<SpFrame>) -> (
    Result<SpOutcome, SpErr>,
    Seq<SpFrame>,
) {
    match prog {
        crate::types::SpProg::Empty => (Result::Ok(SpOutcome::Empty), st),
        crate::types::SpProg::Lisp(v) => {
            let (r, st1) = eval_sp(EVAL_DEPTH as nat, v, env, st);
            match r {
                Result::Ok(w) => (Result::Ok(SpOutcome::Value(w)), st1),
                Result::Err(e) => (Result::Err(e), st1),
            }
        },
        crate::types::SpProg::Shell(se) => {
            match crate::shell_evaluator::resolve_alias_sp(se, st, env) {
                Result::Ok(out) => (Result::Ok(SpOutcome::Command(out)), st),
                Result::Err(e) => (Result::Err(e), st),
            }
        },
    }
}

/// The executable result and final scopes are exactly what the
/// semantics prescribes.
pub open spec fn post_eval(
    out: (Result<SpVal, SpErr>, Seq<SpFrame>),
    r: Result<LispValue, Error>,
    st: Seq<SpFrame>,
) -> bool {
    &&& st == out.1
    &&& (match out.0 {
        Result::Ok(v) => (r matches Result::Ok(x) && crate::types::lisp_view(x) == v),
        Result::Err(e) => (r matches Result::Err(x) && crate::error::error_view(x) == e),
    })
}

pub open spec fn post_eval_list(
    out: (Result<Seq<SpVal>, SpErr>, Seq<SpFrame>),
    r: Result<Vec<LispValue>, Error>,
    st: Seq<SpFrame>,
) -> bool {
    &&& st == out.1
    &&& (match out.0 {
        Result::Ok(vs) => (r matches Result::Ok(x) && views_of(x@) == vs),
        Result::Err(e) => (r matches Result::Err(x) && crate::error::error_view(x) == e),
    })
}

/// A symbol resolves via lookup; a list evaluates its elements; any
/// other value evaluates to itself.
pub open spec fn eval_ast_sp(fuel: nat, v: SpVal, env: int, st: Seq<SpFrame>) -> (Result<
    SpVal,
    SpErr,
>, Seq<SpFrame>)
    decreases fuel, 8int, 1int,
{
    match v {
        SpVal::Sym(name) => (
            match lookup(st, env, name) {
                Option::Some(w) => Result::Ok(w),
                Option::None => Result::Err(SpErr::UndefinedBinding(name)),
            },
            st,
        ),
        SpVal::Lst(es) => {
            let (r, st1) = eval_list_sp(fuel, es, env, st);
            match r {
                Result::Ok(vs) => (Result::Ok(SpVal::Lst(vs)), st1),
                Result::Err(e) => (Result::Err(e), st1),
            }
        },
        _ => (Result::Ok(v), st),
    }
}

pub struct Evaluator;

impl Evaluator {
    pub fn new() -> Evaluator {
        Evaluator
    }

    /// Evaluates one program in the given environment: dispatch on
    /// program kind, as `eval_program_sp` prescribes.
    pub fn eval(&self, program: Program, env: Env, arena: &mut EnvArena) -> (r: Result<
        Outcome,
        Error,
    >)
        requires
            wf_state(old(arena)@),
            (env as int) < old(arena)@.len(),
            (program@ matches crate::types::SpProg::Lisp(v) ==> val_closed(
                v,
                old(arena)@.len() as int,
            )),
        ensures
            wf_state(final(arena)@),
            old(arena)@.len() <= final(arena)@.len(),
            ({
                let out = eval_program_sp(program@, env as int, old(arena)@);
                &&& final(arena)@ == out.1
                &&& (match out.0 {
                    Result::Ok(o) => (r matches Result::Ok(x) && x@ == o),
                    Result::Err(e) => (r matches Result::Err(x) && crate::error::error_view(x)
                        == e),
                })
            }),
    {
        match program {
            Program::EmptyProgram => Result::Ok(Outcome::Empty),
            Program::LispProgram(expr) => {
                match self.eval_lisp_expr(expr, env, arena) {
                    Result::Ok(v) => Result::Ok(Outcome::Value(v)),
                    Result::Err(e) => Result::Err(e),
                }
            },
            Program::ShellProgram(shell_expr) => {
                match crate::shell_evaluator::ShellEvaluator::new().eval(shell_expr, env, arena) {
                    Result::Ok(out) => Result::Ok(Outcome::Command(out)),
                    Result::Err(e) => Result::Err(e),
                }
            },
        }
    }

    /// Evaluates one Lisp expression with the full depth budget.
    pub fn eval_lisp_expr(&self, lisp_expr: LispValue, env: Env, arena: &mut EnvArena) -> (r:
        Result<LispValue, Error>)
        requires
            wf_state(old(arena)@),
            (env as int) < old(arena)@.len(),
            val_closed(lisp_expr@, old(arena)@.len() as int),
        ensures
            post_eval(
                eval_sp(EVAL_DEPTH as nat, lisp_expr@, env as int, old(arena)@),
                r,
                final(arena)@,
            ),
            wf_state(final(arena)@),
            old(arena)@.len() <= final(arena)@.len(),
            (r matches Result::Ok(v) ==> val_closed(v@, final(arena)@.len() as int)),
    {
        self.eval_expr(EVAL_DEPTH, lisp_expr, env, arena)
    }

    /// Evaluation under a depth budget: a list is an application, a
    /// symbol resolves through the scope chain, everything else
    /// evaluates to itself.
    fn eval_expr(&self, fuel: u64, expr: LispValue, env: Env, arena: &mut EnvArena) -> (r: Result<
        LispValue,
        Error,
    >)
        requires
            wf_state(old(arena)@),
            (env as int) < old(arena)@.len(),
            val_closed(expr@, old(arena)@.len() as int),
        ensures
            post_eval(eval_sp(fuel as nat, expr@, env as int, old(arena)@), r, final(arena)@),
            wf_state(final(arena)@),
            old(arena)@.len() <= final(arena)@.len(),
            (r matches Result::Ok(v) ==> val_closed(v@, final(arena)@.len() as int)),
        decreases fuel, 0int, 0int,
    {
        if fuel == 0 {
            return Result::Err(Error::DepthExceeded);
        }
        match expr {
            LispType::List(es) => self.apply(fuel - 1, es, env, arena),
            other => self.eval_ast(fuel - 1, other, env, arena),
        }
    }

    /// Application of a list: the empty list is itself; a special-form
    /// head controls its own evaluation; otherwise ordinary
    /// application.
    fn apply(&self, fuel: u64, list: Vec<LispValue>, env: Env, arena: &mut EnvArena) -> (r: Result<
        LispValue,
        Error,
    >)
        requires
            wf_state(old(arena)@),
            (env as int) < old(arena)@.len(),
            vals_closed(views_of(list@), old(arena)@.len() as int),
        ensures
            post_eval(
                apply_sp(fuel as nat, views_of(list@), env as int, old(arena)@),
                r,
                final(arena)@,
            ),
            wf_state(final(arena)@),
            old(arena)@.len() <= final(arena)@.len(),
            (r matches Result::Ok(v) ==> val_closed(v@, final(arena)@.len() as int)),
        decreases fuel, 9int, 0int,
    {
        broadcast use crate::types::lemma_views_of;

        if list.len() == 0 {
            proof {
                assert(views_of(list@) =~= Seq::<SpVal>::empty());
                assert(views_of(Seq::<LispValue>::empty()) =~= Seq::<SpVal>::empty());
            }
            return Result::Ok(types::list(Vec::new()));
        }
        let form = match &list[0] {
            LispType::Symbol(name) => FormType::from(name.as_str()),
            _ => FormType::Function,
        };
        match form {
            FormType::Def => self.eval_def(fuel, &list, env, arena),
            FormType::Do => self.eval_do(fuel, &list, env, arena),
            FormType::Fn => self.eval_fn(&list, env, arena),
            FormType::Eval => self.eval_eval(fuel, &list, env, arena),
            FormType::Function => self.eval_function(fuel, &list, env, arena),
        }
    }

    /// `def`: check the symbol, evaluate the value, bind locally.
    fn eval_def(&self, fuel: u64, list: &Vec<LispValue>, env: Env, arena: &mut EnvArena) -> (r:
        Result<LispValue, Error>)
        requires
            wf_state(old(arena)@),
            (env as int) < old(arena)@.len(),
            vals_closed(views_of(list@), old(arena)@.len() as int),
            list@.len() >= 1,
        ensures
            post_eval(
                eval_def_sp(
                    fuel as nat,
                    views_of(list@).subrange(1, list@.len() as int),
                    env as int,
                    old(arena)@,
                ),
                r,
                final(arena)@,
            ),
            wf_state(final(arena)@),
            old(arena)@.len() <= final(arena)@.len(),
            (r matches Result::Ok(v) ==> val_closed(v@, final(arena)@.len() as int)),
        decreases fuel, 8int, 0int,
    {
        broadcast use crate::types::lemma_views_of, lemma_vals_closed;

        let ghost args = views_of(list@).subrange(1, list@.len() as int);
        if list.len() < 3 {
            return Result::Err(Error::TypeError);
        }
        proof {
            assert(args[0] == crate::types::lisp_view(list@[1]));
            assert(args[1] == crate::types::lisp_view(list@[2]));
        }
        let name = match &list[1] {
            LispType::Symbol(name) => name,
            _ => {
                return Result::Err(Error::TypeError);
            },
        };
        let value_expr = dup(&list[2]);
        match self.eval_expr(fuel, value_expr, env, arena) {
            Result::Ok(v) => {
                let ghost st1 = arena@;
                env_set(arena, env, name.as_str(), v);
                proof {
                    assert forall|q: int, k: Seq<char>|
                        0 <= q < arena@.len() && (#[trigger] arena@[q].table.contains_key(
                            k,
                        )) implies val_closed(arena@[q].table[k], arena@.len() as int) by {
                        if q != env as int {
                            assert(arena@[q] == st1[q]);
                            assert(st1[q].table.contains_key(k));
                        } else {
                            if k != name@ {
                                assert(st1[q].table.contains_key(k));
                                assert(arena@[q].table[k] == st1[q].table[k]);
                            }
                        }
                    }
                }
                Result::Ok(types::nil())
            },
            Result::Err(e) => Result::Err(e),
        }
    }

    /// `do`: evaluate each argument in order, return the last value.
    #[verifier::loop_isolation(false)]
    fn eval_do(&self, fuel: u64, list: &Vec<LispValue>, env: Env, arena: &mut EnvArena) -> (r:
        Result<LispValue, Error>)
        requires
            wf_state(old(arena)@),
            (env as int) < old(arena)@.len(),
            vals_closed(views_of(list@), old(arena)@.len() as int),
            list@.len() >= 1,
        ensures
            post_eval(
                eval_do_sp(
                    fuel as nat,
                    views_of(list@).subrange(1, list@.len() as int),
                    env as int,
                    old(arena)@,
                ),
                r,
                final(arena)@,
            ),
            wf_state(final(arena)@),
            old(arena)@.len() <= final(arena)@.len(),
            (r matches Result::Ok(v) ==> val_closed(v@, final(arena)@.len() as int)),
        decreases fuel, 8int, 0int,
    {
        broadcast use crate::types::lemma_views_of, lemma_vals_closed;

        let ghost whole = views_of(list@);
        if list.len() == 1 {
            proof {
                assert(whole.subrange(1, list@.len() as int) =~= Seq::<SpVal>::empty());
            }
            return Result::Ok(types::nil());
        }
        let mut i: usize = 1;
        while i + 1 < list.len()
            invariant
                wf_state(arena@),
                (env as int) < arena@.len(),
                old(arena)@.len() <= arena@.len(),
                vals_closed(whole, arena@.len() as int),
                1 <= i < list@.len(),
                eval_do_sp(
                    fuel as nat,
                    whole.subrange(1, list@.len() as int),
                    env as int,
                    old(arena)@,
                ) == eval_do_sp(
                    fuel as nat,
                    whole.subrange(i as int, list@.len() as int),
                    env as int,
                    arena@,
                ),
            decreases list@.len() - i,
        {
            let ghost tail = whole.subrange(i as int, list@.len() as int);
            let ghost st_before = arena@;
            proof {
                assert(tail[0] == whole[i as int]);
            }
            let e = dup(&list[i]);
            match self.eval_expr(fuel, e, env, arena) {
                Result::Ok(_) => {},
                Result::Err(err) => {
                    return Result::Err(err);
                },
            }
            proof {
                assert(tail.subrange(1, tail.len() as int) =~= whole.subrange(
                    i + 1,
                    list@.len() as int,
                ));
                lemma_vals_closed_grow(whole, st_before.len() as int, arena@.len() as int);
            }
            i = i + 1;
        }
        let ghost tail = whole.subrange(i as int, list@.len() as int);
        proof {
            assert(tail.len() == 1);
            assert(tail[0] == whole[i as int]);
        }
        let e = dup(&list[i]);
        self.eval_expr(fuel, e, env, arena)
    }

    /// Validates that the parameter list is a list of symbols, and
    /// converts it to their names.
    #[verifier::loop_isolation(false)]
    fn validate_and_convert_param_list(&self, param_list: &LispValue) -> (r: Result<
        Vec<String>,
        Error,
    >)
        ensures
            (match param_list@ {
                SpVal::Lst(es) => match params_of(es) {
                    Result::Ok(ns) => (r matches Result::Ok(x) && name_views_of(x@) == ns),
                    Result::Err(e) => (r matches Result::Err(x) && crate::error::error_view(x)
                        == e),
                },
                _ => (r matches Result::Err(x) && crate::error::error_view(x)
                    == SpErr::TypeError),
            }),
    {
        broadcast use crate::types::lemma_views_of;

        let values = match param_list {
            LispType::List(values) => values,
            _ => {
                return Result::Err(Error::TypeError);
            },
        };
        let ghost es = views_of(values@);
        let mut names: Vec<String> = Vec::new();
        let mut i: usize = 0;
        proof {
            assert(es.subrange(0, es.len() as int) =~= es);
            assert(name_views_of(names@) =~= Seq::<Seq<char>>::empty());
            assert forall|rest: Seq<Seq<char>>|
                true implies name_views_of(names@) + rest =~= rest by {}
        }
        while i < values.len()
            invariant
                i <= values@.len(),
                es == views_of(values@),
                (match params_of(es.subrange(i as int, es.len() as int)) {
                    Result::Ok(rest) => params_of(es) == Result::<Seq<Seq<char>>, SpErr>::Ok(
                        name_views_of(names@) + rest,
                    ),
                    Result::Err(e) => params_of(es) == Result::<Seq<Seq<char>>, SpErr>::Err(e),
                }),
            decreases values@.len() - i,
        {
            let ghost tail = es.subrange(i as int, es.len() as int);
            proof {
                assert(tail[0] == crate::types::lisp_view(values@[i as int]));
            }
            match &values[i] {
                LispType::Symbol(name) => {
                    let w = name.clone();
                    proof {
                        assert(tail.subrange(1, tail.len() as int) =~= es.subrange(
                            i + 1,
                            es.len() as int,
                        ));
                        assert(name_views_of(names@.push(w)) =~= name_views_of(names@).push(w@));
                        assert forall|ws2: Seq<Seq<char>>|
                            true implies name_views_of(names@) + (seq![w@] + ws2) =~= name_views_of(
                            names@.push(w),
                        ) + ws2 by {}
                    }
                    names.push(w);
                },
                _ => {
                    return Result::Err(Error::TypeError);
                },
            }
            i = i + 1;
        }
        proof {
            assert(es.subrange(values@.len() as int, es.len() as int) =~= Seq::<SpVal>::empty());
            assert(name_views_of(names@) + Seq::<Seq<char>>::empty() =~= name_views_of(names@));
        }
        Result::Ok(names)
    }

    /// `fn`: build a closure value capturing the defining environment.
    fn eval_fn(&self, list: &Vec<LispValue>, env: Env, arena: &mut EnvArena) -> (r: Result<
        LispValue,
        Error,
    >)
        requires
            wf_state(old(arena)@),
            (env as int) < old(arena)@.len(),
            vals_closed(views_of(list@), old(arena)@.len() as int),
            list@.len() >= 1,
        ensures
            final(arena)@ == old(arena)@,
            post_eval(
                (
                    eval_fn_sp(views_of(list@).subrange(1, list@.len() as int), env as int),
                    old(arena)@,
                ),
                r,
                final(arena)@,
            ),
            wf_state(final(arena)@),
            (r matches Result::Ok(v) ==> val_closed(v@, final(arena)@.len() as int)),
    {
        broadcast use crate::types::lemma_views_of, lemma_vals_closed;

        let ghost args = views_of(list@).subrange(1, list@.len() as int);
        if list.len() < 3 {
            return Result::Err(Error::TypeError);
        }
        proof {
            assert(args[0] == crate::types::lisp_view(list@[1]));
            assert(args[1] == crate::types::lisp_view(list@[2]));
        }
        let params = match self.validate_and_convert_param_list(&list[1]) {
            Result::Ok(ps) => ps,
            Result::Err(e) => {
                return Result::Err(e);
            },
        };
        let body = dup(&list[2]);
        Result::Ok(types::function(params, body, env))
    }

    /// `eval`: evaluate the argument, then evaluate the value it
    /// produced, in the same environment.
    fn eval_eval(&self, fuel: u64, list: &Vec<LispValue>, env: Env, arena: &mut EnvArena) -> (r:
        Result<LispValue, Error>)
        requires
            wf_state(old(arena)@),
            (env as int) < old(arena)@.len(),
            vals_closed(views_of(list@), old(arena)@.len() as int),
            list@.len() >= 1,
        ensures
            post_eval(
                eval_eval_sp(
                    fuel as nat,
                    views_of(list@).subrange(1, list@.len() as int),
                    env as int,
                    old(arena)@,
                ),
                r,
                final(arena)@,
            ),
            wf_state(final(arena)@),
            old(arena)@.len() <= final(arena)@.len(),
            (r matches Result::Ok(v) ==> val_closed(v@, final(arena)@.len() as int)),
        decreases fuel, 8int, 0int,
    {
        broadcast use crate::types::lemma_views_of, lemma_vals_closed;

        let ghost args = views_of(list@).subrange(1, list@.len() as int);
        if list.len() < 2 {
            return Result::Err(Error::TypeError);
        }
        proof {
            assert(args[0] == crate::types::lisp_view(list@[1]));
        }
        let e = dup(&list[1]);
        match self.eval_expr(fuel, e, env, arena) {
            Result::Ok(v) => self.eval_expr(fuel, v, env, arena),
            Result::Err(err) => Result::Err(err),
        }
    }

    /// Ordinary application: evaluate everything left to right, then
    /// call a native, enter a closure, or fail.
    #[verifier::loop_isolation(false)]
    fn eval_function(&self, fuel: u64, list: &Vec<LispValue>, env: Env, arena: &mut EnvArena) -> (r:
        Result<LispValue, Error>)
        requires
            wf_state(old(arena)@),
            (env as int) < old(arena)@.len(),
            vals_closed(views_of(list@), old(arena)@.len() as int),
        ensures
            post_eval(
                eval_function_sp(fuel as nat, views_of(list@), env as int, old(arena)@),
                r,
                final(arena)@,
            ),
            wf_state(final(arena)@),
            old(arena)@.len() <= final(arena)@.len(),
            (r matches Result::Ok(v) ==> val_closed(v@, final(arena)@.len() as int)),
        decreases fuel, 8int, 0int,
    {
        broadcast use crate::types::lemma_views_of, lemma_vals_closed;

        let ghost whole = views_of(list@);
        if list.len() == 0 {
            return Result::Err(Error::ApplyEmptyList);
        }
        proof {
            assert(whole[0] == crate::types::lisp_view(list@[0]));
        }
        let head_expr = dup(&list[0]);
        let evaluated_head = match self.eval_expr(fuel, head_expr, env, arena) {
            Result::Ok(h) => h,
            Result::Err(e) => {
                return Result::Err(e);
            },
        };
        let ghost st1 = arena@;
        proof {
            lemma_vals_closed_grow(whole, old(arena)@.len() as int, st1.len() as int);
        }
        let evaluated_tail = match self.eval_list(fuel, list, 1, env, arena) {
            Result::Ok(vs) => vs,
            Result::Err(e) => {
                return Result::Err(e);
            },
        };
        let ghost st2 = arena@;
        let ghost hview = crate::types::lisp_view(evaluated_head);
        proof {
            lemma_val_closed_grow(hview, st1.len() as int, st2.len() as int);
        }
        match evaluated_head {
            LispType::NativeFunction(op) => {
                let out = crate::natives::env::call_native(op, &evaluated_tail);
                proof {
                    lemma_apply_native_closed(op, views_of(evaluated_tail@), st2.len() as int);
                }
                out
            },
            LispType::Function(d) => {
                let cenv = d.env;
                let newenv = env_new(arena, Option::Some(cenv));
                let nbind: usize = if d.params.len() <= evaluated_tail.len() {
                    d.params.len()
                } else {
                    evaluated_tail.len()
                };
                let ghost pviews = name_views_of(d.params@);
                let ghost tviews = views_of(evaluated_tail@);
                proof {
                    assert(bind_upto(pviews, tviews, 0) =~= Map::<Seq<char>, SpVal>::empty());
                }
                let mut i: usize = 0;
                while i < nbind
                    invariant
                        i <= nbind,
                        nbind == bind_count(pviews, tviews),
                        nbind <= d.params@.len(),
                        nbind <= evaluated_tail@.len(),
                        newenv == st2.len(),
                        arena@ == st2.push(
                            SpFrame {
                                table: bind_upto(pviews, tviews, i as int),
                                outer: Option::Some(cenv as int),
                            },
                        ),
                    decreases nbind - i,
                {
                    proof {
                        assert(crate::env::arena_wf(arena@)) by {
                            assert forall|q: int|
                                0 <= q < arena@.len() implies crate::env::frame_wf(
                                #[trigger] arena@[q],
                                q,
                            ) by {
                                if q < st2.len() {
                                    assert(crate::env::frame_wf(st2[q], q));
                                }
                            }
                        }
                    }
                    let pname = d.params[i].clone();
                    let v = dup(&evaluated_tail[i]);
                    env_set(arena, newenv, pname.as_str(), v);
                    proof {
                        assert(arena@ =~= st2.push(
                            SpFrame {
                                table: bind_upto(pviews, tviews, i + 1),
                                outer: Option::Some(cenv as int),
                            },
                        ));
                    }
                    i = i + 1;
                }
                proof {
                    lemma_bind_upto_closed(pviews, tviews, nbind as int, st2.len() as int);
                    assert forall|q: int, k: Seq<char>|
                        0 <= q < arena@.len() && (#[trigger] arena@[q].table.contains_key(
                            k,
                        )) implies val_closed(arena@[q].table[k], arena@.len() as int) by {
                        if q < st2.len() {
                            assert(arena@[q] == st2[q]);
                            assert(st2[q].table.contains_key(k));
                            lemma_val_closed_grow(
                                st2[q].table[k],
                                st2.len() as int,
                                arena@.len() as int,
                            );
                        } else {
                            lemma_val_closed_grow(
                                arena@[q].table[k],
                                st2.len() as int,
                                arena@.len() as int,
                            );
                        }
                    }
                    assert(crate::env::arena_wf(arena@)) by {
                        assert forall|q: int| 0 <= q < arena@.len() implies crate::env::frame_wf(
                            #[trigger] arena@[q],
                            q,
                        ) by {
                            if q < st2.len() {
                                assert(crate::env::frame_wf(st2[q], q));
                            }
                        }
                    }
                    lemma_val_closed_grow(
                        crate::types::lisp_view(*d.body),
                        st2.len() as int,
                        arena@.len() as int,
                    );
                }
                let body = dup(&*d.body);
                self.eval_expr(fuel, body, newenv, arena)
            },
            LispType::List(xs) => {
                proof {
                    assert(hview == SpVal::Lst(views_of(xs@)));
                    assert(views_of(xs@).len() == xs@.len());
                }
                if xs.len() == 0 {
                    Result::Err(Error::ApplyEmptyList)
                } else {
                    let back = LispType::List(xs);
                    proof {
                        assert(crate::types::lisp_view(back) == hview);
                    }
                    Result::Err(Error::ApplyNonFunction(back))
                }
            },
            other => Result::Err(Error::ApplyNonFunction(other)),
        }
    }

    /// A symbol resolves through the scope chain; a bare list would
    /// evaluate its elements; every other value is itself.
    fn eval_ast(&self, fuel: u64, expr: LispValue, env: Env, arena: &mut EnvArena) -> (r: Result<
        LispValue,
        Error,
    >)
        requires
            wf_state(old(arena)@),
            (env as int) < old(arena)@.len(),
            val_closed(expr@, old(arena)@.len() as int),
        ensures
            post_eval(eval_ast_sp(fuel as nat, expr@, env as int, old(arena)@), r, final(arena)@),
            wf_state(final(arena)@),
            old(arena)@.len() <= final(arena)@.len(),
            (r matches Result::Ok(v) ==> val_closed(v@, final(arena)@.len() as int)),
        decreases fuel, 8int, 1int,
    {
        broadcast use crate::types::lemma_views_of;

        match expr {
            LispType::Symbol(s) => {
                proof {
                    lemma_lookup_closed(arena@, env as int, s@);
                }
                match env_get(arena, env, s.as_str()) {
                    Result::Ok(v) => Result::Ok(v),
                    Result::Err(e) => Result::Err(e),
                }
            },
            LispType::List(es) => {
                proof {
                    assert(views_of(es@).subrange(0, es@.len() as int) =~= views_of(es@));
                }
                match self.eval_list(fuel, &es, 0, env, arena) {
                    Result::Ok(vs) => Result::Ok(types::list(vs)),
                    Result::Err(e) => Result::Err(e),
                }
            },
            other => Result::Ok(other),
        }
    }

    /// Left-to-right evaluation of the elements of `list` from `from`
    /// on; each is evaluated exactly once.
    #[verifier::loop_isolation(false)]
    fn eval_list(
        &self,
        fuel: u64,
        list: &Vec<LispValue>,
        from: usize,
        env: Env,
        arena: &mut EnvArena,
    ) -> (r: Result<Vec<LispValue>, Error>)
        requires
            wf_state(old(arena)@),
            (env as int) < old(arena)@.len(),
            vals_closed(views_of(list@), old(arena)@.len() as int),
            from <= list@.len(),
        ensures
            post_eval_list(
                eval_list_sp(
                    fuel as nat,
                    views_of(list@).subrange(from as int, list@.len() as int),
                    env as int,
                    old(arena)@,
                ),
                r,
                final(arena)@,
            ),
            wf_state(final(arena)@),
            old(arena)@.len() <= final(arena)@.len(),
            (r matches Result::Ok(vs) ==> vals_closed(views_of(vs@), final(arena)@.len() as int)),
        decreases fuel, 7int, 0int,
    {
        broadcast use crate::types::lemma_views_of, lemma_vals_closed;

        let ghost whole = views_of(list@);
        let mut out: Vec<LispValue> = Vec::new();
        let mut i: usize = from;
        proof {
            assert(views_of(out@) =~= Seq::<SpVal>::empty());
        }
        while i < list.len()
            invariant
                wf_state(arena@),
                (env as int) < arena@.len(),
                old(arena)@.len() <= arena@.len(),
                vals_closed(whole, arena@.len() as int),
                vals_closed(views_of(out@), arena@.len() as int),
                from <= i <= list@.len(),
                (match eval_list_sp(
                    fuel as nat,
                    whole.subrange(i as int, list@.len() as int),
                    env as int,
                    arena@,
                ) {
                    (Result::Ok(vs), stf) => eval_list_sp(
                        fuel as nat,
                        whole.subrange(from as int, list@.len() as int),
                        env as int,
                        old(arena)@,
                    ) == (Result::<Seq<SpVal>, SpErr>::Ok(views_of(out@) + vs), stf),
                    (Result::Err(e), stf) => eval_list_sp(
                        fuel as nat,
                        whole.subrange(from as int, list@.len() as int),
                        env as int,
                        old(arena)@,
                    ) == (Result::<Seq<SpVal>, SpErr>::Err(e), stf),
                }),
            decreases list@.len() - i,
        {
            let ghost tail = whole.subrange(i as int, list@.len() as int);
            let ghost st_before = arena@;
            proof {
                assert(tail[0] == whole[i as int]);
            }
            let e = dup(&list[i]);
            let v = match self.eval_expr(fuel, e, env, arena) {
                Result::Ok(v) => v,
                Result::Err(err) => {
                    return Result::Err(err);
                },
            };
            proof {
                assert(tail.subrange(1, tail.len() as int) =~= whole.subrange(
                    i + 1,
                    list@.len() as int,
                ));
                lemma_vals_closed_grow(whole, st_before.len() as int, arena@.len() as int);
                lemma_vals_closed_grow(views_of(out@), st_before.len() as int, arena@.len() as int);
                assert(views_of(out@.push(v)) =~= views_of(out@).push(crate::types::lisp_view(v)));
                assert forall|vs2: Seq<SpVal>|
                    true implies views_of(out@) + (seq![crate::types::lisp_view(v)] + vs2)
                    =~= views_of(out@.push(v)) + vs2 by {}
            }
            out.push(v);
            i = i + 1;
        }
        proof {
            assert(whole.subrange(list@.len() as int, list@.len() as int) =~= Seq::<
                SpVal,
            >::empty());
            assert(views_of(out@) + Seq::<SpVal>::empty() =~= views_of(out@));
        }
        Result::Ok(out)
    }
}


// ---------------------------------------------------------------------
// Preservation: evaluation keeps the scope graph well formed and only
// ever adds frames.
// ---------------------------------------------------------------------

/// Evaluation preserves well-formedness of the scope graph, never
/// removes a frame, and yields closed values.
pub proof fn lemma_eval_preserves(fuel: nat, v: SpVal, env: int, st: Seq<SpFrame>)
    requires
        wf_state(st),
        0 <= env < st.len(),
        val_closed(v, st.len() as int),
    ensures
        ({
            let (r, st1) = eval_sp(fuel, v, env, st);
            &&& wf_state(st1)
            &&& st.len() <= st1.len()
            &&& (r matches Result::Ok(w) ==> val_closed(w, st1.len() as int))
        }),
    decreases fuel, 0int, 0int,
{
    if fuel > 0 {
        match v {
            SpVal::Lst(es) => {
                lemma_apply_preserves((fuel - 1) as nat, es, env, st);
            },
            SpVal::Sym(name) => {
                lemma_lookup_closed(st, env, name);
            },
            _ => {},
        }
    }
}

/// As `lemma_eval_preserves`, for list application.
pub proof fn lemma_apply_preserves(fuel: nat, es: Seq<SpVal>, env: int, st: Seq<SpFrame>)
    requires
        wf_state(st),
        0 <= env < st.len(),
        vals_closed(es, st.len() as int),
    ensures
        ({
            let (r, st1) = apply_sp(fuel, es, env, st);
            &&& wf_state(st1)
            &&& st.len() <= st1.len()
            &&& (r matches Result::Ok(w) ==> val_closed(w, st1.len() as int))
        }),
    decreases fuel, 9int, 0int,
{
    broadcast use lemma_vals_closed;

    if es.len() == 0 {
        assert(vals_closed(Seq::<SpVal>::empty(), st.len() as int));
    } else {
        let form = match es[0] {
            SpVal::Sym(name) => form_of(name),
            _ => FormType::Function,
        };
        let tail = es.subrange(1, es.len() as int);
        assert(vals_closed(tail, st.len() as int)) by {
            assert forall|i: int| 0 <= i < tail.len() implies val_closed(
                #[trigger] tail[i],
                st.len() as int,
            ) by {
                assert(tail[i] == es[i + 1]);
            }
        }
        match form {
            FormType::Def => {
                lemma_def_preserves(fuel, tail, env, st);
            },
            FormType::Do => {
                lemma_do_preserves(fuel, tail, env, st);
            },
            FormType::Fn => {
                lemma_fn_closed(tail, env, st);
            },
            FormType::Eval => {
                lemma_eval_eval_preserves(fuel, tail, env, st);
            },
            FormType::Function => {
                lemma_function_preserves(fuel, es, env, st);
            },
        }
    }
}

proof fn lemma_def_preserves(fuel: nat, args: Seq<SpVal>, env: int, st: Seq<SpFrame>)
    requires
        wf_state(st),
        0 <= env < st.len(),
        vals_closed(args, st.len() as int),
    ensures
        ({
            let (r, st1) = eval_def_sp(fuel, args, env, st);
            &&& wf_state(st1)
            &&& st.len() <= st1.len()
            &&& (r matches Result::Ok(w) ==> val_closed(w, st1.len() as int))
        }),
    decreases fuel, 8int, 0int,
{
    broadcast use lemma_vals_closed;

    if args.len() >= 2 {
        match args[0] {
            SpVal::Sym(name) => {
                lemma_eval_preserves(fuel, args[1], env, st);
                let (r, st1) = eval_sp(fuel, args[1], env, st);
                match r {
                    Result::Ok(v) => {
                        let st2 = st1.update(
                            env,
                            SpFrame {
                                table: st1[env].table.insert(name, v),
                                outer: st1[env].outer,
                            },
                        );
                        assert(crate::env::arena_wf(st2)) by {
                            assert forall|q: int|
                                0 <= q < st2.len() implies crate::env::frame_wf(
                                #[trigger] st2[q],
                                q,
                            ) by {
                                assert(crate::env::frame_wf(st1[q], q));
                            }
                        }
                        assert forall|q: int, k: Seq<char>|
                            0 <= q < st2.len() && (#[trigger] st2[q].table.contains_key(
                                k,
                            )) implies val_closed(st2[q].table[k], st2.len() as int) by {
                            if q != env {
                                assert(st2[q] == st1[q]);
                                assert(st1[q].table.contains_key(k));
                            } else {
                                if k != name {
                                    assert(st1[q].table.contains_key(k));
                                    assert(st2[q].table[k] == st1[q].table[k]);
                                }
                            }
                        }
                    },
                    Result::Err(_) => {},
                }
            },
            _ => {},
        }
    }
}

proof fn lemma_do_preserves(fuel: nat, args: Seq<SpVal>, env: int, st: Seq<SpFrame>)
    requires
        wf_state(st),
        0 <= env < st.len(),
        vals_closed(args, st.len() as int),
    ensures
        ({
            let (r, st1) = eval_do_sp(fuel, args, env, st);
            &&& wf_state(st1)
            &&& st.len() <= st1.len()
            &&& (r matches Result::Ok(w) ==> val_closed(w, st1.len() as int))
        }),
    decreases fuel, 8int, args.len(),
{
    broadcast use lemma_vals_closed;

    if args.len() == 0 {
    } else if args.len() == 1 {
        lemma_eval_preserves(fuel, args[0], env, st);
    } else {
        lemma_eval_preserves(fuel, args[0], env, st);
        let (r, st1) = eval_sp(fuel, args[0], env, st);
        match r {
            Result::Ok(_) => {
                let rest = args.subrange(1, args.len() as int);
                assert forall|i: int| 0 <= i < rest.len() implies val_closed(
                    #[trigger] rest[i],
                    st1.len() as int,
                ) by {
                    assert(rest[i] == args[i + 1]);
                    lemma_val_closed_grow(args[i + 1], st.len() as int, st1.len() as int);
                }
                lemma_do_preserves(fuel, rest, env, st1);
            },
            Result::Err(_) => {},
        }
    }
}

proof fn lemma_fn_closed(args: Seq<SpVal>, env: int, st: Seq<SpFrame>)
    requires
        0 <= env < st.len(),
        vals_closed(args, st.len() as int),
    ensures
        (eval_fn_sp(args, env) matches Result::Ok(w) ==> val_closed(w, st.len() as int)),
{
    broadcast use lemma_vals_closed;

}

proof fn lemma_eval_eval_preserves(fuel: nat, args: Seq<SpVal>, env: int, st: Seq<SpFrame>)
    requires
        wf_state(st),
        0 <= env < st.len(),
        vals_closed(args, st.len() as int),
    ensures
        ({
            let (r, st1) = eval_eval_sp(fuel, args, env, st);
            &&& wf_state(st1)
            &&& st.len() <= st1.len()
            &&& (r matches Result::Ok(w) ==> val_closed(w, st1.len() as int))
        }),
    decreases fuel, 8int, 0int,
{
    broadcast use lemma_vals_closed;

    if args.len() >= 1 {
        lemma_eval_preserves(fuel, args[0], env, st);
        let (r, st1) = eval_sp(fuel, args[0], env, st);
        match r {
            Result::Ok(v) => {
                lemma_eval_preserves(fuel, v, env, st1);
            },
            Result::Err(_) => {},
        }
    }
}

proof fn lemma_function_preserves(fuel: nat, es: Seq<SpVal>, env: int, st: Seq<SpFrame>)
    requires
        wf_state(st),
        0 <= env < st.len(),
        vals_closed(es, st.len() as int),
    ensures
        ({
            let (r, st1) = eval_function_sp(fuel, es, env, st);
            &&& wf_state(st1)
            &&& st.len() <= st1.len()
            &&& (r matches Result::Ok(w) ==> val_closed(w, st1.len() as int))
        }),
    decreases fuel, 8int, 0int,
{
    broadcast use lemma_vals_closed;

    if es.len() > 0 {
        lemma_eval_preserves(fuel, es[0], env, st);
        let (rh, st1) = eval_sp(fuel, es[0], env, st);
        match rh {
            Result::Err(_) => {},
            Result::Ok(h) => {
                let tail = es.subrange(1, es.len() as int);
                assert forall|i: int| 0 <= i < tail.len() implies val_closed(
                    #[trigger] tail[i],
                    st1.len() as int,
                ) by {
                    assert(tail[i] == es[i + 1]);
                    lemma_val_closed_grow(es[i + 1], st.len() as int, st1.len() as int);
                }
                lemma_list_preserves(fuel, tail, env, st1);
                let (rt, st2) = eval_list_sp(fuel, tail, env, st1);
                match rt {
                    Result::Err(_) => {},
                    Result::Ok(vs) => {
                        lemma_val_closed_grow(h, st1.len() as int, st2.len() as int);
                        match h {
                            SpVal::Native(op) => {
                                lemma_apply_native_closed(op, vs, st2.len() as int);
                            },
                            SpVal::Closure { params, body, env: cenv } => {
                                let frame = SpFrame {
                                    table: bind_upto(params, vs, bind_count(params, vs)),
                                    outer: Option::Some(cenv),
                                };
                                let st3 = st2.push(frame);
                                assert(crate::env::arena_wf(st3)) by {
                                    assert forall|q: int|
                                        0 <= q < st3.len() implies crate::env::frame_wf(
                                        #[trigger] st3[q],
                                        q,
                                    ) by {
                                        if q < st2.len() {
                                            assert(crate::env::frame_wf(st2[q], q));
                                        }
                                    }
                                }
                                lemma_bind_upto_closed(
                                    params,
                                    vs,
                                    bind_count(params, vs),
                                    st2.len() as int,
                                );
                                assert forall|q: int, k: Seq<char>|
                                    0 <= q < st3.len() && (#[trigger] st3[q].table.contains_key(
                                        k,
                                    )) implies val_closed(st3[q].table[k], st3.len() as int) by {
                                    if q < st2.len() {
                                        assert(st2[q].table.contains_key(k));
                                        lemma_val_closed_grow(
                                            st2[q].table[k],
                                            st2.len() as int,
                                            st3.len() as int,
                                        );
                                    } else {
                                        assert(st3[q] == frame);
                                        lemma_val_closed_grow(
                                            st3[q].table[k],
                                            st2.len() as int,
                                            st3.len() as int,
                                        );
                                    }
                                }
                                lemma_val_closed_grow(*body, st2.len() as int, st3.len() as int);
                                lemma_eval_preserves(fuel, *body, st2.len() as int, st3);
                            },
                            _ => {},
                        }
                    },
                }
            },
        }
    }
}

/// As `lemma_eval_preserves`, for argument-list evaluation.
pub proof fn lemma_list_preserves(fuel: nat, es: Seq<SpVal>, env: int, st: Seq<SpFrame>)
    requires
        wf_state(st),
        0 <= env < st.len(),
        vals_closed(es, st.len() as int),
    ensures
        ({
            let (r, st1) = eval_list_sp(fuel, es, env, st);
            &&& wf_state(st1)
            &&& st.len() <= st1.len()
            &&& (r matches Result::Ok(vs) ==> vals_closed(vs, st1.len() as int))
        }),
    decreases fuel, 7int, es.len(),
{
    broadcast use lemma_vals_closed;

    if es.len() > 0 {
        lemma_eval_preserves(fuel, es[0], env, st);
        let (r, st1) = eval_sp(fuel, es[0], env, st);
        match r {
            Result::Err(_) => {},
            Result::Ok(v) => {
                let rest = es.subrange(1, es.len() as int);
                assert forall|i: int| 0 <= i < rest.len() implies val_closed(
                    #[trigger] rest[i],
                    st1.len() as int,
                ) by {
                    assert(rest[i] == es[i + 1]);
                    lemma_val_closed_grow(es[i + 1], st.len() as int, st1.len() as int);
                }
                lemma_list_preserves(fuel, rest, env, st1);
                let (rs, st2) = eval_list_sp(fuel, rest, env, st1);
                match rs {
                    Result::Err(_) => {},
                    Result::Ok(vs) => {
                        lemma_val_closed_grow(v, st1.len() as int, st2.len() as int);
                        assert forall|i: int| 0 <= i < (seq![v] + vs).len() implies val_closed(
                            #[trigger] (seq![v] + vs)[i],
                            st2.len() as int,
                        ) by {
                            if i > 0 {
                                assert((seq![v] + vs)[i] == vs[i - 1]);
                            }
                        }
                    },
                }
            },
        }
    }
}

// ---------------------------------------------------------------------
// Laws of evaluation.
// ---------------------------------------------------------------------

/// Literal integers evaluate to themselves, touching no scope.
pub proof fn lemma_integer_self_evaluates(fuel: nat, n: int, env: int, st: Seq<SpFrame>)
    requires
        fuel > 0,
    ensures
        eval_sp(fuel, SpVal::Int(n), env, st) == (
            Result::<SpVal, SpErr>::Ok(SpVal::Int(n)),
            st,
        ),
{
}

/// A symbol evaluates to the innermost binding visible from `env`, and
/// an unbound symbol fails with `UndefinedBinding` naming it.
pub proof fn lemma_symbol_resolves(fuel: nat, name: Seq<char>, env: int, st: Seq<SpFrame>)
    requires
        fuel > 0,
    ensures
        (lookup(st, env, name) matches Option::Some(v) ==> eval_sp(fuel, SpVal::Sym(name), env, st)
            == (Result::<SpVal, SpErr>::Ok(v), st)),
        (lookup(st, env, name) is None ==> eval_sp(fuel, SpVal::Sym(name), env, st) == (
            Result::<SpVal, SpErr>::Err(SpErr::UndefinedBinding(name)),
            st,
        )),
{
}

/// A `do` form hands its arguments to `eval_do_sp`.
pub proof fn lemma_do_form(fuel: nat, args: Seq<SpVal>, env: int, st: Seq<SpFrame>)
    requires
        fuel >= 1,
    ensures
        eval_sp(fuel, SpVal::Lst(seq![SpVal::Sym(do_text())] + args), env, st) == eval_do_sp(
            (fuel - 1) as nat,
            args,
            env,
            st,
        ),
{
    let es = seq![SpVal::Sym(do_text())] + args;
    assert(es.len() > 0 && es[0] == SpVal::Sym(do_text()));
    assert(es.subrange(1, es.len() as int) =~= args);
}

/// An argument list that evaluates fully yields one value per
/// argument.
pub proof fn lemma_eval_list_len(fuel: nat, es: Seq<SpVal>, env: int, st: Seq<SpFrame>)
    ensures
        (eval_list_sp(fuel, es, env, st).0 matches Result::Ok(vs) ==> vs.len() == es.len()),
    decreases fuel, 7int, es.len(),
{
    if es.len() > 0 {
        let (r, st1) = eval_sp(fuel, es[0], env, st);
        match r {
            Result::Ok(v) => {
                lemma_eval_list_len(fuel, es.subrange(1, es.len() as int), env, st1);
            },
            Result::Err(_) => {},
        }
    }
}

/// `do` evaluates its arguments exactly as argument lists are
/// evaluated — in order, each exactly once — and yields only the last
/// value, `nil` when there are none.
pub proof fn lemma_do_yields_last(fuel: nat, args: Seq<SpVal>, env: int, st: Seq<SpFrame>)
    ensures
        eval_do_sp(fuel, args, env, st) == ({
            let (r, st1) = eval_list_sp(fuel, args, env, st);
            match r {
                Result::Ok(vs) => (
                    Result::<SpVal, SpErr>::Ok(
                        if vs.len() > 0 {
                            vs[vs.len() - 1]
                        } else {
                            SpVal::Nil
                        },
                    ),
                    st1,
                ),
                Result::Err(e) => (Result::<SpVal, SpErr>::Err(e), st1),
            }
        }),
    decreases args.len(),
{
    if args.len() == 0 {
        assert(eval_list_sp(fuel, args, env, st) == (
            Result::<Seq<SpVal>, SpErr>::Ok(Seq::empty()),
            st,
        ));
        assert(eval_do_sp(fuel, args, env, st) == (Result::<SpVal, SpErr>::Ok(SpVal::Nil), st));
    } else if args.len() == 1 {
        let (r, st1) = eval_sp(fuel, args[0], env, st);
        assert(args.subrange(1, args.len() as int) =~= Seq::<SpVal>::empty());
        assert(eval_list_sp(fuel, args.subrange(1, args.len() as int), env, st1) == (
            Result::<Seq<SpVal>, SpErr>::Ok(Seq::empty()),
            st1,
        ));
        match r {
            Result::Ok(v) => {
                assert(seq![v] + Seq::<SpVal>::empty() =~= seq![v]);
                assert((seq![v] + Seq::<SpVal>::empty())[0] == v);
                assert(eval_list_sp(fuel, args, env, st) == (
                    Result::<Seq<SpVal>, SpErr>::Ok(seq![v]),
                    st1,
                ));
                assert(eval_do_sp(fuel, args, env, st) == (Result::<SpVal, SpErr>::Ok(v), st1));
            },
            Result::Err(_) => {},
        }
    } else {
        let (r, st1) = eval_sp(fuel, args[0], env, st);
        match r {
            Result::Ok(v) => {
                let rest = args.subrange(1, args.len() as int);
                lemma_do_yields_last(fuel, rest, env, st1);
                lemma_eval_list_len(fuel, rest, env, st1);
                let (rs, st2) = eval_list_sp(fuel, rest, env, st1);
                match rs {
                    Result::Ok(vs) => {
                        assert(vs.len() == rest.len());
                        assert((seq![v] + vs)[(seq![v] + vs).len() - 1] == vs[vs.len() - 1]);
                    },
                    Result::Err(_) => {},
                }
            },
            Result::Err(_) => {},
        }
    }
}

/// `def` is side-effecting and local: when the value expression
/// evaluates to `v`, the form returns `nil`, binds the name to `v` in
/// the local table of `env` only, and leaves every other scope's
/// bindings exactly as the value evaluation left them — in particular
/// a `def` in a nested call frame never alters a parent's binding.
pub proof fn lemma_def_is_local(
    fuel: nat,
    name: Seq<char>,
    expr: SpVal,
    env: int,
    st: Seq<SpFrame>,
)
    requires
        fuel >= 1,
        wf_state(st),
        0 <= env < st.len(),
        val_closed(expr, st.len() as int),
    ensures
        ({
            let (rv, st1) = eval_sp((fuel - 1) as nat, expr, env, st);
            let (r, st2) = eval_sp(
                fuel,
                SpVal::Lst(seq![SpVal::Sym(def_text()), SpVal::Sym(name), expr]),
                env,
                st,
            );
            rv matches Result::Ok(v) ==> {
                &&& r == Result::<SpVal, SpErr>::Ok(SpVal::Nil)
                &&& st2.len() == st1.len()
                &&& env < st1.len()
                &&& st2[env].table == st1[env].table.insert(name, v)
                &&& lookup(st2, env, name) == Option::Some(v)
                &&& (forall|f: int| 0 <= f < st1.len() && f != env ==> st2[f] == #[trigger] st1[f])
            }
        }),
{
    let es = seq![SpVal::Sym(def_text()), SpVal::Sym(name), expr];
    assert(es[0] == SpVal::Sym(def_text()));
    let args = es.subrange(1, es.len() as int);
    assert(args.len() == 2 && args[0] == SpVal::Sym(name) && args[1] == expr);
    lemma_eval_preserves((fuel - 1) as nat, expr, env, st);
    let (rv, st1) = eval_sp((fuel - 1) as nat, expr, env, st);
    match rv {
        Result::Ok(v) => {
            let st2 = st1.update(
                env,
                SpFrame { table: st1[env].table.insert(name, v), outer: st1[env].outer },
            );
            assert(eval_sp(
                fuel,
                SpVal::Lst(es),
                env,
                st,
            ) == (Result::<SpVal, SpErr>::Ok(SpVal::Nil), st2));
            assert(crate::env::arena_wf(st2)) by {
                assert forall|q: int| 0 <= q < st2.len() implies crate::env::frame_wf(
                    #[trigger] st2[q],
                    q,
                ) by {
                    assert(crate::env::frame_wf(st1[q], q));
                }
            }
            assert(lookup(st2, env, name) == Option::Some(v));
        },
        Result::Err(_) => {},
    }
}

/// Appending fresh frames never changes what an existing environment
/// sees.
pub proof fn lemma_lookup_push(st: Seq<SpFrame>, f: SpFrame, e: int, name: Seq<char>)
    requires
        crate::env::arena_wf(st),
        crate::env::frame_wf(f, st.len() as int),
        0 <= e < st.len(),
    ensures
        lookup(st.push(f), e, name) == lookup(st, e, name),
    decreases e,
{
    assert(crate::env::arena_wf(st.push(f))) by {
        assert forall|q: int| 0 <= q < st.push(f).len() implies crate::env::frame_wf(
            #[trigger] st.push(f)[q],
            q,
        ) by {
            if q < st.len() {
                assert(crate::env::frame_wf(st[q], q));
            }
        }
    }
    assert(st.push(f)[e] == st[e]);
    if st[e].table.contains_key(name) {
    } else {
        match st[e].outer {
            Option::Some(o) => {
                assert(crate::env::frame_wf(st[e], e));
                lemma_lookup_push(st, f, o, name);
            },
            Option::None => {},
        }
    }
}

/// Closures capture their defining scope, not the call-site scope: a
/// parameterless closure over `x`, defined where `x` resolves to `v`,
/// yields `v` when applied from any environment whatsoever.
pub proof fn lemma_closure_captures_defining_scope(
    fuel: nat,
    x: Seq<char>,
    defsite: int,
    callsite: int,
    st: Seq<SpFrame>,
)
    requires
        fuel >= 3,
        wf_state(st),
        0 <= defsite < st.len(),
    ensures
        ({
            let c = SpVal::Closure {
                params: Seq::empty(),
                body: Box::new(SpVal::Sym(x)),
                env: defsite,
            };
            lookup(st, defsite, x) matches Option::Some(v) ==> eval_sp(
                fuel,
                SpVal::Lst(seq![c]),
                callsite,
                st,
            ) == (
                Result::<SpVal, SpErr>::Ok(v),
                st.push(
                    SpFrame { table: Map::empty(), outer: Option::Some(defsite) },
                ),
            )
        }),
{
    let c = SpVal::Closure { params: Seq::empty(), body: Box::new(SpVal::Sym(x)), env: defsite };
    let es = seq![c];
    assert(es[0] == c);
    let tail = es.subrange(1, es.len() as int);
    assert(tail =~= Seq::<SpVal>::empty());
    let f = (fuel - 1) as nat;
    // the head is self-evaluating, the argument list is empty
    assert(eval_sp(f, c, callsite, st) == (Result::<SpVal, SpErr>::Ok(c), st));
    assert(eval_list_sp(f, tail, callsite, st) == (
        Result::<Seq<SpVal>, SpErr>::Ok(Seq::empty()),
        st,
    ));
    let frame = SpFrame {
        table: bind_upto(Seq::empty(), Seq::empty(), 0),
        outer: Option::Some(defsite),
    };
    assert(frame.table =~= Map::<Seq<char>, SpVal>::empty());
    let st3 = st.push(frame);
    assert(crate::env::arena_wf(st3)) by {
        assert forall|q: int| 0 <= q < st3.len() implies crate::env::frame_wf(
            #[trigger] st3[q],
            q,
        ) by {
            if q < st.len() {
                assert(crate::env::frame_wf(st[q], q));
            }
        }
    }
    // the body resolves `x` through the captured scope, not the call site
    assert(!st3[st.len() as int].table.contains_key(x));
    lemma_lookup_push(st, frame, defsite, x);
    assert(lookup(st3, st.len() as int, x) == lookup(st, defsite, x));
    match lookup(st, defsite, x) {
        Option::Some(v) => {
            assert(eval_sp(f, SpVal::Sym(x), st.len() as int, st3) == (
                Result::<SpVal, SpErr>::Ok(v),
                st3,
            ));
            assert(eval_function_sp(f, es, callsite, st) == (Result::<SpVal, SpErr>::Ok(v), st3));
            assert(apply_sp(f, es, callsite, st) == (Result::<SpVal, SpErr>::Ok(v), st3));
            assert(eval_sp(fuel, SpVal::Lst(es), callsite, st) == (
                Result::<SpVal, SpErr>::Ok(v),
                st3,
            ));
            assert(st3 == st.push(
                SpFrame { table: Map::empty(), outer: Option::Some(defsite) },
            ));
        },
        Option::None => {},
    }
}

/// Function application is positional and eager: the head and the
/// arguments are each evaluated exactly once, left to right, and the
/// body runs in a fresh scope where the i-th parameter is bound to the
/// i-th argument value, chained to the closure's captured environment.
pub proof fn lemma_application_positional(
    fuel: nat,
    params: Seq<Seq<char>>,
    body: SpVal,
    cenv: int,
    argexprs: Seq<SpVal>,
    env: int,
    st: Seq<SpFrame>,
)
    requires
        fuel >= 2,
    ensures
        ({
            let c = SpVal::Closure { params, body: Box::new(body), env: cenv };
            let f = (fuel - 1) as nat;
            let (rt, st2) = eval_list_sp(f, argexprs, env, st);
            rt matches Result::Ok(vs) ==> eval_sp(
                fuel,
                SpVal::Lst(seq![c] + argexprs),
                env,
                st,
            ) == eval_sp(
                f,
                body,
                st2.len() as int,
                st2.push(
                    SpFrame {
                        table: bind_upto(params, vs, bind_count(params, vs)),
                        outer: Option::Some(cenv),
                    },
                ),
            )
        }),
{
    let c = SpVal::Closure { params, body: Box::new(body), env: cenv };
    let es = seq![c] + argexprs;
    assert(es[0] == c);
    assert(es.subrange(1, es.len() as int) =~= argexprs);
    let f = (fuel - 1) as nat;
    if f > 0 {
        assert(eval_sp(f, c, env, st) == (Result::<SpVal, SpErr>::Ok(c), st));
    }
}

/// With distinct parameter names, the fresh scope of an application
/// binds each bound parameter to its argument value, and binds nothing
/// else: extra arguments are ignored, missing parameters stay unbound
/// and surface as `UndefinedBinding` only if the body reads them.
pub proof fn lemma_bind_upto_at(params: Seq<Seq<char>>, vs: Seq<SpVal>, k: int, i: int)
    requires
        0 <= i < k <= params.len(),
        k <= vs.len(),
        (forall|a: int, b: int|
            0 <= a < b < params.len() ==> #[trigger] params[a] != #[trigger] params[b]),
    ensures
        bind_upto(params, vs, k).contains_key(params[i]),
        bind_upto(params, vs, k)[params[i]] == vs[i],
    decreases k,
{
    if i < k - 1 {
        lemma_bind_upto_at(params, vs, k - 1, i);
    }
}

/// A name that is no bound parameter stays unbound in the fresh scope.
pub proof fn lemma_bind_upto_absent(params: Seq<Seq<char>>, vs: Seq<SpVal>, k: int, name: Seq<char>)
    requires
        0 <= k <= params.len(),
        forall|a: int| 0 <= a < k ==> #[trigger] params[a] != name,
    ensures
        !bind_upto(params, vs, k).contains_key(name),
    decreases k,
{
    if k > 0 {
        lemma_bind_upto_absent(params, vs, k - 1, name);
    }
}

/// A one-parameter closure whose body is its parameter hands back
/// exactly the value its argument expression evaluates to: the
/// argument is evaluated (once), bound positionally, and read back out
/// of the fresh scope.
pub proof fn lemma_application_returns_argument(
    fuel: nat,
    p: Seq<char>,
    cenv: int,
    argexpr: SpVal,
    env: int,
    st: Seq<SpFrame>,
)
    requires
        fuel >= 3,
        wf_state(st),
        0 <= env < st.len(),
        0 <= cenv < st.len(),
        val_closed(argexpr, st.len() as int),
    ensures
        ({
            let c = SpVal::Closure { params: seq![p], body: Box::new(SpVal::Sym(p)), env: cenv };
            let f = (fuel - 1) as nat;
            let (ra, st1) = eval_sp(f, argexpr, env, st);
            ra matches Result::Ok(v) ==> eval_sp(fuel, SpVal::Lst(seq![c, argexpr]), env, st) == (
                Result::<SpVal, SpErr>::Ok(v),
                st1.push(
                    SpFrame {
                        table: Map::empty().insert(p, v),
                        outer: Option::Some(cenv),
                    },
                ),
            )
        }),
{
    let c = SpVal::Closure { params: seq![p], body: Box::new(SpVal::Sym(p)), env: cenv };
    let f = (fuel - 1) as nat;
    lemma_eval_preserves(f, argexpr, env, st);
    let (ra, st1) = eval_sp(f, argexpr, env, st);
    match ra {
        Result::Ok(v) => {
            // the argument list evaluates to exactly one value
            assert(seq![c, argexpr].subrange(1, 2) =~= seq![argexpr]);
            assert(seq![argexpr].subrange(1, 1) =~= Seq::<SpVal>::empty());
            assert(seq![argexpr][0] == argexpr);
            assert(eval_list_sp(f, seq![argexpr], env, st) == (
                Result::<Seq<SpVal>, SpErr>::Ok(seq![v]),
                st1,
            )) by {
                reveal_with_fuel(eval_list_sp, 3);
                assert(seq![v] + Seq::<SpVal>::empty() =~= seq![v]);
            }
            lemma_application_positional(fuel, seq![p], SpVal::Sym(p), cenv, seq![argexpr], env, st);
            let frame = SpFrame {
                table: bind_upto(seq![p], seq![v], 1),
                outer: Option::Some(cenv),
            };
            assert(frame.table =~= Map::<Seq<char>, SpVal>::empty().insert(p, v)) by {
                reveal_with_fuel(bind_upto, 3);
                assert(seq![p][0] == p && seq![v][0] == v);
            }
            let st2 = st1.push(frame);
            assert(crate::env::arena_wf(st2)) by {
                assert forall|q: int| 0 <= q < st2.len() implies crate::env::frame_wf(
                    #[trigger] st2[q],
                    q,
                ) by {
                    if q < st1.len() {
                        assert(crate::env::frame_wf(st1[q], q));
                    }
                }
            }
            // the body reads the parameter straight out of the new scope
            assert(st2[st1.len() as int].table.contains_key(p));
            assert(eval_sp(f, SpVal::Sym(p), st1.len() as int, st2) == (
                Result::<SpVal, SpErr>::Ok(v),
                st2,
            ));
            assert(seq![c] + seq![argexpr] =~= seq![c, argexpr]);
            assert(bind_count(seq![p], seq![v]) == 1);
            assert(eval_sp(fuel, SpVal::Lst(seq![c, argexpr]), env, st) == (
                Result::<SpVal, SpErr>::Ok(v),
                st2,
            ));
        },
        Result::Err(_) => {},
    }
}

/// `eval` is homoiconic: it evaluates its argument to obtain a value,
/// then evaluates that value itself as code, in the same environment.
pub proof fn lemma_eval_homoiconic(fuel: nat, expr: SpVal, env: int, st: Seq<SpFrame>)
    requires
        fuel >= 1,
    ensures
        eval_sp(fuel, SpVal::Lst(seq![SpVal::Sym(eval_text()), expr]), env, st) == ({
            let f = (fuel - 1) as nat;
            let (r, st1) = eval_sp(f, expr, env, st);
            match r {
                Result::Ok(v) => eval_sp(f, v, env, st1),
                Result::Err(e) => (Result::<SpVal, SpErr>::Err(e), st1),
            }
        }),
{
    let es = seq![SpVal::Sym(eval_text()), expr];
    assert(es[0] == SpVal::Sym(eval_text()));
    assert(es.subrange(1, es.len() as int) =~= seq![expr]);
    assert(seq![expr][0] == expr);
}

/// The latest binding wins, and no other key is disturbed.
pub proof fn lemma_upsert_get(ps: Seq<(Seq<char>, SpVal)>, k: Seq<char>, v: SpVal)
    requires
        keys_distinct(ps),
    ensures
        crate::shell_evaluator::tbl_get(upsert(ps, k, v), k) == Option::Some(v),
        forall|k2: Seq<char>|
            k2 != k ==> #[trigger] crate::shell_evaluator::tbl_get(upsert(ps, k, v), k2)
                == crate::shell_evaluator::tbl_get(ps, k2),
{
    crate::shell_evaluator::lemma_tbl_get_upsert(ps, k, v);
}

/// Hash operations are persistent: `hash-set` on a table yields a new
/// table in which the key is bound to the new value and every other
/// key reads as before; being a value, the given table itself is
/// untouched, and evaluating it afterwards yields it unchanged.
pub proof fn lemma_hash_set_persistent(
    ps: Seq<(Seq<char>, SpVal)>,
    k: Seq<char>,
    v: SpVal,
)
    requires
        keys_distinct(ps),
    ensures
        apply_native_sp(NativeOp::HashSet, seq![SpVal::Table(ps), SpVal::Str(k), v]) == Result::<
            SpVal,
            SpErr,
        >::Ok(SpVal::Table(upsert(ps, k, v))),
        crate::shell_evaluator::tbl_get(upsert(ps, k, v), k) == Option::Some(v),
        forall|k2: Seq<char>|
            k2 != k ==> #[trigger] crate::shell_evaluator::tbl_get(upsert(ps, k, v), k2)
                == crate::shell_evaluator::tbl_get(ps, k2),
{
    let vs = seq![SpVal::Table(ps), SpVal::Str(k), v];
    assert(vs[0] == SpVal::Table(ps) && vs[1] == SpVal::Str(k) && vs[2] == v);
    lemma_upsert_get(ps, k, v);
}

/// The empty list evaluates to itself; applying an empty list — a list
/// whose head evaluates to the empty list — fails with
/// `ApplyEmptyList`.
pub proof fn lemma_empty_list(fuel: nat, env: int, st: Seq<SpFrame>)
    requires
        fuel >= 2,
    ensures
        eval_sp(fuel, SpVal::Lst(Seq::empty()), env, st) == (
            Result::<SpVal, SpErr>::Ok(SpVal::Lst(Seq::empty())),
            st,
        ),
        eval_sp(fuel, SpVal::Lst(seq![SpVal::Lst(Seq::empty())]), env, st) == (
            Result::<SpVal, SpErr>::Err(SpErr::ApplyEmptyList),
            st,
        ),
{
    let inner = SpVal::Lst(Seq::<SpVal>::empty());
    let es = seq![inner];
    assert(es[0] == inner);
    let f = (fuel - 1) as nat;
    assert(eval_sp(f, inner, env, st) == (Result::<SpVal, SpErr>::Ok(inner), st));
    assert(es.subrange(1, es.len() as int) =~= Seq::<SpVal>::empty());
    assert(eval_list_sp(f, Seq::empty(), env, st) == (
        Result::<Seq<SpVal>, SpErr>::Ok(Seq::empty()),
        st,
    ));
}

/// Applying a non-function fails with `ApplyNonFunction` carrying the
/// offending head value: an integer head, with arguments that all
/// evaluate, reports itself.
pub proof fn lemma_apply_non_function(
    fuel: nat,
    n: int,
    argexprs: Seq<SpVal>,
    env: int,
    st: Seq<SpFrame>,
)
    requires
        fuel >= 2,
    ensures
        ({
            let f = (fuel - 1) as nat;
            let (rt, st2) = eval_list_sp(f, argexprs, env, st);
            rt matches Result::Ok(vs) ==> eval_sp(
                fuel,
                SpVal::Lst(seq![SpVal::Int(n)] + argexprs),
                env,
                st,
            ) == (
                Result::<SpVal, SpErr>::Err(
                    SpErr::ApplyNonFunction(Box::new(SpVal::Int(n))),
                ),
                st2,
            )
        }),
{
    let es = seq![SpVal::Int(n)] + argexprs;
    assert(es[0] == SpVal::Int(n));
    assert(es.subrange(1, es.len() as int) =~= argexprs);
    let f = (fuel - 1) as nat;
    assert(eval_sp(f, SpVal::Int(n), env, st) == (
        Result::<SpVal, SpErr>::Ok(SpVal::Int(n)),
        st,
    ));
}

} // verus!
